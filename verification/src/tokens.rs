//! Text to token ids.

use crate::assemble;
use crate::chars;
use crate::grid;
use crate::settings::{encodable, fixed, harmless};
use tokenizers::Tokenizer;
use vstd::prelude::*;

verus! {

/// What a tokenizer that is not [`harmless`] is answered.
pub const NOT_ENCODABLE: &'static str = "the tokenizer's added tokens, normalizer, truncation, padding or processing does not suit a single text";

/// A tokenizer that is handed a text, with or without the special tokens that it adds, may give
/// these ids; or refuse it, for nothing.
pub uninterp spec fn may_encode(
    t: Tokenizer,
    text: Seq<char>,
    special: bool,
    ids: Option<Seq<u32>>,
) -> bool;

/// What a [`fixed`] tokenizer makes of a text: the only thing that it may; nothing where it refuses
/// the text.
pub open spec fn encoding(t: Tokenizer, text: Seq<char>, special: bool) -> Option<Seq<u32>> {
    choose|ids: Option<Seq<u32>>| may_encode(t, text, special, ids)
}

/// The ids that came back, nothing where the text was refused.
pub open spec fn outcome(r: Result<Vec<u32>, String>) -> Option<Seq<u32>> {
    match r {
        Ok(ids) => Some(ids@),
        Err(_) => None,
    }
}

/// `Tokenizer::encode`, with or without the special tokens that the tokenizer adds around a text,
/// and the ids of its encoding. A tokenizer that is not [`harmless`] is left out: an added token
/// may be cut out in reverse or from inside a character, a normalizer's table is indexed unchecked
/// and so are the characters that stand for others, runs of no character are refused by a panic,
/// truncation asserts that the stride is smaller than what is left, and a template may index a
/// second text that is not there or a special token that it does not define.
///
/// Which ids come back is decided by the vocabulary and the merges that the tokenizer was loaded
/// with, so what a [`fixed`] tokenizer gives one text is all that it may give. One that may drop
/// merges at random gives one of several encodings of the text, and which is not claimed.
#[verifier::external_body]
pub(crate) fn encode_ids(tokenizer: &Tokenizer, text: &str, special: bool) -> (r: Result<
    Vec<u32>,
    String,
>)
    requires
        harmless(*tokenizer, special),
    ensures
        may_encode(*tokenizer, text@, special, outcome(r)),
        fixed(*tokenizer) ==> forall|ids: Option<Seq<u32>>|
            may_encode(*tokenizer, text@, special, ids) ==> ids == outcome(r),
{
    match tokenizer.encode(text, special) {
        Ok(e) => Ok(e.get_ids().to_vec()),
        Err(e) => Err(e.to_string()),
    }
}

/// A segment with its tokens.
pub struct Tokens {
    pub para: usize,
    /// Characters of its text.
    pub chars: usize,
    pub ids: Vec<u32>,
}

/// The segments that have a token.
pub open spec fn spoken(ids: Seq<Seq<u32>>) -> Seq<int>
    decreases ids.len(),
{
    if ids.len() == 0 {
        Seq::empty()
    } else {
        let before = spoken(ids.drop_last());
        if ids.last().len() > 0 {
            before.push(ids.len() - 1)
        } else {
            before
        }
    }
}

/// `t` is segment `i` with its tokens.
pub open spec fn token_of(
    t: Tokens,
    segments: Seq<(usize, String)>,
    ids: Seq<Seq<u32>>,
    i: int,
) -> bool {
    &&& 0 <= i < segments.len()
    &&& t.para == segments[i].0
    &&& t.chars == segments[i].1@.len()
    &&& t.ids@ == ids[i]
    &&& t.ids@.len() > 0
}

/// `out` lists the segments that have a token, in order, each with its paragraph, its length and
/// its tokens.
pub open spec fn tokens_of(
    out: Seq<Tokens>,
    segments: Seq<(usize, String)>,
    ids: Seq<Seq<u32>>,
) -> bool {
    &&& out.len() == spoken(ids).len()
    &&& forall|k: int|
        0 <= k < out.len() ==> token_of(#[trigger] out[k], segments, ids, spoken(ids)[k])
}

/// Pairs segments with their tokens; one without any is not spoken.
pub fn keep_spoken(segments: &Vec<(usize, String)>, ids: &Vec<Vec<u32>>) -> (out: Vec<Tokens>)
    requires
        segments@.len() == ids@.len(),
    ensures
        tokens_of(out@, segments@, grid::rows_view(ids@)),
{
    let ghost all = grid::rows_view(ids@);
    let mut out: Vec<Tokens> = Vec::new();
    let mut i: usize = 0;
    while i < ids.len()
        invariant
            i <= ids@.len() == segments@.len(),
            all == grid::rows_view(ids@),
            tokens_of(out@, segments@, all.take(i as int)),
        decreases ids@.len() - i,
    {
        let ghost so_far = all.take(i as int);
        let ghost next = all.take(i + 1);
        let ghost was = out@;
        assert(next.drop_last() =~= so_far);
        if ids[i].len() > 0 {
            let letters = chars::to_chars(segments[i].1.as_str());
            let t = Tokens {
                para: segments[i].0,
                chars: letters.len(),
                ids: grid::copy_vec(&ids[i]),
            };
            out.push(t);
        }
        assert forall|k: int| 0 <= k < out@.len() implies token_of(
            #[trigger] out@[k],
            segments@,
            next,
            spoken(next)[k],
        ) by {
            if k < was.len() {
                assert(token_of(was[k], segments@, so_far, spoken(so_far)[k]));
                lemma_spoken_in_range(so_far, k);
            }
        }
        i += 1;
    }
    assert(all.take(i as int) =~= all);
    out
}

proof fn lemma_spoken_in_range(ids: Seq<Seq<u32>>, k: int)
    requires
        0 <= k < spoken(ids).len(),
    ensures
        0 <= spoken(ids)[k] < ids.len(),
        ids[spoken(ids)[k]].len() > 0,
    decreases ids.len(),
{
    let before = spoken(ids.drop_last());
    if k < before.len() {
        lemma_spoken_in_range(ids.drop_last(), k);
    }
}

/// What a fixed tokenizer makes of each segment.
pub open spec fn encodings(t: Tokenizer, segments: Seq<(usize, String)>, special: bool) -> Seq<
    Seq<u32>,
> {
    Seq::new(segments.len(), |i: int| encoding(t, segments[i].1@, special)->0)
}

/// A fixed tokenizer can be handed texts, and takes every segment.
pub open spec fn takes_all(t: Tokenizer, segments: Seq<(usize, String)>, special: bool) -> bool {
    harmless(t, special) && forall|i: int|
        0 <= i < segments.len() ==> encoding(t, (#[trigger] segments[i]).1@, special) is Some
}

/// A fixed tokenizer gives the same texts the same tokens.
pub proof fn tokens_are_determined(
    t: Tokenizer,
    x: Seq<(usize, String)>,
    y: Seq<(usize, String)>,
    a: Seq<Tokens>,
    b: Seq<Tokens>,
    special: bool,
)
    requires
        assemble::numbered(x) == assemble::numbered(y),
        tokens_of(a, x, encodings(t, x, special)),
        tokens_of(b, y, encodings(t, y, special)),
    ensures
        a.len() == b.len(),
        forall|k: int|
            0 <= k < a.len() ==> (#[trigger] a[k]).para == b[k].para && a[k].chars == b[k].chars
                && a[k].ids@ == b[k].ids@,
{
    assert(assemble::numbered(x).len() == x.len());
    assert(assemble::numbered(y).len() == y.len());
    assert forall|i: int| 0 <= i < x.len() implies (#[trigger] x[i]).0 == y[i].0 && x[i].1@
        == y[i].1@ by {
        assert(assemble::numbered(x)[i] == assemble::numbered(y)[i]);
    }
    let ids = encodings(t, x, special);
    assert(ids =~= encodings(t, y, special));
    assert forall|k: int| 0 <= k < a.len() implies (#[trigger] a[k]).para == b[k].para && a[k].chars
        == b[k].chars && a[k].ids@ == b[k].ids@ by {
        assert(token_of(a[k], x, ids, spoken(ids)[k]));
        assert(token_of(b[k], y, ids, spoken(ids)[k]));
    }
}

/// `ids` are what a tokenizer may give for each segment.
pub open spec fn may_encode_each(
    t: Tokenizer,
    segments: Seq<(usize, String)>,
    special: bool,
    ids: Seq<Seq<u32>>,
) -> bool {
    &&& ids.len() == segments.len()
    &&& forall|i: int|
        0 <= i < segments.len() ==> may_encode(
            t,
            (#[trigger] segments[i]).1@,
            special,
            Some(ids[i]),
        )
}

/// A tokenizer cannot be handed texts, or may refuse one of the segments.
pub open spec fn may_refuse(t: Tokenizer, segments: Seq<(usize, String)>, special: bool) -> bool {
    !harmless(t, special) || exists|i: int|
        0 <= i < segments.len() && may_encode(t, (#[trigger] segments[i]).1@, special, None)
}

/// The tokens of every segment. A tokenizer that cannot be handed texts is an error.
pub fn tokenize_each(
    tokenizer: &Tokenizer,
    segments: &Vec<(usize, String)>,
    special: bool,
) -> (r: Result<Vec<Vec<u32>>, String>)
    ensures
        match r {
            Ok(v) => harmless(*tokenizer, special) && may_encode_each(
                *tokenizer,
                segments@,
                special,
                grid::rows_view(v@),
            ),
            Err(_) => may_refuse(*tokenizer, segments@, special),
        },
        !harmless(*tokenizer, special) ==> (r matches Err(e) && e@ == NOT_ENCODABLE@),
        fixed(*tokenizer) ==> match r {
            Ok(v) => takes_all(*tokenizer, segments@, special) && grid::rows_view(v@) == encodings(
                *tokenizer,
                segments@,
                special,
            ),
            Err(_) => !takes_all(*tokenizer, segments@, special),
        },
{
    if !encodable(tokenizer, special) {
        return Err(NOT_ENCODABLE.to_owned());
    }
    let mut out: Vec<Vec<u32>> = Vec::new();
    let mut i: usize = 0;
    while i < segments.len()
        invariant
            i <= segments@.len(),
            harmless(*tokenizer, special),
            out@.len() == i,
            forall|j: int|
                0 <= j < i ==> may_encode(
                    *tokenizer,
                    (#[trigger] segments@[j]).1@,
                    special,
                    Some(out@[j]@),
                ),
            fixed(*tokenizer) ==> forall|j: int|
                0 <= j < i ==> encoding(
                    *tokenizer,
                    (#[trigger] segments@[j]).1@,
                    special,
                ) == Some(out@[j]@),
        decreases segments@.len() - i,
    {
        match encode_ids(tokenizer, segments[i].1.as_str(), special) {
            Ok(ids) => {
                out.push(ids);
            },
            Err(e) => {
                assert(may_encode(*tokenizer, segments@[i as int].1@, special, None));
                assert(fixed(*tokenizer) ==> encoding(
                    *tokenizer,
                    segments@[i as int].1@,
                    special,
                ) is None);
                return Err(e);
            },
        }
        i += 1;
    }
    assert(grid::rows_view(out@).len() == segments@.len());
    assert(fixed(*tokenizer) ==> grid::rows_view(out@) =~= encodings(*tokenizer, segments@, special));
    Ok(out)
}

/// `out` lists, in order, the segments that have a token in what the tokenizer may give for each of
/// them.
pub open spec fn tokenized(
    t: Tokenizer,
    out: Seq<Tokens>,
    segments: Seq<(usize, String)>,
    special: bool,
) -> bool {
    exists|ids: Seq<Seq<u32>>|
        may_encode_each(t, segments, special, ids) && #[trigger] tokens_of(out, segments, ids)
}

/// The segments to speak with their tokens. Each is tokenized on its own, and one whose text
/// comes to no token is left out.
pub fn tokenize(
    tokenizer: &Tokenizer,
    segments: &Vec<(usize, String)>,
    special: bool,
) -> (r: Result<Vec<Tokens>, String>)
    ensures
        match r {
            Ok(out) => harmless(*tokenizer, special) && tokenized(
                *tokenizer,
                out@,
                segments@,
                special,
            ),
            Err(_) => may_refuse(*tokenizer, segments@, special),
        },
        !harmless(*tokenizer, special) ==> (r matches Err(e) && e@ == NOT_ENCODABLE@),
        fixed(*tokenizer) ==> match r {
            Ok(out) => takes_all(*tokenizer, segments@, special) && tokens_of(
                out@,
                segments@,
                encodings(*tokenizer, segments@, special),
            ),
            Err(_) => !takes_all(*tokenizer, segments@, special),
        },
{
    match tokenize_each(tokenizer, segments, special) {
        Ok(ids) => {
            let out = keep_spoken(segments, &ids);
            assert(tokens_of(out@, segments@, grid::rows_view(ids@)));
            Ok(out)
        },
        Err(e) => Err(e),
    }
}

/// The segments that speak are those with tokens, in reading order.
pub proof fn the_segments_with_tokens_speak(ids: Seq<Seq<u32>>)
    ensures
        forall|k: int, l: int|
            0 <= k < l < spoken(ids).len() ==> #[trigger] spoken(ids)[k] < #[trigger] spoken(ids)[l],
        forall|k: int| 0 <= k < spoken(ids).len() ==> 0 <= #[trigger] spoken(ids)[k] < ids.len(),
        forall|i: int|
            0 <= i < ids.len() ==> (#[trigger] spoken(ids).contains(i) <==> ids[i].len() > 0),
    decreases ids.len(),
{
    if ids.len() > 0 {
        let b = ids.drop_last();
        let n = ids.len() - 1;
        the_segments_with_tokens_speak(b);
        let was = spoken(b);
        let all = spoken(ids);
        assert forall|i: int| 0 <= i < ids.len() implies (#[trigger] all.contains(i) <==> ids[i].len() > 0) by {
            if i < n {
                assert(b[i] == ids[i]);
                if was.contains(i) {
                    let k = choose|k: int| 0 <= k < was.len() && was[k] == i;
                    assert(all[k] == i);
                }
                if all.contains(i) {
                    let k = choose|k: int| 0 <= k < all.len() && all[k] == i;
                    assert(was[k] == i);
                }
            } else {
                if ids[n].len() > 0 {
                    assert(all[was.len() as int] == n);
                } else if all.contains(n) {
                    let k = choose|k: int| 0 <= k < all.len() && all[k] == n;
                    assert(was[k] == n);
                }
            }
        }
        assert forall|k: int, l: int| 0 <= k < l < all.len() implies #[trigger] all[k]
            < #[trigger] all[l] by {
            if l < was.len() {
                assert(was[k] < was[l]);
            } else {
                assert(was[k] < n);
            }
        }
        assert forall|k: int| 0 <= k < all.len() implies 0 <= #[trigger] all[k] < ids.len() by {
            if k < was.len() {
                assert(0 <= was[k] < n);
            }
        }
    }
}

/// Tokens follow the segments: they are those of the segments that have any, in reading order, each
/// with the paragraph and the characters of its own segment.
#[verifier::rlimit(50)]
pub proof fn tokens_follow_the_segments(
    t: Tokenizer,
    out: Seq<Tokens>,
    segments: Seq<(usize, String)>,
    special: bool,
) -> (idx: Seq<int>)
    requires
        tokenized(t, out, segments, special),
    ensures
        idx.len() == out.len(),
        forall|k: int, l: int| 0 <= k < l < idx.len() ==> #[trigger] idx[k] < #[trigger] idx[l],
        forall|k: int|
            0 <= k < out.len() ==> {
                let i = #[trigger] idx[k];
                &&& 0 <= i < segments.len()
                &&& out[k].para == segments[i].0
                &&& out[k].chars == segments[i].1@.len()
                &&& out[k].ids@.len() > 0
                &&& may_encode(t, segments[i].1@, special, Some(out[k].ids@))
            },
        forall|i: int|
            0 <= i < segments.len() && !(#[trigger] idx.contains(i)) ==> may_encode(
                t,
                segments[i].1@,
                special,
                Some(Seq::empty()),
            ),
{
    let ids = choose|ids: Seq<Seq<u32>>|
        may_encode_each(t, segments, special, ids) && #[trigger] tokens_of(out, segments, ids);
    the_segments_with_tokens_speak(ids);
    let idx = spoken(ids);
    assert forall|k: int| 0 <= k < out.len() implies {
        let i = #[trigger] idx[k];
        &&& 0 <= i < segments.len()
        &&& out[k].para == segments[i].0
        &&& out[k].chars == segments[i].1@.len()
        &&& out[k].ids@.len() > 0
        &&& may_encode(t, segments[i].1@, special, Some(out[k].ids@))
    } by {
        let i = idx[k];
        assert(token_of(out[k], segments, ids, i));
        assert(may_encode(t, segments[i].1@, special, Some(ids[i])));
    }
    assert forall|i: int| 0 <= i < segments.len() && !(#[trigger] idx.contains(i)) implies may_encode(
        t,
        segments[i].1@,
        special,
        Some(Seq::empty()),
    ) by {
        assert(may_encode(t, segments[i].1@, special, Some(ids[i])));
        assert(ids[i] =~= Seq::<u32>::empty());
    }
    idx
}

} // verus!
