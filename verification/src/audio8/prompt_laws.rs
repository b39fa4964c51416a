//! What a prompt says, whatever it is to speak.

use crate::audio8::prompt;
use crate::audio8::prompt::{Prompt, PromptError};
use crate::chars;
use crate::grid;
use crate::segment_laws;
use crate::text;
use crate::text_laws;
use crate::tokens;
use tokenizers::Tokenizer;
use vstd::prelude::*;

verus! {

/// A text ends with another.
pub open spec fn ends_in(s: Seq<char>, tail: Seq<char>) -> bool {
    tail.len() <= s.len() && s.subrange(s.len() - tail.len(), s.len() as int) == tail
}

/// A text starts with another.
pub open spec fn starts_in(s: Seq<char>, head: Seq<char>) -> bool {
    head.len() <= s.len() && s.subrange(0, head.len() as int) == head
}

/// Every prompt, plain or cloning, closes with the same turns around its target: the user's turn
/// opens, says the target and nothing else, and is closed; then the assistant's turn opens and asks
/// for speech.
pub proof fn every_prompt_asks_for_speech(target: Seq<char>, said: Seq<char>)
    ensures
        ({
            let plain = prompt::plain_turns(target);
            let clone = prompt::answer_turns(target);
            &&& plain.len() >= 5 && clone.len() >= 5
            &&& clone.subrange(clone.len() - 5, clone.len() as int) == plain.subrange(
                plain.len() - 5,
                plain.len() as int,
            )
            &&& plain[plain.len() - 3] == target && clone[clone.len() - 3] == target
            &&& clone.last() == plain.last()
            &&& ends_in(clone.last(), "<|voice|>"@) && ends_in(plain.last(), "<|voice|>"@)
            &&& starts_in(clone.last(), "<|im_start|>assistant"@)
            &&& starts_in(clone[clone.len() - 4], "<|im_start|>user"@)
            &&& starts_in(clone[clone.len() - 2], "<|im_end|>"@)
            &&& starts_in(plain[0], "<|im_start|>system"@)
            &&& starts_in(prompt::reference_turns(said)[0], "<|im_start|>system"@)
        }),
{
    let plain = prompt::plain_turns(target);
    let clone = prompt::answer_turns(target);
    assert(clone.subrange(clone.len() - 5, clone.len() as int) =~= plain.subrange(
        plain.len() - 5,
        plain.len() as int,
    ));
    reveal_strlit("<|im_start|>assistant\n<|voice|>");
    reveal_strlit("<|voice|>");
    reveal_strlit("<|im_start|>assistant");
    reveal_strlit("<|im_start|>user\n");
    reveal_strlit("<|im_start|>user");
    reveal_strlit("<|im_end|>\n");
    reveal_strlit("<|im_end|>");
    reveal_strlit("<|im_start|>system\n");
    reveal_strlit("<|im_start|>system");
    let last = clone.last();
    assert(last.subrange(last.len() - "<|voice|>"@.len(), last.len() as int) =~= "<|voice|>"@);
    assert(last.subrange(0, "<|im_start|>assistant"@.len() as int) =~= "<|im_start|>assistant"@);
    assert(clone[clone.len() - 4].subrange(0, "<|im_start|>user"@.len() as int)
        =~= "<|im_start|>user"@);
    assert(clone[clone.len() - 2].subrange(0, "<|im_end|>"@.len() as int) =~= "<|im_end|>"@);
    assert(plain[0].subrange(0, "<|im_start|>system"@.len() as int) =~= "<|im_start|>system"@);
}

/// A plain prompt, read as one text: what the model was trained on, with the target in its place.
pub proof fn a_plain_prompt_reads_as_trained(target: Seq<char>)
    ensures
        grid::flat_rows(prompt::plain_turns(target))
            == "<|im_start|>system\nconvert the provided text to speech<|im_end|>\n<|im_start|>user\n"@
            + target + "<|im_end|>\n<|im_start|>assistant\n<|voice|>"@,
{
    reveal_strlit("<|im_start|>system\n");
    reveal_strlit("convert the provided text to speech");
    reveal_strlit("<|im_end|>\n");
    reveal_strlit("<|im_start|>user\n");
    reveal_strlit("<|im_start|>assistant\n<|voice|>");
    reveal_strlit(
        "<|im_start|>system\nconvert the provided text to speech<|im_end|>\n<|im_start|>user\n",
    );
    reveal_strlit("<|im_end|>\n<|im_start|>assistant\n<|voice|>");
    lemma_flat_seven(prompt::plain_turns(target));
    let front = "<|im_start|>system\n"@ + "convert the provided text to speech"@ + "<|im_end|>\n"@
        + "<|im_start|>user\n"@;
    assert(front
        =~= "<|im_start|>system\nconvert the provided text to speech<|im_end|>\n<|im_start|>user\n"@);
    let back = "<|im_end|>\n"@ + "<|im_start|>assistant\n<|voice|>"@;
    assert(back =~= "<|im_end|>\n<|im_start|>assistant\n<|voice|>"@);
    assert(front + target + "<|im_end|>\n"@ + "<|im_start|>assistant\n<|voice|>"@ =~= front + target
        + back);
}

/// A cloning prompt, read as one text around the clip's codes: the transcript stands in the system
/// turn, the codes right behind it, and the target in the user's turn.
pub proof fn a_cloning_prompt_reads_as_trained(target: Seq<char>, said: Seq<char>)
    ensures
        grid::flat_rows(prompt::reference_turns(said))
            == "<|im_start|>system\nconvert the provided text to speech reference to the following:\n\nText:\n"@
            + said + "\n\nSpeech:\n"@,
        grid::flat_rows(prompt::answer_turns(target)) == "<|im_end|>\n<|im_start|>user\n"@ + target
            + "<|im_end|>\n<|im_start|>assistant\n<|voice|>"@,
{
    reveal_strlit("<|im_start|>system\n");
    reveal_strlit("convert the provided text to speech reference to the following:\n\nText:\n");
    reveal_strlit("\n\nSpeech:\n");
    reveal_strlit("<|im_end|>\n");
    reveal_strlit("<|im_start|>user\n");
    reveal_strlit("<|im_start|>assistant\n<|voice|>");
    reveal_strlit(
        "<|im_start|>system\nconvert the provided text to speech reference to the following:\n\nText:\n",
    );
    reveal_strlit("<|im_end|>\n<|im_start|>user\n");
    reveal_strlit("<|im_end|>\n<|im_start|>assistant\n<|voice|>");
    lemma_flat_four(prompt::reference_turns(said));
    let front = "<|im_start|>system\n"@
        + "convert the provided text to speech reference to the following:\n\nText:\n"@;
    assert(front
        =~= "<|im_start|>system\nconvert the provided text to speech reference to the following:\n\nText:\n"@);
    lemma_flat_five(prompt::answer_turns(target));
    let open = "<|im_end|>\n"@ + "<|im_start|>user\n"@;
    assert(open =~= "<|im_end|>\n<|im_start|>user\n"@);
    let back = "<|im_end|>\n"@ + "<|im_start|>assistant\n<|voice|>"@;
    assert(back =~= "<|im_end|>\n<|im_start|>assistant\n<|voice|>"@);
    assert(open + target + "<|im_end|>\n"@ + "<|im_start|>assistant\n<|voice|>"@ =~= open + target
        + back);
}

proof fn lemma_flat_four(s: Seq<Seq<char>>)
    requires
        s.len() == 4,
    ensures
        grid::flat_rows(s) == s[0] + s[1] + s[2] + s[3],
{
    reveal_with_fuel(grid::flat_rows, 5);
    assert(s.drop_last().drop_last().drop_last().drop_last() =~= Seq::empty());
    assert(Seq::empty() + s[0] =~= s[0]);
}

proof fn lemma_flat_five(s: Seq<Seq<char>>)
    requires
        s.len() == 5,
    ensures
        grid::flat_rows(s) == s[0] + s[1] + s[2] + s[3] + s[4],
{
    lemma_flat_four(s.drop_last());
}

proof fn lemma_flat_seven(s: Seq<Seq<char>>)
    requires
        s.len() == 7,
    ensures
        grid::flat_rows(s) == s[0] + s[1] + s[2] + s[3] + s[4] + s[5] + s[6],
{
    reveal_with_fuel(grid::flat_rows, 3);
    lemma_flat_five(s.drop_last().drop_last());
}

/// A prompt holds the text before the reference, the reference and the text behind it, in that
/// order: eleven rows, of which the first holds the ids, with each code of the first codebook as
/// the id 151678 places on, and the others the codes of their codebook below them and zeros below
/// the text.
pub proof fn a_prompt_is_text_around_the_reference(
    prefix: Seq<u32>,
    codes: Seq<Seq<u32>>,
    suffix: Seq<u32>,
    k: int,
    r: int,
)
    requires
        prompt::codes_ok(Some(codes)),
        codes.len() == 10,
        prompt::even_before(Some(codes), 10),
        0 < r <= 10,
    ensures
        ({
            let g = prompt::prompt_grid(prefix, Some(codes), suffix);
            let n = codes[0].len();
            let p = prefix.len();
            &&& g.len() == 11
            &&& g[0].len() == p + n + suffix.len()
            &&& g[r].len() == p + n + suffix.len()
            &&& 0 <= k < p ==> g[0][k] == prefix[k] && g[r][k] == 0
            &&& 0 <= k < n ==> g[0][p + k] == codes[0][k] + 151678 && g[r][p + k] == codes[r - 1][k]
            &&& 0 <= k < suffix.len() ==> g[0][p + n + k] == suffix[k] && g[r][p + n + k] == 0
        }),
{
    assert(codes[r - 1].len() == codes[0].len());
    if 0 <= k < codes[0].len() {
        assert(codes[0][k] + 151678 <= u32::MAX);
    }
}

/// A prompt without a reference holds its text: the ids in the first row, zeros in the others.
pub proof fn a_prompt_without_a_reference_is_text(
    prefix: Seq<u32>,
    suffix: Seq<u32>,
    k: int,
    r: int,
)
    requires
        0 < r <= 10,
    ensures
        ({
            let g = prompt::prompt_grid(prefix, None, suffix);
            let p = prefix.len();
            &&& g.len() == 11
            &&& g[0].len() == p + suffix.len()
            &&& g[r].len() == p + suffix.len()
            &&& 0 <= k < p ==> g[0][k] == prefix[k] && g[r][k] == 0
            &&& 0 <= k < suffix.len() ==> g[0][p + k] == suffix[k] && g[r][p + k] == 0
        }),
{
}

/// A text names its speaker where it holds `<|speaker:`, one or more digits and `|>`, with anything
/// around them.
pub proof fn a_speaker_tag_counts_anywhere(a: Seq<char>, d: Seq<char>, b: Seq<char>)
    requires
        d.len() > 0,
        forall|i: int| 0 <= i < d.len() ==> '0' <= #[trigger] d[i] <= '9',
    ensures
        prompt::tagged(
            a + seq!['<', '|', 's', 'p', 'e', 'a', 'k', 'e', 'r', ':'] + d + seq!['|', '>'] + b,
        ),
{
    let head = seq!['<', '|', 's', 'p', 'e', 'a', 'k', 'e', 'r', ':'];
    let v = a + head + d + seq!['|', '>'] + b;
    reveal_strlit("<|speaker:");
    reveal_strlit("|>");
    assert("<|speaker:"@ =~= head);
    assert("|>"@ =~= seq!['|', '>']);
    let i = a.len() as int;
    let n = d.len() as int;
    assert(v.subrange(i, i + 10) =~= head);
    assert(v.subrange(i + 10, i + 10 + n) =~= d);
    assert(v.subrange(i + 10 + n, i + 10 + n + 2) =~= seq!['|', '>']);
    assert(prompt::tag_at(v, i, n));
}

/// A text that names a speaker holds `<|speaker:`, a digit right behind it, and further digits up
/// to `|>`.
pub proof fn a_tagged_text_holds_a_speaker_tag(v: Seq<char>) -> (r: (int, int))
    requires
        prompt::tagged(v),
    ensures
        ({
            let (i, j) = r;
            &&& 0 <= i && i + 10 < j && j + 2 <= v.len()
            &&& v.subrange(i, i + 10) == seq!['<', '|', 's', 'p', 'e', 'a', 'k', 'e', 'r', ':']
            &&& forall|k: int| i + 10 <= k < j ==> '0' <= #[trigger] v[k] <= '9'
            &&& v[j] == '|' && v[j + 1] == '>'
        }),
{
    let head = seq!['<', '|', 's', 'p', 'e', 'a', 'k', 'e', 'r', ':'];
    reveal_strlit("<|speaker:");
    reveal_strlit("|>");
    assert("<|speaker:"@ =~= head);
    let (i, n) = choose|i: int, n: int| #[trigger] prompt::tag_at(v, i, n);
    let j = i + 10 + n;
    assert(v.subrange(j, j + 2)[0] == v[j] && v.subrange(j, j + 2)[1] == v[j + 1]);
    assert forall|k: int| i + 10 <= k < j implies '0' <= #[trigger] v[k] <= '9' by {
        assert(v.subrange(i + 10, j)[k - i - 10] == v[k]);
    }
    (i, j)
}

/// A transcript is cleaned, and speaks as speaker zero unless it names a speaker itself.
pub proof fn a_transcript_has_a_speaker(t: Seq<char>)
    ensures
        prompt::tagged(prompt::cleaned(t)) ==> prompt::reference_text(t) == prompt::cleaned(t),
        !prompt::tagged(prompt::cleaned(t)) ==> prompt::reference_text(t) == seq![
            '<',
            '|',
            's',
            'p',
            'e',
            'a',
            'k',
            'e',
            'r',
            ':',
            '0',
            '|',
            '>',
        ] + prompt::cleaned(t),
{
    reveal_strlit("<|speaker:0|>");
    assert("<|speaker:0|>"@ =~= seq![
        '<',
        '|',
        's',
        'p',
        'e',
        'a',
        'k',
        'e',
        'r',
        ':',
        '0',
        '|',
        '>',
    ]);
}

/// Cleaning keeps the words and puts one space between neighbours.
pub proof fn cleaning_spaces_the_words(t: Seq<char>)
    ensures
        text::words(prompt::cleaned(t)) == text::words(t),
        segment_laws::one_space_at_a_time(prompt::cleaned(t)),
        prompt::cleaned(t).len() > 0 ==> !chars::white_space(prompt::cleaned(t).last()),
{
    text_laws::cleaning_keeps_the_words(t);
    segment_laws::cleaned_words_are_evenly_spaced(t);
}

/// A prompt says what is to be spoken: without a voice all of it stands in front, with one the
/// transcript stands before the reference and the text behind it.
pub proof fn a_prompt_says_what_is_to_be_spoken(t: Seq<char>, said: Seq<char>)
    ensures
        grid::flat_rows(prompt::front_turns(t, None))
            == "<|im_start|>system\nconvert the provided text to speech<|im_end|>\n<|im_start|>user\n"@
            + prompt::cleaned(t) + "<|im_end|>\n<|im_start|>assistant\n<|voice|>"@,
        prompt::back_turns(t, None).len() == 0,
        grid::flat_rows(prompt::front_turns(t, Some(said)))
            == "<|im_start|>system\nconvert the provided text to speech reference to the following:\n\nText:\n"@
            + prompt::reference_text(said) + "\n\nSpeech:\n"@,
        grid::flat_rows(prompt::back_turns(t, Some(said))) == "<|im_end|>\n<|im_start|>user\n"@
            + prompt::cleaned(t) + "<|im_end|>\n<|im_start|>assistant\n<|voice|>"@,
{
    a_plain_prompt_reads_as_trained(prompt::cleaned(t));
    a_cloning_prompt_reads_as_trained(prompt::cleaned(t), prompt::reference_text(said));
}

/// There is something to speak where the text has a word, and with a voice its transcript too.
pub proof fn speech_needs_words(t: Seq<char>, said: Seq<char>)
    ensures
        prompt::speakable(t, None) <==> text::words(t).len() > 0,
        prompt::speakable(t, Some(said)) <==> text::words(t).len() > 0 && text::words(said).len()
            > 0,
{
    lemma_has_words(t);
    lemma_has_words(said);
}

proof fn lemma_has_words(t: Seq<char>)
    ensures
        prompt::cleaned(t).len() > 0 <==> text::words(t).len() > 0,
{
    cleaning_spaces_the_words(t);
    text_laws::lemma_words(t);
    let ws = text::words(t);
    if prompt::cleaned(t).len() == 0 {
        assert(prompt::cleaned(t) =~= Seq::<char>::empty());
        assert(text::words(Seq::empty()).len() == 0);
    }
    if ws.len() == 0 {
        assert(prompt::cleaned(t).len() == 0);
    }
}

/// The ids of the turns lie end to end, each turn's as the tokenizer gives them, and a turn without
/// text has none.
pub proof fn the_ids_of_turns_lie_end_to_end(t: Tokenizer, parts: Seq<Seq<char>>) -> (from: Seq<int>)
    ensures
        from.len() == parts.len() + 1,
        from[0] == 0,
        from.last() == prompt::joined_ids(t, parts).len(),
        forall|k: int|
            0 <= k < parts.len() ==> #[trigger] grid::lies_between(
                prompt::joined_ids(t, parts),
                prompt::ids_of(t, parts[k]),
                from[k],
                from[k + 1],
            ),
        forall|k: int|
            0 <= k < parts.len() ==> (#[trigger] parts[k].len() == 0 ==> prompt::ids_of(
                t,
                parts[k],
            ).len() == 0),
        forall|k: int|
            0 <= k < parts.len() ==> (#[trigger] parts[k].len() > 0 ==> prompt::ids_of(t, parts[k])
                == tokens::encoding(t, parts[k], false)->0),
{
    let ids = prompt::ids_of_each(t, parts);
    let from = grid::rows_lie_end_to_end(ids);
    assert forall|k: int| 0 <= k < parts.len() implies #[trigger] grid::lies_between(
        prompt::joined_ids(t, parts),
        prompt::ids_of(t, parts[k]),
        from[k],
        from[k + 1],
    ) by {
        assert(grid::lies_between(grid::flat_rows(ids), ids[k], from[k], from[k + 1]));
    }
    from
}

/// A prompt is put together where it is shorter than 2048 positions and the rows of the reference
/// are equally long.
pub proof fn a_prompt_fits_or_says_why(
    r: Result<Prompt, PromptError>,
    prefix: Seq<u32>,
    codes: Seq<Seq<u32>>,
    suffix: Seq<u32>,
)
    requires
        prompt::assembled(r, prefix, Some(codes), suffix),
        codes.len() == 10,
    ensures
        ({
            let n = prefix.len() + codes[0].len() + suffix.len();
            let even = forall|i: int| 0 <= i < 10 ==> (#[trigger] codes[i]).len() == codes[0].len();
            &&& r is Ok <==> n < 2048 && even
            &&& n >= 2048 <==> (r is Err && r->Err_0 is TooLong)
            &&& r matches Err(PromptError::Ragged { row }) ==> codes[row as int].len()
                != codes[0].len()
            &&& r matches Ok(p) ==> p.len == n && grid::rows_view(p.rows@) == prompt::prompt_grid(
                prefix,
                Some(codes),
                suffix,
            )
        }),
{
}

/// Whatever a tokenizer gives for the turns lies end to end: each stretch is what it may give for its
/// own turn, and empty for a turn without text.
pub proof fn what_is_given_lies_end_to_end(t: Tokenizer, parts: Seq<Seq<char>>, all: Seq<u32>) -> (r:
    (Seq<Seq<u32>>, Seq<int>))
    requires
        prompt::may_join(t, parts, all),
    ensures
        ({
            let (ids, from) = r;
            &&& ids.len() == parts.len()
            &&& from.len() == parts.len() + 1
            &&& from[0] == 0
            &&& from.last() == all.len()
            &&& forall|k: int|
                0 <= k < parts.len() ==> #[trigger] grid::lies_between(
                    all,
                    ids[k],
                    from[k],
                    from[k + 1],
                )
            &&& forall|k: int|
                0 <= k < parts.len() ==> if parts[k].len() == 0 {
                    (#[trigger] ids[k]).len() == 0
                } else {
                    tokens::may_encode(t, parts[k], false, Some(ids[k]))
                }
        }),
{
    let ids = choose|ids: Seq<Seq<u32>>|
        prompt::may_give_each(t, parts, ids) && all == #[trigger] grid::flat_rows(ids);
    let from = grid::rows_lie_end_to_end(ids);
    assert forall|k: int| 0 <= k < parts.len() implies if parts[k].len() == 0 {
        (#[trigger] ids[k]).len() == 0
    } else {
        tokens::may_encode(t, parts[k], false, Some(ids[k]))
    } by {
        assert(prompt::may_give(t, parts[k], ids[k]));
    }
    (ids, from)
}

/// References show their codes and their transcript as they are.
pub proof fn references_show_what_they_hold(codes: &Vec<Vec<u32>>, said: &str, i: int)
    requires
        0 <= i < codes@.len(),
    ensures
        prompt::codes_view(Some(codes)) matches Some(c) && c.len() == codes@.len() && c[i]
            == codes@[i]@,
        prompt::reference_view(Some((codes, said))) matches Some(c) && c.len() == codes@.len() && c[i]
            == codes@[i]@,
        prompt::said_view(Some((codes, said))) == Some(said@),
        prompt::codes_view(None) is None,
        prompt::reference_view(None) is None,
        prompt::said_view(None) is None,
{
}

} // verus!
