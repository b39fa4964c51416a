//! Holding a checkpoint against the configuration, from its header alone.

use crate::chars::{begins_with, ends_with, to_chars};
use crate::number;
use crate::number::write_usize;
use crate::quant::QuantError;
use crate::text::same;
use vstd::prelude::*;

verus! {

/// A tensor as the header lists it.
pub struct Entry {
    pub name: String,
    pub shape: Vec<usize>,
}

/// The name of the header's own entry, which is no tensor.
pub const METADATA: &'static str = "__metadata__";

/// The number that eight bytes write, the least significant first.
pub open spec fn little_endian(b: Seq<u8>) -> nat
    decreases b.len(),
{
    if b.len() == 0 {
        0
    } else {
        b[0] as nat + 256 * little_endian(b.drop_first())
    }
}

/// The length of the header in bytes, from the first eight of the file.
pub fn header_len(b: &[u8; 8]) -> (n: u64)
    ensures
        n == little_endian(b@),
{
    let mut n: u64 = 0;
    let mut i: usize = 8;
    let ghost mut room: int = 1;
    assert(b@.skip(8) =~= Seq::<u8>::empty());
    while i > 0
        invariant
            i <= 8,
            b@.len() == 8,
            n == little_endian(b@.skip(i as int)),
            n < room,
            room == power(8 - i),
        decreases i,
    {
        i -= 1;
        assert(b@.skip(i as int).drop_first() =~= b@.skip(i + 1));
        proof {
            lemma_power(7 - i);
            reveal_with_fuel(power, 2);
        }
        n = n * 256 + b[i] as u64;
        proof {
            room = room * 256;
        }
    }
    assert(b@.skip(0) =~= b@);
    n
}

/// 256 to the power of `n`.
spec fn power(n: int) -> int
    decreases n,
{
    if n <= 0 {
        1
    } else {
        256 * power(n - 1)
    }
}

proof fn lemma_power(n: int)
    requires
        0 <= n <= 7,
    ensures
        1 <= power(n) <= 0x100_0000_0000_0000,
{
    reveal_with_fuel(power, 8);
}

/// Is an entry of the header a tensor?
pub fn is_tensor(name: &str) -> (r: bool)
    ensures
        r == (name@ != METADATA@),
{
    !same(name, METADATA)
}

/// The header has a tensor of that name.
pub open spec fn lists(entries: Seq<Entry>, name: Seq<char>) -> bool {
    exists|i: int| 0 <= i < entries.len() && (#[trigger] entries[i]).name@ == name
}

/// The `i`-th tensor is the first of that name.
pub open spec fn stands_at(entries: Seq<Entry>, name: Seq<char>, i: int) -> bool {
    &&& 0 <= i < entries.len()
    &&& entries[i].name@ == name
    &&& forall|j: int| 0 <= j < i ==> (#[trigger] entries[j]).name@ != name
}

/// Where a name stands first in the header.
pub fn find(entries: &Vec<Entry>, name: &str) -> (r: Option<usize>)
    ensures
        match r {
            Some(i) => stands_at(entries@, name@, i as int),
            None => !lists(entries@, name@),
        },
{
    let mut i: usize = 0;
    while i < entries.len()
        invariant
            i <= entries@.len(),
            forall|j: int| 0 <= j < i ==> (#[trigger] entries@[j]).name@ != name@,
        decreases entries@.len() - i,
    {
        if same(entries[i].name.as_str(), name) {
            return Some(i);
        }
        i += 1;
    }
    None
}

/// A shape meets what is wanted: as many dimensions, and each that is fixed has that size.
pub open spec fn fits(got: Seq<usize>, want: Seq<Option<usize>>) -> bool {
    &&& got.len() == want.len()
    &&& forall|i: int|
        0 <= i < want.len() ==> ((#[trigger] want[i]) matches Some(n) ==> got[i] == n)
}

/// What a header says of a tensor that should have a shape.
pub open spec fn shape_row(entries: Seq<Entry>, name: Seq<char>, want: Seq<Option<usize>>) -> Row {
    if !lists(entries, name) {
        Row::Missing
    } else if fits(entries[first_place(entries, name)].shape@, want) {
        Row::Good
    } else {
        Row::Wrong
    }
}

/// Where a name that the header has stands first.
pub open spec fn first_place(entries: Seq<Entry>, name: Seq<char>) -> int {
    choose|i: int| #[trigger] stands_at(entries, name, i)
}

/// Does a shape meet what is wanted?
pub fn shape_fits(got: &Vec<usize>, want: &Vec<Option<usize>>) -> (r: bool)
    ensures
        r == fits(got@, want@),
{
    if got.len() != want.len() {
        return false;
    }
    let mut i: usize = 0;
    while i < want.len()
        invariant
            i <= want@.len() == got@.len(),
            forall|j: int| 0 <= j < i ==> ((#[trigger] want@[j]) matches Some(n) ==> got@[j] == n),
        decreases want@.len() - i,
    {
        if let Some(n) = want[i] {
            if got[i] != n {
                return false;
            }
        }
        i += 1;
    }
    true
}

/// The outcome of one row.
#[derive(Clone, Copy, PartialEq, Eq, Structural, Debug)]
pub enum Row {
    Good,
    /// No tensor of that name.
    Missing,
    /// Another shape, or a claim that does not hold.
    Wrong,
    /// A tensor that must not be there.
    Present,
}

/// A tally of checks.
#[derive(Clone, Copy, PartialEq, Eq, Structural, Debug)]
pub struct Report {
    pub rows: usize,
    pub failures: usize,
}

impl Report {
    /// There are at most as many failures as rows.
    pub open spec fn wf(self) -> bool {
        self.failures <= self.rows
    }

    /// This report with one more row.
    pub open spec fn counted(self, good: bool) -> Report {
        Report {
            rows: (self.rows + 1) as usize,
            failures: if good {
                self.failures
            } else {
                (self.failures + 1) as usize
            },
        }
    }

    /// An empty report.
    pub fn new() -> (r: Self)
        ensures
            r == (Report { rows: 0, failures: 0 }),
            r.wf(),
    {
        Report { rows: 0, failures: 0 }
    }

    /// A fact about the checkpoint that is not one tensor's shape.
    pub fn claim(&mut self, ok: bool)
        requires
            old(self).wf(),
            old(self).rows < usize::MAX,
        ensures
            *final(self) == old(self).counted(ok),
            final(self).wf(),
    {
        self.rows += 1;
        if !ok {
            self.failures += 1;
        }
    }

    /// A tensor of a given shape; a free dimension may have any size.
    pub fn shape(&mut self, entries: &Vec<Entry>, name: &str, want: &Vec<Option<usize>>) -> (row: Row)
        requires
            old(self).wf(),
            old(self).rows < usize::MAX,
        ensures
            *final(self) == old(self).counted(row == Row::Good),
            final(self).wf(),
            row == shape_row(entries@, name@, want@),
    {
        match find(entries, name) {
            None => {
                self.claim(false);
                Row::Missing
            },
            Some(i) => {
                let ok = shape_fits(&entries[i].shape, want);
                assert(entries@[i as int].name@ == name@);
                self.claim(ok);
                if ok {
                    Row::Good
                } else {
                    Row::Wrong
                }
            },
        }
    }

    /// A tensor that must not be there.
    pub fn absent(&mut self, entries: &Vec<Entry>, name: &str) -> (row: Row)
        requires
            old(self).wf(),
            old(self).rows < usize::MAX,
        ensures
            *final(self) == old(self).counted(row == Row::Good),
            final(self).wf(),
            row == if lists(entries@, name@) {
                Row::Present
            } else {
                Row::Good
            },
    {
        match find(entries, name) {
            None => {
                self.claim(true);
                Row::Good
            },
            Some(i) => {
                assert(entries@[i as int].name@ == name@);
                self.claim(false);
                Row::Present
            },
        }
    }

    /// Two lists of token ids, which have to be the same. Says how many places agree.
    pub fn ints(&mut self, got: &Vec<u32>, want: &Vec<u32>) -> (agree: usize)
        requires
            old(self).wf(),
            old(self).rows < usize::MAX,
        ensures
            *final(self) == old(self).counted(got@ == want@),
            final(self).wf(),
            agree == agreeing(got@, want@, if got@.len() < want@.len() {
                got@.len() as int
            } else {
                want@.len() as int
            }),
    {
        let n: usize = if got.len() < want.len() {
            got.len()
        } else {
            want.len()
        };
        let mut agree: usize = 0;
        let mut i: usize = 0;
        assert(got@.take(0) =~= want@.take(0));
        while i < n
            invariant
                i <= n,
                n <= got@.len(),
                n <= want@.len(),
                agree <= i,
                agree == agreeing(got@, want@, i as int),
                (agree == i) == (got@.take(i as int) == want@.take(i as int)),
            decreases n - i,
        {
            assert(got@.take(i + 1) =~= got@.take(i as int).push(got@[i as int]));
            assert(want@.take(i + 1) =~= want@.take(i as int).push(want@[i as int]));
            assert(got@.take(i + 1).drop_last() =~= got@.take(i as int));
            assert(want@.take(i + 1).drop_last() =~= want@.take(i as int));
            assert(got@.take(i + 1).last() == got@[i as int]);
            assert(want@.take(i + 1).last() == want@[i as int]);
            if got[i] == want[i] {
                agree += 1;
            }
            i += 1;
        }
        let ok = got.len() == want.len() && agree == want.len();
        proof {
            if got@.len() == want@.len() {
                assert(got@.take(n as int) =~= got@);
                assert(want@.take(n as int) =~= want@);
            }
        }
        self.claim(ok);
        agree
    }

    /// Did every row pass?
    pub fn passed(&self) -> (r: bool)
        ensures
            r == (self.failures == 0),
    {
        self.failures == 0
    }
}

/// How many of the first `n` places agree.
pub open spec fn agreeing(a: Seq<u32>, b: Seq<u32>, n: int) -> int
    decreases n,
{
    if n <= 0 {
        0
    } else {
        agreeing(a, b, n - 1) + if a[n - 1] == b[n - 1] {
            1int
        } else {
            0int
        }
    }
}

/// A tensor that a checkpoint should have in some shape, or should not have.
pub struct Check {
    pub name: &'static str,
    /// The sizes, a free one where any will do; nothing where the tensor must be absent.
    pub want: Option<Vec<Option<usize>>>,
}

/// What a [`Check`] says.
pub struct Wanted {
    pub name: Seq<char>,
    pub shape: Option<Seq<Option<usize>>>,
}

impl View for Check {
    type V = Wanted;

    open spec fn view(&self) -> Wanted {
        Wanted {
            name: self.name@,
            shape: match self.want {
                Some(v) => Some(v@),
                None => None,
            },
        }
    }
}

/// A tensor of one fixed size.
pub open spec fn one(name: Seq<char>, a: usize) -> Wanted {
    Wanted { name, shape: Some(seq![Some(a)]) }
}

/// A tensor of two fixed sizes.
pub open spec fn two(name: Seq<char>, a: usize, b: usize) -> Wanted {
    Wanted { name, shape: Some(seq![Some(a), Some(b)]) }
}

/// A tensor of three sizes.
pub open spec fn three(name: Seq<char>, a: Option<usize>, b: Option<usize>, c: Option<usize>) -> Wanted {
    Wanted { name, shape: Some(seq![a, b, c]) }
}

/// A tensor that must be absent.
pub open spec fn gone(name: Seq<char>) -> Wanted {
    Wanted { name, shape: None }
}

/// What some checks say.
pub open spec fn wanted(checks: Seq<Check>) -> Seq<Wanted> {
    Seq::new(checks.len(), |i: int| checks[i]@)
}

fn add_check(checks: &mut Vec<Check>, c: Check)
    ensures
        wanted(final(checks)@) == wanted(old(checks)@).push(c@),
{
    checks.push(c);
    assert(wanted(checks@) =~= wanted(old(checks)@).push(c@));
}

/// Adds a tensor of one fixed size.
pub fn add_one(checks: &mut Vec<Check>, name: &'static str, a: usize)
    ensures
        wanted(final(checks)@) == wanted(old(checks)@).push(one(name@, a)),
{
    let mut v: Vec<Option<usize>> = Vec::new();
    v.push(Some(a));
    assert(v@ =~= seq![Some(a)]);
    add_check(checks, Check { name, want: Some(v) });
}

/// Adds a tensor of two fixed sizes.
pub fn add_two(checks: &mut Vec<Check>, name: &'static str, a: usize, b: usize)
    ensures
        wanted(final(checks)@) == wanted(old(checks)@).push(two(name@, a, b)),
{
    let mut v: Vec<Option<usize>> = Vec::new();
    v.push(Some(a));
    v.push(Some(b));
    assert(v@ =~= seq![Some(a), Some(b)]);
    add_check(checks, Check { name, want: Some(v) });
}

/// Adds a tensor of three sizes.
pub fn add_three(
    checks: &mut Vec<Check>,
    name: &'static str,
    a: Option<usize>,
    b: Option<usize>,
    c: Option<usize>,
)
    ensures
        wanted(final(checks)@) == wanted(old(checks)@).push(three(name@, a, b, c)),
{
    let mut v: Vec<Option<usize>> = Vec::new();
    v.push(a);
    v.push(b);
    v.push(c);
    assert(v@ =~= seq![a, b, c]);
    add_check(checks, Check { name, want: Some(v) });
}

/// Adds a tensor that must be absent.
pub fn add_gone(checks: &mut Vec<Check>, name: &'static str)
    ensures
        wanted(final(checks)@) == wanted(old(checks)@).push(gone(name@)),
{
    add_check(checks, Check { name, want: None });
}

/// What a header says of one check.
pub open spec fn row_for(entries: Seq<Entry>, w: Wanted) -> Row {
    match w.shape {
        Some(want) => shape_row(entries, w.name, want),
        None => if lists(entries, w.name) {
            Row::Present
        } else {
            Row::Good
        },
    }
}

/// What a header says of some checks.
pub open spec fn rows_for(entries: Seq<Entry>, w: Seq<Wanted>) -> Seq<Row> {
    Seq::new(w.len(), |i: int| row_for(entries, w[i]))
}

/// How many rows are not good.
pub open spec fn bad(rows: Seq<Row>) -> nat
    decreases rows.len(),
{
    if rows.len() == 0 {
        0
    } else {
        bad(rows.drop_last()) + if rows.last() == Row::Good {
            0nat
        } else {
            1
        }
    }
}

/// A statement about a checkpoint, and whether it holds.
#[derive(Clone, Copy, Debug)]
pub struct Claim {
    pub name: &'static str,
    pub ok: bool,
}

/// What some claims say.
pub open spec fn claimed(claims: Seq<Claim>) -> Seq<(Seq<char>, bool)> {
    Seq::new(claims.len(), |i: int| (claims[i].name@, claims[i].ok))
}

/// Adds a claim.
pub fn add_claim(claims: &mut Vec<Claim>, name: &'static str, ok: bool)
    ensures
        claimed(final(claims)@) == claimed(old(claims)@).push((name@, ok)),
{
    claims.push(Claim { name, ok });
    assert(claimed(claims@) =~= claimed(old(claims)@).push((name@, ok)));
}

/// How many claims do not hold.
pub open spec fn broken(claims: Seq<(Seq<char>, bool)>) -> nat
    decreases claims.len(),
{
    if claims.len() == 0 {
        0
    } else {
        broken(claims.drop_last()) + if claims.last().1 {
            0nat
        } else {
            1
        }
    }
}

impl Report {
    /// Holds a header against some checks, one row each.
    pub fn check_all(&mut self, entries: &Vec<Entry>, checks: &Vec<Check>) -> (rows: Vec<Row>)
        requires
            old(self).wf(),
            old(self).rows + checks@.len() <= usize::MAX,
        ensures
            rows@ == rows_for(entries@, wanted(checks@)),
            final(self).rows == old(self).rows + checks@.len(),
            final(self).failures == old(self).failures + bad(rows@),
            final(self).wf(),
    {
        let mut rows: Vec<Row> = Vec::new();
        let ghost all = rows_for(entries@, wanted(checks@));
        let mut i: usize = 0;
        while i < checks.len()
            invariant
                i <= checks@.len(),
                all == rows_for(entries@, wanted(checks@)),
                rows@ == all.take(i as int),
                self.wf(),
                self.rows == old(self).rows + i,
                old(self).rows + checks@.len() <= usize::MAX,
                self.failures == old(self).failures + bad(rows@),
            decreases checks@.len() - i,
        {
            let c = &checks[i];
            assert(wanted(checks@)[i as int] == c@);
            let row = match &c.want {
                Some(want) => self.shape(entries, c.name, want),
                None => self.absent(entries, c.name),
            };
            let ghost done = rows@;
            rows.push(row);
            assert(rows@.drop_last() =~= done);
            assert(rows@ =~= all.take(i + 1));
            i += 1;
        }
        assert(rows@ =~= all);
        rows
    }

    /// Counts some claims, one row each.
    pub fn claim_all(&mut self, claims: &Vec<Claim>)
        requires
            old(self).wf(),
            old(self).rows + claims@.len() <= usize::MAX,
        ensures
            final(self).rows == old(self).rows + claims@.len(),
            final(self).failures == old(self).failures + broken(claimed(claims@)),
            final(self).wf(),
    {
        let ghost all = claimed(claims@);
        let mut i: usize = 0;
        assert(all.take(0) =~= Seq::empty());
        while i < claims.len()
            invariant
                i <= claims@.len(),
                all == claimed(claims@),
                self.wf(),
                self.rows == old(self).rows + i,
                old(self).rows + claims@.len() <= usize::MAX,
                self.failures == old(self).failures + broken(all.take(i as int)),
            decreases claims@.len() - i,
        {
            assert(all.take(i + 1).drop_last() =~= all.take(i as int));
            self.claim(claims[i].ok);
            i += 1;
        }
        assert(all.take(i as int) =~= all);
    }
}

/// A text holds another somewhere.
pub open spec fn mentions(text: Seq<char>, part: Seq<char>) -> bool {
    exists|k: int| #[trigger] mentions_at(text, part, k)
}

/// A text holds another at position `k`.
pub open spec fn mentions_at(text: Seq<char>, part: Seq<char>, k: int) -> bool {
    0 <= k && k + part.len() <= text.len() && text.subrange(k, k + part.len()) == part
}

/// Does a text hold another?
pub fn contains_text(text: &str, part: &str) -> (r: bool)
    ensures
        r == mentions(text@, part@),
{
    let t = to_chars(text);
    let p = to_chars(part);
    if p.len() > t.len() {
        return false;
    }
    let n: usize = t.len();
    let last: usize = n - p.len();
    let mut k: usize = 0;
    loop
        invariant
            k <= last,
            last + p@.len() == t@.len() == n,
            t@ == text@,
            p@ == part@,
            forall|j: int| 0 <= j < k ==> !#[trigger] mentions_at(text@, part@, j),
        decreases last - k,
    {
        let mut i: usize = 0;
        while i < p.len() && t[k + i] == p[i]
            invariant
                i <= p@.len(),
                k <= last,
                last + p@.len() == t@.len() == n,
                forall|j: int| 0 <= j < i ==> #[trigger] p@[j] == t@[k + j],
            decreases p@.len() - i,
        {
            i += 1;
        }
        if i == p.len() {
            assert(t@.subrange(k as int, k + p@.len()) =~= p@);
            assert(mentions_at(text@, part@, k as int));
            return true;
        }
        assert(!mentions_at(text@, part@, k as int)) by {
            if mentions_at(text@, part@, k as int) {
                assert(t@.subrange(k as int, k + p@.len())[i as int] == t@[k + i]);
            }
        }
        if k == last {
            return false;
        }
        k += 1;
    }
}

/// The name of the `i`-th of some tensors that are numbered.
pub open spec fn numbered_name(before: Seq<char>, i: nat, after: Seq<char>) -> Seq<char> {
    before + number::written(i) + after
}

fn name_of_number(before: &str, i: usize, after: &str) -> (s: String)
    ensures
        s@ == numbered_name(before@, i as nat, after@),
{
    let n = write_usize(i);
    let mut s = String::new();
    s.append(before);
    s.append(n.as_str());
    s.append(after);
    assert(s@ =~= numbered_name(before@, i as nat, after@));
    s
}

proof fn lemma_numbered_names_differ(before: Seq<char>, after: Seq<char>, i: nat, j: nat)
    requires
        numbered_name(before, i, after) == numbered_name(before, j, after),
    ensures
        i == j,
{
    let a = numbered_name(before, i, after);
    let from = before.len();
    number::writing_and_reading_agree(i);
    number::writing_and_reading_agree(j);
    let wi = number::written(i);
    let wj = number::written(j);
    assert(a.len() == from + wi.len() + after.len());
    assert(numbered_name(before, j, after).len() == from + wj.len() + after.len());
    assert(a.subrange(from as int, (from + wi.len()) as int) =~= wi);
    assert(numbered_name(before, j, after).subrange(from as int, (from + wj.len()) as int) =~= wj);
}

/// The header has exactly the first `n` of some numbered tensors, counting up from 0 to the first
/// that is missing.
pub open spec fn counts_to(
    entries: Seq<Entry>,
    before: Seq<char>,
    after: Seq<char>,
    n: nat,
) -> bool {
    &&& forall|i: nat| i < n ==> lists(entries, #[trigger] numbered_name(before, i, after))
    &&& !lists(entries, numbered_name(before, n, after))
}

/// How many tensors `{before}{i}{after}` there are, counting up from 0 to the first that is
/// missing.
pub fn count_numbered(entries: &Vec<Entry>, before: &str, after: &str) -> (n: usize)
    ensures
        counts_to(entries@, before@, after@, n as nat),
{
    let mut n: usize = 0;
    while n < entries.len()
        invariant
            n <= entries@.len(),
            forall|i: nat|
                i < n ==> lists(entries@, #[trigger] numbered_name(before@, i, after@)),
        decreases entries@.len() - n,
    {
        let name = name_of_number(before, n, after);
        match find(entries, name.as_str()) {
            None => {
                return n;
            },
            Some(i) => {
                assert(entries@[i as int].name@ == numbered_name(before@, n as nat, after@));
            },
        }
        n += 1;
    }
    proof {
        lemma_a_number_is_missing(entries@, before@, after@);
    }
    n
}

/// Some place of a name in the header.
spec fn place_of(entries: Seq<Entry>, name: Seq<char>) -> int {
    choose|k: int| 0 <= k < entries.len() && (#[trigger] entries[k]).name@ == name
}

/// A header of `n` tensors does not hold each of `n + 1` numbered ones.
proof fn lemma_a_number_is_missing(entries: Seq<Entry>, before: Seq<char>, after: Seq<char>)
    ensures
        exists|i: nat|
            i <= entries.len() && !lists(entries, #[trigger] numbered_name(before, i, after)),
{
    if forall|i: nat|
        i <= entries.len() ==> lists(entries, #[trigger] numbered_name(before, i, after)) {
        let n = entries.len() as int;
        let place = |i: int| place_of(entries, numbered_name(before, i as nat, after));
        let all = vstd::set_lib::set_int_range(0, n + 1);
        let places = all.map(place);
        assert forall|i: int| 0 <= i <= n implies 0 <= #[trigger] place(i) < n && entries[place(
            i,
        )].name@ == numbered_name(before, i as nat, after) by {
            assert(lists(entries, numbered_name(before, i as nat, after)));
        }
        assert(vstd::relations::injective_on(place, all)) by {
            assert forall|i: int, j: int|
                all.contains(i) && all.contains(j) && #[trigger] place(i) == #[trigger] place(
                    j,
                ) implies i == j by {
                lemma_numbered_names_differ(before, after, i as nat, j as nat);
            }
        }
        vstd::set_lib::lemma_int_range(0, n + 1);
        vstd::set_lib::lemma_int_range(0, n);
        vstd::set_lib::lemma_map_size(all, places, place);
        assert(places.subset_of(vstd::set_lib::set_int_range(0, n)));
        vstd::set_lib::lemma_len_subset(places, vstd::set_lib::set_int_range(0, n));
    }
}

/// The number of a count is one: a header cannot count to two numbers.
pub proof fn counts_are_exact(
    entries: Seq<Entry>,
    before: Seq<char>,
    after: Seq<char>,
    m: nat,
    n: nat,
)
    requires
        counts_to(entries, before, after, m),
        counts_to(entries, before, after, n),
    ensures
        m == n,
{
    if m < n {
        assert(lists(entries, numbered_name(before, m, after)));
    } else if n < m {
        assert(lists(entries, numbered_name(before, n, after)));
    }
}

/// The name of a tensor of layer `i`.
pub open spec fn layer_name(prefix: Seq<char>, i: nat, suffix: Seq<char>) -> Seq<char> {
    prefix + "layers."@ + number::written(i) + "."@ + suffix
}

/// How many layers there are, counting up from 0: the tensors `{prefix}layers.{i}.{suffix}` up to
/// the first that is missing.
pub fn count_layers(entries: &Vec<Entry>, prefix: &str, suffix: &str) -> (n: usize)
    ensures
        forall|i: nat| i < n ==> lists(entries@, #[trigger] layer_name(prefix@, i, suffix@)),
        !lists(entries@, layer_name(prefix@, n as nat, suffix@)),
        counts_to(entries@, prefix@ + "layers."@, "."@ + suffix@, n as nat),
{
    let mut before = String::new();
    before.append(prefix);
    before.append("layers.");
    let mut after = String::new();
    after.append(".");
    after.append(suffix);
    assert(before@ =~= prefix@ + "layers."@);
    assert(after@ =~= "."@ + suffix@);
    assert forall|i: nat| #[trigger] layer_name(prefix@, i, suffix@) == numbered_name(
        before@,
        i,
        after@,
    ) by {
        assert(layer_name(prefix@, i, suffix@) =~= numbered_name(before@, i, after@));
    }
    count_numbered(entries, before.as_str(), after.as_str())
}

/// A transformer projection weight, the only kind that is quantized.
pub open spec fn projection(name: Seq<char>) -> bool {
    &&& "layers."@.is_prefix_of(name) || "fast_layers."@.is_prefix_of(name)
    &&& {
        ||| "attention.wqkv.weight"@.is_suffix_of(name)
        ||| "attention.wo.weight"@.is_suffix_of(name)
        ||| "feed_forward.w1.weight"@.is_suffix_of(name)
        ||| "feed_forward.w2.weight"@.is_suffix_of(name)
        ||| "feed_forward.w3.weight"@.is_suffix_of(name)
    }
}

/// Is this a transformer projection weight? Embeddings, heads and norms are left alone.
pub fn is_projection(name: &str) -> (r: bool)
    ensures
        r == projection(name@),
{
    let layer = begins_with(name, "layers.") || begins_with(name, "fast_layers.");
    let proj = ends_with(name, "attention.wqkv.weight") || ends_with(name, "attention.wo.weight")
        || ends_with(name, "feed_forward.w1.weight") || ends_with(name, "feed_forward.w2.weight")
        || ends_with(name, "feed_forward.w3.weight");
    layer && proj
}

/// A block format that a round trip may use.
#[derive(Clone, Copy, PartialEq, Eq, Structural, Debug)]
pub enum Block {
    Q4_0,
    Q4_1,
    Q5_0,
    Q5_1,
    Q8_0,
}

/// The block format of a name.
pub open spec fn block_named(s: Seq<char>) -> Option<Block> {
    if s == "q4_0"@ {
        Some(Block::Q4_0)
    } else if s == "q4_1"@ {
        Some(Block::Q4_1)
    } else if s == "q5_0"@ {
        Some(Block::Q5_0)
    } else if s == "q5_1"@ {
        Some(Block::Q5_1)
    } else if s == "q8_0"@ {
        Some(Block::Q8_0)
    } else {
        None
    }
}

/// The block format to quantize with. The formats with 256-element blocks do not divide the
/// projections, and the error says so.
pub fn parse_dtype(s: &str) -> (r: Result<Block, QuantError>)
    ensures
        match r {
            Ok(b) => block_named(s@) == Some(b),
            Err(QuantError::LargeBlocks { name }) => name@ == s@ && block_named(s@) is None
                && crate::quant::large_blocks(s@),
            Err(QuantError::Unknown { name }) => name@ == s@ && block_named(s@) is None
                && !crate::quant::large_blocks(s@),
        },
{
    if same(s, "q4_0") {
        return Ok(Block::Q4_0);
    }
    if same(s, "q4_1") {
        return Ok(Block::Q4_1);
    }
    if same(s, "q5_0") {
        return Ok(Block::Q5_0);
    }
    if same(s, "q5_1") {
        return Ok(Block::Q5_1);
    }
    if same(s, "q8_0") {
        return Ok(Block::Q8_0);
    }
    if same(s, "q4_K") || same(s, "q5_K") || same(s, "q6_K") {
        return Err(QuantError::LargeBlocks { name: s.to_owned() });
    }
    Err(QuantError::Unknown { name: s.to_owned() })
}

/// A header's length is written low byte first.
pub proof fn the_header_length_is_little_endian(b: Seq<u8>)
    requires
        b.len() == 8,
    ensures
        little_endian(b) == b[0] + 0x100 * b[1] + 0x1_0000 * b[2] + 0x100_0000 * b[3] + 0x1_0000_0000
            * b[4] + 0x100_0000_0000 * b[5] + 0x1_0000_0000_0000 * b[6] + 0x100_0000_0000_0000
            * b[7],
{
    reveal_with_fuel(little_endian, 9);
}

/// The place of a tensor is the first of its name.
pub(crate) proof fn lemma_first_place(entries: Seq<Entry>, name: Seq<char>, i: int)
    requires
        stands_at(entries, name, i),
    ensures
        first_place(entries, name) == i,
        lists(entries, name),
{
    let k = first_place(entries, name);
    assert(stands_at(entries, name, k));
    if k < i {
        assert(entries[k].name@ != name);
    } else if i < k {
        assert(entries[i].name@ != name);
    }
    assert(entries[i].name@ == name);
}

/// A tensor is good where it is there with as many sizes as are wanted, each of them as wanted
/// where it is not free; it is missing where nothing has its name.
pub proof fn a_tensor_is_good_in_its_shape(
    entries: Seq<Entry>,
    name: Seq<char>,
    want: Seq<Option<usize>>,
    i: int,
)
    ensures
        (forall|j: int| 0 <= j < entries.len() ==> (#[trigger] entries[j]).name@ != name)
            ==> shape_row(entries, name, want) == Row::Missing,
        stands_at(entries, name, i) ==> shape_row(entries, name, want) == (if entries[i].shape@.len()
            == want.len() && forall|d: int|
            0 <= d < want.len() ==> (#[trigger] want[d] is None || want[d] == Some(
                entries[i].shape@[d],
            )) {
            Row::Good
        } else {
            Row::Wrong
        }),
{
    if stands_at(entries, name, i) {
        lemma_first_place(entries, name, i);
        let got = entries[i].shape@;
        if fits(got, want) {
            assert forall|d: int| 0 <= d < want.len() implies (#[trigger] want[d] is None || want[d]
                == Some(got[d])) by {}
        }
    }
}

/// A tensor that must not be there is good where nothing has its name.
pub proof fn an_unwanted_tensor_is_good_when_absent(entries: Seq<Entry>, name: Seq<char>)
    ensures
        row_for(entries, gone(name)) == Row::Good <==> forall|j: int|
            0 <= j < entries.len() ==> (#[trigger] entries[j]).name@ != name,
        row_for(entries, gone(name)) == Row::Present <==> exists|j: int|
            0 <= j < entries.len() && (#[trigger] entries[j]).name@ == name,
{
}

/// Failures are counted one by one: a row that is not good, a claim that does not hold.
pub proof fn failures_are_counted_one_by_one(
    rows: Seq<Row>,
    row: Row,
    claims: Seq<(Seq<char>, bool)>,
    claim: (Seq<char>, bool),
)
    ensures
        bad(Seq::empty()) == 0,
        bad(rows.push(row)) == bad(rows) + (if row == Row::Good {
            0nat
        } else {
            1
        }),
        broken(Seq::empty()) == 0,
        broken(claims.push(claim)) == broken(claims) + (if claim.1 {
            0nat
        } else {
            1
        }),
{
    assert(rows.push(row).drop_last() =~= rows);
    assert(claims.push(claim).drop_last() =~= claims);
}

/// An audit passes where every row is good.
pub proof fn an_audit_passes_where_every_row_is_good(rows: Seq<Row>)
    ensures
        bad(rows) == 0 <==> forall|i: int| 0 <= i < rows.len() ==> #[trigger] rows[i] == Row::Good,
        bad(rows) <= rows.len(),
    decreases rows.len(),
{
    if rows.len() > 0 {
        let b = rows.drop_last();
        an_audit_passes_where_every_row_is_good(b);
        let n = rows.len() - 1;
        if bad(rows) == 0 {
            assert forall|i: int| 0 <= i < rows.len() implies #[trigger] rows[i] == Row::Good by {
                if i < n {
                    assert(b[i] == rows[i]);
                }
            }
        }
        if forall|i: int| 0 <= i < rows.len() ==> #[trigger] rows[i] == Row::Good {
            assert forall|i: int| 0 <= i < b.len() implies #[trigger] b[i] == Row::Good by {
                assert(b[i] == rows[i]);
            }
            assert(rows[n] == Row::Good);
        }
    }
}

/// Codes agree place by place: all of them where the sequences are the same so far, none where they
/// differ everywhere.
pub proof fn codes_agree_place_by_place(a: Seq<u32>, b: Seq<u32>, n: int)
    requires
        0 <= n <= a.len(),
        n <= b.len(),
    ensures
        0 <= agreeing(a, b, n) <= n,
        agreeing(a, b, n) == n <==> a.subrange(0, n) == b.subrange(0, n),
        agreeing(a, b, n) == 0 <==> forall|i: int| 0 <= i < n ==> #[trigger] a[i] != b[i],
        n < a.len() && n < b.len() ==> agreeing(a, b, n + 1) - agreeing(a, b, n) == (if a[n]
            == b[n] {
            1int
        } else {
            0int
        }),
    decreases n,
{
    if n > 0 {
        codes_agree_place_by_place(a, b, n - 1);
        let (x, y) = (a.subrange(0, n), b.subrange(0, n));
        assert(x.drop_last() =~= a.subrange(0, n - 1));
        assert(y.drop_last() =~= b.subrange(0, n - 1));
        assert(x.last() == a[n - 1] && y.last() == b[n - 1]);
        if a.subrange(0, n - 1) == b.subrange(0, n - 1) && a[n - 1] == b[n - 1] {
            assert(x =~= x.drop_last().push(a[n - 1]));
            assert(y =~= y.drop_last().push(b[n - 1]));
        }
    } else {
        assert(a.subrange(0, 0) =~= b.subrange(0, 0));
    }
}

/// Each block format goes by one name.
pub proof fn block_formats_go_by_their_names(s: Seq<char>)
    ensures
        block_named(s) == Some(Block::Q4_0) <==> s == seq!['q', '4', '_', '0'],
        block_named(s) == Some(Block::Q4_1) <==> s == seq!['q', '4', '_', '1'],
        block_named(s) == Some(Block::Q5_0) <==> s == seq!['q', '5', '_', '0'],
        block_named(s) == Some(Block::Q5_1) <==> s == seq!['q', '5', '_', '1'],
        block_named(s) == Some(Block::Q8_0) <==> s == seq!['q', '8', '_', '0'],
{
    reveal_strlit("q4_0");
    reveal_strlit("q4_1");
    reveal_strlit("q5_0");
    reveal_strlit("q5_1");
    reveal_strlit("q8_0");
    assert("q4_0"@ =~= seq!['q', '4', '_', '0']);
    assert("q4_1"@ =~= seq!['q', '4', '_', '1']);
    assert("q5_0"@ =~= seq!['q', '5', '_', '0']);
    assert("q5_1"@ =~= seq!['q', '5', '_', '1']);
    assert("q8_0"@ =~= seq!['q', '8', '_', '0']);
    assert("q4_0"@[1] == '4' && "q4_1"@[1] == '4' && "q5_0"@[1] == '5' && "q5_1"@[1] == '5'
        && "q8_0"@[1] == '8');
    assert("q4_0"@[3] == '0' && "q4_1"@[3] == '1' && "q5_0"@[3] == '0' && "q5_1"@[3] == '1');
}

/// A layer's tensors are named by its number, between the word `layers` and their own names.
pub proof fn layers_are_named_by_number(prefix: Seq<char>, i: nat, suffix: Seq<char>)
    ensures
        layer_name(prefix, i, suffix) == prefix + seq!['l', 'a', 'y', 'e', 'r', 's', '.']
            + number::written(i) + seq!['.'] + suffix,
        numbered_name(prefix, i, suffix) == prefix + number::written(i) + suffix,
{
    reveal_strlit("layers.");
    reveal_strlit(".");
    assert("layers."@ =~= seq!['l', 'a', 'y', 'e', 'r', 's', '.']);
    assert("."@ =~= seq!['.']);
}

pub(crate) proof fn lemma_listed_stands(entries: Seq<Entry>, name: Seq<char>) -> (i: int)
    requires
        lists(entries, name),
    ensures
        stands_at(entries, name, i),
    decreases entries.len(),
{
    let b = entries.drop_last();
    let n = entries.len() - 1;
    if lists(b, name) {
        let i = lemma_listed_stands(b, name);
        assert forall|j: int| 0 <= j < i implies (#[trigger] entries[j]).name@ != name by {
            assert(b[j].name@ != name);
        }
        i
    } else {
        let k = choose|k: int| 0 <= k < entries.len() && (#[trigger] entries[k]).name@ == name;
        if k < n {
            assert(b[k].name@ == name);
        }
        assert forall|j: int| 0 <= j < n implies (#[trigger] entries[j]).name@ != name by {
            assert(b[j] == entries[j]);
        }
        n
    }
}

/// Where no claim is broken every one holds.
pub proof fn unbroken_claims_hold(claims: Seq<(Seq<char>, bool)>)
    ensures
        broken(claims) == 0 <==> forall|i: int| 0 <= i < claims.len() ==> (#[trigger] claims[i]).1,
    decreases claims.len(),
{
    if claims.len() > 0 {
        let b = claims.drop_last();
        unbroken_claims_hold(b);
        let n = claims.len() - 1;
        if broken(claims) == 0 {
            assert forall|i: int| 0 <= i < claims.len() implies (#[trigger] claims[i]).1 by {
                if i < n {
                    assert(b[i] == claims[i]);
                }
            }
        }
        if forall|i: int| 0 <= i < claims.len() ==> (#[trigger] claims[i]).1 {
            assert forall|i: int| 0 <= i < b.len() implies (#[trigger] b[i]).1 by {
                assert(b[i] == claims[i]);
            }
            assert(claims[n].1);
        }
    }
}

/// Which tensors are projections: those of a layer, fast or not, whose names end in one of the five
/// projections of attention and feed-forward.
pub proof fn projections_are_named_like_this(before: Seq<char>)
    ensures
        projection("layers."@ + before + "attention.wqkv.weight"@),
        projection("layers."@ + before + "attention.wo.weight"@),
        projection("layers."@ + before + "feed_forward.w1.weight"@),
        projection("layers."@ + before + "feed_forward.w2.weight"@),
        projection("layers."@ + before + "feed_forward.w3.weight"@),
        projection("fast_layers."@ + before + "attention.wqkv.weight"@),
        projection("fast_layers."@ + before + "attention.wo.weight"@),
        projection("fast_layers."@ + before + "feed_forward.w1.weight"@),
        projection("fast_layers."@ + before + "feed_forward.w2.weight"@),
        projection("fast_layers."@ + before + "feed_forward.w3.weight"@),
{
    lemma_framed("layers."@, before, "attention.wqkv.weight"@);
    lemma_framed("layers."@, before, "attention.wo.weight"@);
    lemma_framed("layers."@, before, "feed_forward.w1.weight"@);
    lemma_framed("layers."@, before, "feed_forward.w2.weight"@);
    lemma_framed("layers."@, before, "feed_forward.w3.weight"@);
    lemma_framed("fast_layers."@, before, "attention.wqkv.weight"@);
    lemma_framed("fast_layers."@, before, "attention.wo.weight"@);
    lemma_framed("fast_layers."@, before, "feed_forward.w1.weight"@);
    lemma_framed("fast_layers."@, before, "feed_forward.w2.weight"@);
    lemma_framed("fast_layers."@, before, "feed_forward.w3.weight"@);
}

proof fn lemma_framed(a: Seq<char>, b: Seq<char>, c: Seq<char>)
    ensures
        a.is_prefix_of(a + b + c),
        c.is_suffix_of(a + b + c),
{
    let s = a + b + c;
    assert(a =~= s.subrange(0, a.len() as int));
    assert(c =~= s.subrange(s.len() - c.len(), s.len() as int));
}

/// A projection's name starts and ends as one.
pub proof fn a_projection_is_in_a_layer(name: Seq<char>)
    requires
        projection(name),
    ensures
        "layers."@.is_prefix_of(name) || "fast_layers."@.is_prefix_of(name),
        "attention.wqkv.weight"@.is_suffix_of(name) || "attention.wo.weight"@.is_suffix_of(name)
            || "feed_forward.w1.weight"@.is_suffix_of(name)
            || "feed_forward.w2.weight"@.is_suffix_of(name)
            || "feed_forward.w3.weight"@.is_suffix_of(name),
{
}

/// A report counts every row, and as a failure each that is not good.
pub proof fn a_report_counts_every_row(r: Report, good: bool)
    requires
        r.rows < usize::MAX,
        r.wf(),
    ensures
        r.counted(good).rows == r.rows + 1,
        good ==> r.counted(good).failures == r.failures,
        !good ==> r.counted(good).failures == r.failures + 1,
{
}

/// Checks and claims show what they ask and say, each in its place.
pub proof fn checks_show_what_they_ask(checks: Seq<Check>, claims: Seq<Claim>, i: int)
    ensures
        wanted(checks).len() == checks.len(),
        0 <= i < checks.len() ==> wanted(checks)[i].name == checks[i].name@,
        0 <= i < checks.len() ==> (checks[i].want is None <==> wanted(checks)[i].shape is None),
        0 <= i < checks.len() ==> (checks[i].want matches Some(w) ==> wanted(checks)[i].shape
            == Some(w@)),
        claimed(claims).len() == claims.len(),
        0 <= i < claims.len() ==> claimed(claims)[i].0 == claims[i].name@ && claimed(claims)[i].1
            == claims[i].ok,
{
}

} // verus!
