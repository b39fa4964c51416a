//! Decoding the groups one after the other: which lanes to run next, what to keep, and which
//! groups to redo.
//!
//! The talker runs outside; it is told what to decode and hands back frames.

use crate::grid;
use crate::grid::copy_rows;
use crate::order;
use crate::qwen3tts::engine;
use crate::qwen3tts::engine::{batch_cap, must_rerun, Groups};
use vstd::prelude::*;

verus! {

/// What to decode next.
#[derive(Clone, Copy, PartialEq, Eq, Structural, Debug)]
pub enum Action {
    /// The lanes of this group together, each up to `cap` frames.
    Together { group: usize, cap: usize },
    /// This segment alone, up to `budget` frames.
    Alone { segment: usize, budget: usize },
    /// Nothing: every segment is decoded.
    Done,
}

/// A run over all groups.
pub struct Session {
    /// The segments in the order in which they decode.
    pub order: Vec<usize>,
    pub groups: Vec<Vec<usize>>,
    /// The frames that a segment may take.
    pub budget: usize,
    /// The group being decoded.
    pub at: usize,
    /// Where its segments start in the order.
    pub start: usize,
    /// How many of them are decoded, one at a time.
    pub lane: usize,
    /// Whether they go one at a time.
    pub singly: bool,
    /// The frames of each segment, where it is decoded.
    pub results: Vec<Option<Vec<Vec<u32>>>>,
    /// Text positions that each decoded segment left unspoken.
    pub left: Vec<usize>,
}

/// What the results hold.
pub open spec fn results_view(v: Seq<Option<Vec<Vec<u32>>>>) -> Seq<Option<Seq<Seq<u32>>>> {
    Seq::new(
        v.len(),
        |i: int|
            match v[i] {
                Some(f) => Some(grid::rows_view(f@)),
                None => None,
            },
    )
}

/// Where group `g` starts in the order.
pub open spec fn start_of(groups: Seq<Seq<usize>>, g: int) -> int {
    grid::flat_rows(groups.take(g)).len() as int
}

/// The results after a group's lanes were kept.
pub open spec fn with_group(
    results: Seq<Option<Seq<Seq<u32>>>>,
    group: Seq<usize>,
    frames: Seq<Seq<Seq<u32>>>,
    n: int,
) -> Seq<Option<Seq<Seq<u32>>>>
    decreases n,
{
    if n <= 0 {
        results
    } else {
        with_group(results, group, frames, n - 1).update(
            group[n - 1] as int,
            Some(frames[n - 1]),
        )
    }
}

/// What several lanes emitted.
pub open spec fn lanes_view(frames: Seq<Vec<Vec<u32>>>) -> Seq<Seq<Seq<u32>>> {
    Seq::new(frames.len(), |i: int| grid::rows_view(frames[i]@))
}

/// What a run holds.
pub struct SessionView {
    pub order: Seq<usize>,
    pub groups: Seq<Seq<usize>>,
    pub budget: nat,
    pub at: nat,
    pub lane: nat,
    pub singly: bool,
    pub results: Seq<Option<Seq<Seq<u32>>>>,
    pub left: Seq<usize>,
}

impl View for Session {
    type V = SessionView;

    open spec fn view(&self) -> SessionView {
        SessionView {
            order: self.order@,
            groups: grid::rows_view(self.groups@),
            budget: self.budget as nat,
            at: self.at as nat,
            lane: self.lane as nat,
            singly: self.singly,
            results: results_view(self.results@),
            left: self.left@,
        }
    }
}

/// A run in which nothing is decoded yet.
pub open spec fn begun(order: Seq<usize>, groups: Seq<Seq<usize>>, budget: nat) -> SessionView {
    SessionView {
        order,
        groups,
        budget,
        at: 0,
        lane: 0,
        singly: false,
        results: Seq::new(order.len(), |i: int| None),
        left: Seq::empty(),
    }
}

/// The frames that each lane of a batch may take.
pub open spec fn cap_of(budget: nat) -> nat {
    if budget <= engine::BATCH_FRAME_CAP {
        budget
    } else {
        engine::BATCH_FRAME_CAP as nat
    }
}

/// What a run asks for next.
pub open spec fn asked(v: SessionView) -> Action {
    if v.at == v.groups.len() {
        Action::Done
    } else if !v.singly && v.groups[v.at as int].len() > 1 {
        Action::Together { group: v.at as usize, cap: cap_of(v.budget) as usize }
    } else {
        Action::Alone {
            segment: v.groups[v.at as int][v.lane as int],
            budget: v.budget as usize,
        }
    }
}

/// A lane filled its cap.
pub open spec fn overfull(frames: Seq<Seq<Seq<u32>>>, cap: nat) -> bool {
    exists|i: int| 0 <= i < frames.len() && (#[trigger] frames[i]).len() >= cap
}

/// A run after the lanes of its group were decoded together: where one filled its cap, nothing is
/// kept and the group goes again one segment at a time.
pub open spec fn told_together(
    v: SessionView,
    frames: Seq<Seq<Seq<u32>>>,
    left: Seq<usize>,
) -> SessionView {
    if overfull(frames, cap_of(v.budget)) {
        SessionView { singly: true, ..v }
    } else {
        SessionView {
            at: v.at + 1,
            results: with_group(
                v.results,
                v.groups[v.at as int],
                frames,
                frames.len() as int,
            ),
            left: v.left + left,
            ..v
        }
    }
}

/// A run after its next segment was decoded alone.
pub open spec fn told_alone(v: SessionView, frames: Seq<Seq<u32>>, left: usize) -> SessionView {
    let last = v.lane + 1 == v.groups[v.at as int].len();
    SessionView {
        at: if last {
            v.at + 1
        } else {
            v.at
        },
        lane: if last {
            0
        } else {
            v.lane + 1
        },
        singly: !last,
        results: v.results.update(
            v.groups[v.at as int][v.lane as int] as int,
            Some(frames),
        ),
        left: v.left.push(left),
        ..v
    }
}

proof fn lemma_start_step(groups: Seq<Seq<usize>>, g: int)
    requires
        0 <= g < groups.len(),
    ensures
        start_of(groups, g + 1) == start_of(groups, g) + groups[g].len(),
        grid::flat_rows(groups.take(g + 1)) == grid::flat_rows(groups.take(g)) + groups[g],
{
    assert(groups.take(g + 1).drop_last() =~= groups.take(g));
}

proof fn lemma_flat_at(groups: Seq<Seq<usize>>, g: int, k: int)
    requires
        0 <= g < groups.len(),
        0 <= k < groups[g].len(),
    ensures
        start_of(groups, g) + k < grid::flat_rows(groups).len(),
        grid::flat_rows(groups)[start_of(groups, g) + k] == groups[g][k],
    decreases groups.len(),
{
    if g == groups.len() - 1 {
        assert(groups.take(g) =~= groups.drop_last());
    } else {
        lemma_flat_at(groups.drop_last(), g, k);
        assert(groups.drop_last().take(g) =~= groups.take(g));
    }
}

proof fn lemma_start_end(groups: Seq<Seq<usize>>, g: int)
    requires
        0 <= g <= groups.len(),
    ensures
        0 <= start_of(groups, g) <= grid::flat_rows(groups).len(),
        g == groups.len() ==> start_of(groups, g) == grid::flat_rows(groups).len(),
    decreases groups.len() - g,
{
    if g == groups.len() {
        assert(groups.take(g) =~= groups);
    } else {
        lemma_start_step(groups, g);
        lemma_start_end(groups, g + 1);
    }
}

impl Session {
    /// The groups cut the order into runs, none of them empty; a segment has a result exactly
    /// when it comes before the point reached.
    pub open spec fn wf(&self) -> bool {
        let groups = grid::rows_view(self.groups@);
        &&& order::permutation(self.order@, self.results@.len())
        &&& grid::flat_rows(groups) == self.order@
        &&& forall|g: int| 0 <= g < groups.len() ==> (#[trigger] groups[g]).len() > 0
        &&& self.at <= groups.len()
        &&& self.start == start_of(groups, self.at as int)
        &&& self.at < groups.len() ==> self.lane < groups[self.at as int].len()
        &&& self.at == groups.len() ==> self.lane == 0
        &&& self.lane > 0 ==> self.singly
        &&& forall|k: int|
            0 <= k < self.order@.len() ==> (results_view(
                self.results@,
            )[#[trigger] self.order@[k] as int] is Some <==> k < self.start + self.lane)
    }

    /// A run over the given groups in which nothing is decoded yet.
    pub fn begin(g: Groups, budget: usize) -> (s: Self)
        requires
            order::permutation(g.order@, g.order@.len()),
            grid::flat_rows(grid::rows_view(g.groups@)) == g.order@,
            forall|i: int| 0 <= i < g.groups@.len() ==> (#[trigger] g.groups@[i])@.len() > 0,
        ensures
            s.wf(),
            s@ == begun(g.order@, grid::rows_view(g.groups@), budget as nat),
    {
        let mut results: Vec<Option<Vec<Vec<u32>>>> = Vec::new();
        let n: usize = g.order.len();
        while results.len() < n
            invariant
                results@.len() <= n,
                forall|i: int| 0 <= i < results@.len() ==> (#[trigger] results@[i]) is None,
            decreases n - results@.len(),
        {
            results.push(None);
        }
        let s = Session {
            order: g.order,
            groups: g.groups,
            budget,
            at: 0,
            start: 0,
            lane: 0,
            singly: false,
            results,
            left: Vec::new(),
        };
        proof {
            let groups = grid::rows_view(s.groups@);
            assert(groups.take(0) =~= Seq::<Seq<usize>>::empty());
            assert forall|i: int| 0 <= i < groups.len() implies (#[trigger] groups[i]).len() > 0 by {
                assert(s.groups@[i]@.len() > 0);
            }
            let want = begun(s.order@, groups, budget as nat);
            assert(s@.results =~= want.results);
            assert(s@.left =~= want.left);
        }
        s
    }

    /// What to decode next. A group of one goes alone, and so does one that is being redone.
    pub fn next(&self) -> (a: Action)
        requires
            self.wf(),
        ensures
            a == asked(self@),
    {
        if self.at == self.groups.len() {
            return Action::Done;
        }
        assert(grid::rows_view(self.groups@)[self.at as int] == self.groups@[self.at as int]@);
        if !self.singly && self.groups[self.at].len() > 1 {
            return Action::Together { group: self.at, cap: batch_cap(self.budget) };
        }
        Action::Alone { segment: self.groups[self.at][self.lane], budget: self.budget }
    }

    /// Takes in what the lanes of a group emitted together. Where one filled its cap, nothing is
    /// kept and the group goes again one segment at a time, with the full budget.
    pub fn heard_together(&mut self, frames: &Vec<Vec<Vec<u32>>>, left: &Vec<usize>) -> (redo: bool)
        requires
            old(self).wf(),
            old(self).at < old(self).groups@.len(),
            !old(self).singly,
            old(self).groups@[old(self).at as int]@.len() > 1,
            frames@.len() == old(self).groups@[old(self).at as int]@.len(),
            left@.len() == frames@.len(),
        ensures
            final(self).wf(),
            redo == overfull(lanes_view(frames@), cap_of(old(self).budget as nat)),
            final(self)@ == told_together(old(self)@, lanes_view(frames@), left@),
    {
        let ghost groups = grid::rows_view(self.groups@);
        let ghost group = groups[self.at as int];
        let full = must_rerun(frames, batch_cap(self.budget));
        proof {
            let lanes = lanes_view(frames@);
            let cap = cap_of(self.budget as nat);
            if full {
                let i = choose|i: int|
                    0 <= i < frames@.len() && (#[trigger] frames@[i])@.len() >= cap;
                assert(lanes[i].len() >= cap);
            }
            if overfull(lanes, cap) {
                let i = choose|i: int| 0 <= i < lanes.len() && (#[trigger] lanes[i]).len() >= cap;
                assert(frames@[i]@.len() >= cap);
            }
        }
        if full {
            self.singly = true;
            return true;
        }
        let ghost was = results_view(self.results@);
        let ghost lanes = lanes_view(frames@);
        let at: usize = self.at;
        let mut k: usize = 0;
        while k < frames.len()
            invariant
                k <= frames@.len() == group.len(),
                at == self.at == old(self).at,
                at < groups.len(),
                groups == grid::rows_view(self.groups@),
                group == groups[at as int],
                lanes == lanes_view(frames@),
                order::permutation(self.order@, self.results@.len()),
                grid::flat_rows(groups) == self.order@,
                self.order == old(self).order,
                self.groups == old(self).groups,
                self.budget == old(self).budget,
                self.start == old(self).start,
                self.lane == old(self).lane,
                self.singly == old(self).singly,
                self.left == old(self).left,
                self.results@.len() == old(self).results@.len(),
                was == results_view(old(self).results@),
                results_view(self.results@) == with_group(was, group, lanes, k as int),
                self.start == start_of(groups, at as int),
                self.lane == 0,
                forall|q: int|
                    0 <= q < self.order@.len() ==> (results_view(
                        self.results@,
                    )[#[trigger] self.order@[q] as int] is Some <==> q < self.start + k),
            decreases frames@.len() - k,
        {
            proof {
                lemma_flat_at(groups, at as int, k as int);
            }
            let i: usize = self.groups[at][k];
            let rows = copy_rows(&frames[k]);
            let ghost before = results_view(self.results@);
            self.results.set(i, Some(rows));
            proof {
                assert(lanes[k as int] == grid::rows_view(frames@[k as int]@));
                assert(results_view(self.results@) =~= before.update(
                    i as int,
                    Some(lanes[k as int]),
                ));
                assert forall|q: int| 0 <= q < self.order@.len() implies (results_view(
                    self.results@,
                )[#[trigger] self.order@[q] as int] is Some <==> q < self.start + (k + 1)) by {
                    let here = self.start + k;
                    assert(self.order@[here] == i);
                    if q < here {
                        assert(self.order@[q] != self.order@[here]);
                    } else if q > here {
                        assert(self.order@[here] != self.order@[q]);
                    }
                }
            }
            k += 1;
        }
        let mut j: usize = 0;
        let ghost had = self.left@;
        assert(had + left@.take(0) =~= had);
        while j < left.len()
            invariant
                j <= left@.len(),
                self.left@ == had + left@.take(j as int),
                self.order == old(self).order,
                self.groups == old(self).groups,
                self.budget == old(self).budget,
                self.at == old(self).at,
                self.start == old(self).start,
                self.lane == old(self).lane,
                self.singly == old(self).singly,
                self.results@.len() == old(self).results@.len(),
                results_view(self.results@) == with_group(was, group, lanes, k as int),
                forall|q: int|
                    0 <= q < self.order@.len() ==> (results_view(
                        self.results@,
                    )[#[trigger] self.order@[q] as int] is Some <==> q < self.start + k),
            decreases left@.len() - j,
        {
            self.left.push(left[j]);
            j += 1;
            assert(had + left@.take(j as int) =~= (had + left@.take(j - 1)).push(left@[j - 1]));
        }
        assert(left@.take(j as int) =~= left@);
        proof {
            lemma_start_step(groups, at as int);
            lemma_start_end(groups, at as int + 1);
            if at + 1 < groups.len() {
                assert(groups[at + 1].len() > 0);
            }
        }
        assert(at < self.groups.len());
        assert(self.start + frames.len() <= self.order.len());
        self.start = self.start + frames.len();
        self.at = at + 1;
        false
    }

    /// Takes in what a segment emitted alone.
    pub fn heard_alone(&mut self, frames: &Vec<Vec<u32>>, left: usize)
        requires
            old(self).wf(),
            old(self).at < old(self).groups@.len(),
            old(self).singly || old(self).groups@[old(self).at as int]@.len() == 1,
        ensures
            final(self).wf(),
            final(self)@ == told_alone(old(self)@, grid::rows_view(frames@), left),
    {
        let ghost groups = grid::rows_view(self.groups@);
        let at: usize = self.at;
        let lane: usize = self.lane;
        proof {
            assert(groups[at as int] == self.groups@[at as int]@);
            lemma_flat_at(groups, at as int, lane as int);
        }
        let i: usize = self.groups[at][lane];
        let rows = copy_rows(frames);
        let ghost before = results_view(self.results@);
        self.results.set(i, Some(rows));
        self.left.push(left);
        proof {
            assert(results_view(self.results@) =~= before.update(
                i as int,
                Some(grid::rows_view(frames@)),
            ));
            assert forall|q: int| 0 <= q < self.order@.len() implies (results_view(
                self.results@,
            )[#[trigger] self.order@[q] as int] is Some <==> q < self.start + (lane + 1)) by {
                let here = self.start + lane;
                assert(self.order@[here] == i);
                if q < here {
                    assert(self.order@[q] != self.order@[here]);
                } else if q > here {
                    assert(self.order@[here] != self.order@[q]);
                }
            }
            lemma_start_step(groups, at as int);
            lemma_start_end(groups, at as int + 1);
            if at + 1 < groups.len() {
                assert(groups[at + 1].len() > 0);
            }
        }
        assert(at < self.groups.len());
        assert(lane < self.groups@[at as int].len());
        assert(self.start + lane < self.order.len());
        if lane + 1 == self.groups[at].len() {
            self.start = self.start + (lane + 1);
            self.at = at + 1;
            self.lane = 0;
            self.singly = false;
        } else {
            self.lane = lane + 1;
        }
    }

    /// The frames of every segment, in reading order.
    pub fn finish(&self) -> (out: Vec<Vec<Vec<u32>>>)
        requires
            self.wf(),
            self.at == self.groups@.len(),
        ensures
            out@.len() == self@.results.len(),
            forall|i: int|
                0 <= i < out@.len() ==> self@.results[i] == Some(
                    grid::rows_view((#[trigger] out@[i])@),
                ),
    {
        let mut out: Vec<Vec<Vec<u32>>> = Vec::new();
        let n: usize = self.results.len();
        let mut i: usize = 0;
        while i < n
            invariant
                i <= n == self.results@.len(),
                self.wf(),
                self.at == self.groups@.len(),
                out@.len() == i,
                forall|j: int|
                    0 <= j < i ==> results_view(self.results@)[j] == Some(
                        grid::rows_view((#[trigger] out@[j])@),
                    ),
            decreases n - i,
        {
            proof {
                let groups = grid::rows_view(self.groups@);
                lemma_start_end(groups, self.at as int);
                assert(self.order@.contains(order::keys_index(i as int)));
                let q = choose|q: int|
                    0 <= q < self.order@.len() && self.order@[q] == order::keys_index(i as int);
                assert(results_view(self.results@)[self.order@[q] as int] is Some);
            }
            match &self.results[i] {
                Some(f) => {
                    let rows = copy_rows(f);
                    out.push(rows);
                },
                None => {},
            }
            i += 1;
        }
        out
    }
}

proof fn lemma_grouped(order: Seq<usize>, leaders: Seq<usize>, lanes: nat, n: int)
    requires
        lanes > 0,
        0 <= n <= order.len(),
    ensures
        grid::flat_rows(engine::grouped_up_to(order, leaders, lanes, n)) == order.take(n),
        forall|g: int|
            0 <= g < engine::grouped_up_to(order, leaders, lanes, n).len() ==> 1 <= (
            #[trigger] engine::grouped_up_to(order, leaders, lanes, n)[g]).len() <= lanes,
    decreases n,
{
    let all = engine::grouped_up_to(order, leaders, lanes, n);
    if n > 0 {
        lemma_grouped(order, leaders, lanes, n - 1);
        let done = engine::grouped_up_to(order, leaders, lanes, n - 1);
        let i = order[n - 1];
        assert(order.take(n) =~= order.take(n - 1).push(i));
        if done.len() > 0 && done.last().len() < lanes && leaders[done.last()[0] as int]
            == leaders[i as int] {
            assert(done[done.len() - 1] == done.last());
            assert(all.drop_last() =~= done.drop_last());
            assert(grid::flat_rows(done.drop_last()) + done.last().push(i) =~= (grid::flat_rows(
                done.drop_last(),
            ) + done.last()).push(i));
        } else {
            assert(all.drop_last() =~= done);
            assert(grid::flat_rows(done) + seq![i] =~= grid::flat_rows(done).push(i));
        }
    } else {
        assert(order.take(0) =~= Seq::<usize>::empty());
    }
}

/// The groups list every segment once, in decoding order, none empty and none over the limit: a
/// session can begin on them.
pub proof fn groups_cut_the_order(order: Seq<usize>, leaders: Seq<usize>, lanes: nat)
    requires
        lanes > 0,
    ensures
        grid::flat_rows(
            engine::grouped_up_to(order, leaders, lanes, order.len() as int),
        ) == order,
        forall|g: int|
            0 <= g < engine::grouped_up_to(order, leaders, lanes, order.len() as int).len()
                ==> 1 <= (#[trigger] engine::grouped_up_to(
                order,
                leaders,
                lanes,
                order.len() as int,
            )[g]).len() <= lanes,
{
    lemma_grouped(order, leaders, lanes, order.len() as int);
    assert(order.take(order.len() as int) =~= order);
}

/// Two segments of one group are alike.
pub proof fn groups_are_of_one_shape(
    p: Seq<engine::Prepared>,
    order: Seq<usize>,
    leaders: Seq<usize>,
    lanes: nat,
    n: int,
    g: int,
    a: int,
    b: int,
)
    requires
        lanes > 0,
        engine::all_led(p, leaders),
        engine::grouped(p, leaders, order),
        0 <= n <= order.len(),
        0 <= g < engine::grouped_up_to(order, leaders, lanes, n).len(),
        0 <= a < engine::grouped_up_to(order, leaders, lanes, n)[g].len(),
        0 <= b < engine::grouped_up_to(order, leaders, lanes, n)[g].len(),
    ensures
        ({
            let x = engine::grouped_up_to(order, leaders, lanes, n)[g];
            x[a] < p.len() && x[b] < p.len() && leaders[x[a] as int] == leaders[x[b] as int]
                && engine::alike(p[x[a] as int], p[x[b] as int])
        }),
{
    lemma_one_leader(p, order, leaders, lanes, n, g, a);
    lemma_one_leader(p, order, leaders, lanes, n, g, b);
    let x = engine::grouped_up_to(order, leaders, lanes, n)[g];
    assert(engine::leads(p, leaders[x[a] as int] as int, x[a] as int));
    assert(engine::leads(p, leaders[x[b] as int] as int, x[b] as int));
}

proof fn lemma_one_leader(
    p: Seq<engine::Prepared>,
    order: Seq<usize>,
    leaders: Seq<usize>,
    lanes: nat,
    n: int,
    g: int,
    a: int,
)
    requires
        lanes > 0,
        engine::all_led(p, leaders),
        engine::grouped(p, leaders, order),
        0 <= n <= order.len(),
        0 <= g < engine::grouped_up_to(order, leaders, lanes, n).len(),
        0 <= a < engine::grouped_up_to(order, leaders, lanes, n)[g].len(),
    ensures
        ({
            let x = engine::grouped_up_to(order, leaders, lanes, n)[g];
            x.len() > 0 && x[a] < p.len() && leaders[x[a] as int] == leaders[x[0] as int]
        }),
    decreases n,
{
    if n > 0 {
        let all = engine::grouped_up_to(order, leaders, lanes, n);
        let done = engine::grouped_up_to(order, leaders, lanes, n - 1);
        let i = order[n - 1];
        lemma_grouped(order, leaders, lanes, n - 1);
        if done.len() > 0 && done.last().len() < lanes && leaders[done.last()[0] as int]
            == leaders[i as int] {
            if g == done.len() - 1 {
                assert(all[g] == done.last().push(i));
                assert(done[g] == done.last());
                if a < done.last().len() {
                    lemma_one_leader(p, order, leaders, lanes, n - 1, g, a);
                } else {
                    lemma_one_leader(p, order, leaders, lanes, n - 1, g, 0);
                }
            } else {
                assert(all[g] == done[g]);
                lemma_one_leader(p, order, leaders, lanes, n - 1, g, a);
            }
        } else if g < done.len() {
            assert(all[g] == done[g]);
            lemma_one_leader(p, order, leaders, lanes, n - 1, g, a);
        }
    }
}

/// What is kept of a batch was not cut off: every lane kept together stopped short of its cap.
pub proof fn kept_lanes_stopped_on_their_own(frames: Seq<Vec<Vec<u32>>>, cap: int, i: int)
    requires
        !engine::capped(frames, cap),
        0 <= i < frames.len(),
    ensures
        frames[i]@.len() < cap,
{
}

/// A group's lanes go to its segments, each lane to its own; every other segment keeps what it has.
pub proof fn lanes_go_to_their_segments(
    results: Seq<Option<Seq<Seq<u32>>>>,
    group: Seq<usize>,
    frames: Seq<Seq<Seq<u32>>>,
    n: int,
)
    requires
        0 <= n <= group.len(),
        n <= frames.len(),
        forall|j: int| 0 <= j < group.len() ==> (#[trigger] group[j]) < results.len(),
        forall|i: int, j: int|
            0 <= i < j < group.len() ==> #[trigger] group[i] != #[trigger] group[j],
    ensures
        with_group(results, group, frames, n).len() == results.len(),
        forall|j: int|
            0 <= j < n ==> with_group(results, group, frames, n)[#[trigger] group[j] as int] == Some(
                frames[j],
            ),
        forall|s: int|
            0 <= s < results.len() && (forall|j: int| 0 <= j < n ==> #[trigger] group[j] != s)
                ==> #[trigger] with_group(results, group, frames, n)[s] == results[s],
    decreases n,
{
    if n > 0 {
        lanes_go_to_their_segments(results, group, frames, n - 1);
        let was = with_group(results, group, frames, n - 1);
        let all = with_group(results, group, frames, n);
        assert(group[n - 1] < results.len());
        assert forall|j: int| 0 <= j < n implies all[#[trigger] group[j] as int] == Some(
            frames[j],
        ) by {
            if j < n - 1 {
                assert(group[j] != group[n - 1]);
            }
        }
        assert forall|s: int|
            0 <= s < results.len() && (forall|j: int| 0 <= j < n ==> #[trigger] group[j] != s)
            implies #[trigger] all[s] == results[s] by {
            assert(group[n - 1] != s);
            assert(was[s] == results[s]);
        }
    }
}

/// What a session asks for next: a group of several together, each lane up to 512 frames or the
/// budget where that is less; the segments of a group that overran, and groups of one, one at a
/// time up to the budget; and nothing once every group is decoded.
pub proof fn a_session_asks_for_one_thing_at_a_time(v: SessionView)
    requires
        v.at <= v.groups.len(),
        v.budget <= usize::MAX,
        v.groups.len() <= usize::MAX,
    ensures
        v.at == v.groups.len() ==> asked(v) == Action::Done,
        v.at < v.groups.len() && v.groups[v.at as int].len() > 1 && !v.singly ==> match asked(v) {
            Action::Together { group, cap } => group == v.at && cap <= 512 && cap <= v.budget && (cap
                == 512 || cap == v.budget),
            _ => false,
        },
        v.at < v.groups.len() && (v.groups[v.at as int].len() <= 1 || v.singly) ==> match asked(v) {
            Action::Alone { segment, budget } => segment == v.groups[v.at as int][v.lane as int]
                && budget == v.budget,
            _ => false,
        },
{
}

/// A group is kept where every lane stopped before the cap, and then the next group comes up; where
/// one did not, nothing of it is kept and its segments are decoded one at a time.
pub proof fn an_overrun_group_is_decoded_again(
    v: SessionView,
    frames: Seq<Seq<Seq<u32>>>,
    left: Seq<usize>,
)
    requires
        v.budget >= 512,
    ensures
        ({
            let w = told_together(v, frames, left);
            let over = exists|i: int| 0 <= i < frames.len() && (#[trigger] frames[i]).len() >= 512;
            &&& over ==> w.results == v.results && w.left == v.left && w.at == v.at && w.singly
            &&& !over ==> w.at == v.at + 1 && w.left == v.left + left && w.results == with_group(
                v.results,
                v.groups[v.at as int],
                frames,
                frames.len() as int,
            )
            &&& w.groups == v.groups && w.order == v.order && w.budget == v.budget
        }),
{
}

/// A segment decoded alone keeps its own frames; behind the last of its group the next group comes
/// up.
pub proof fn a_segment_alone_keeps_its_frames(
    v: SessionView,
    frames: Seq<Seq<u32>>,
    left: usize,
    s: int,
)
    requires
        v.at < v.groups.len(),
        v.lane < v.groups[v.at as int].len(),
        v.groups[v.at as int][v.lane as int] < v.results.len(),
        0 <= s < v.results.len(),
    ensures
        ({
            let w = told_alone(v, frames, left);
            let segment = v.groups[v.at as int][v.lane as int];
            &&& s == segment ==> w.results[s] == Some(frames)
            &&& s != segment ==> w.results[s] == v.results[s]
            &&& w.left == v.left.push(left)
            &&& v.lane + 1 < v.groups[v.at as int].len() ==> w.at == v.at && w.lane == v.lane + 1
                && w.singly
            &&& v.lane + 1 == v.groups[v.at as int].len() ==> w.at == v.at + 1 && w.lane == 0
                && !w.singly
        }),
{
}

/// A session begins with its first group, nothing decoded.
pub proof fn a_session_begins_with_nothing_decoded(
    order: Seq<usize>,
    groups: Seq<Seq<usize>>,
    budget: nat,
    i: int,
)
    requires
        0 <= i < order.len(),
    ensures
        ({
            let v = begun(order, groups, budget);
            &&& v.order == order && v.groups == groups && v.budget == budget
            &&& v.at == 0 && v.lane == 0 && !v.singly
            &&& v.results.len() == order.len() && v.results[i] is None
            &&& v.left.len() == 0
        }),
{
}

/// A session shows what each segment has, and the lanes that it hears, as they are.
pub proof fn a_session_shows_what_it_holds(s: Session, frames: Seq<Vec<Vec<u32>>>, i: int)
    ensures
        s@.order == s.order@,
        s@.groups.len() == s.groups@.len(),
        0 <= i < s.groups@.len() ==> s@.groups[i] == s.groups@[i]@,
        s@.budget == s.budget && s@.at == s.at && s@.lane == s.lane && s@.singly == s.singly,
        s@.left == s.left@,
        s@.results.len() == s.results@.len(),
        0 <= i < s.results@.len() ==> (s@.results[i] is None <==> s.results@[i] is None),
        0 <= i < s.results@.len() ==> (s.results@[i] matches Some(f) ==> s@.results[i] == Some(
            grid::rows_view(f@),
        )),
        lanes_view(frames).len() == frames.len(),
        0 <= i < frames.len() ==> lanes_view(frames)[i] == grid::rows_view(frames[i]@),
{
}

} // verus!
