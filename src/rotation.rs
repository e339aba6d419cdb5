//! Position rotation: each person visits every position of a job once per cycle.

use vstd::prelude::*;
use vstd::set_lib::{lemma_int_range, lemma_len_subset, set_int_range};
use crate::model::{HistoryEntry, JobId, PersonId, RotationStrategy};
use crate::util::contains_pos;

verus! {

/// The positions the ledger shows for a person in a job, most recent first.
/// The ledger is kept in commit order, oldest first.
pub open spec fn recent_positions(ledger: Seq<HistoryEntry>, pid: PersonId, job: JobId) -> Seq<u32>
    decreases ledger.len(),
{
    if ledger.len() == 0 {
        seq![]
    } else {
        let e = ledger.last();
        let rest = recent_positions(ledger.drop_last(), pid, job);
        if e.person_id == pid && e.job_id == job {
            seq![e.position] + rest
        } else {
            rest
        }
    }
}

/// Walks a most-recent-first history, gathering positions until one repeats.
pub open spec fn cycle_walk(h: Seq<u32>, acc: Seq<u32>) -> Seq<u32>
    decreases h.len(),
{
    if h.len() == 0 {
        acc
    } else if acc.contains(h[0]) {
        acc
    } else {
        cycle_walk(h.drop_first(), acc.push(h[0]))
    }
}

/// The positions already done in the current cycle.
pub open spec fn cycle_of(h: Seq<u32>) -> Seq<u32> {
    cycle_walk(h, seq![])
}

/// Every position 1..=n is among `done`.
pub open spec fn cycle_complete(done: Seq<u32>, n: int) -> bool {
    forall|q: u32| 1 <= q <= n ==> #[trigger] done.contains(q)
}

/// The bag: positions 1..=n not yet done, or all of them once the cycle is complete.
pub open spec fn bag_has(done: Seq<u32>, n: int, p: u32) -> bool {
    1 <= p <= n && (!done.contains(p) || cycle_complete(done, n))
}

/// The positions done in the current cycle of a most-recent-first history: those seen
/// before the first repeat.
pub fn current_cycle(history: &Vec<u32>) -> (r: Vec<u32>)
    ensures
        r@ == cycle_of(history@),
{
    let mut acc: Vec<u32> = Vec::new();
    let mut i: usize = 0;
    proof {
        assert(history@.subrange(0, history@.len() as int) =~= history@);
        assert(acc@ =~= Seq::<u32>::empty());
    }
    while i < history.len()
        invariant
            0 <= i <= history.len(),
            cycle_of(history@) == cycle_walk(history@.subrange(i as int, history@.len() as int), acc@),
        decreases history.len() - i,
    {
        let p = history[i];
        proof {
            let ghost s = history@.subrange(i as int, history@.len() as int);
            assert(s[0] == p);
            assert(s.drop_first() =~= history@.subrange(i + 1, history@.len() as int));
        }
        if contains_pos(&acc, p) {
            return acc;
        }
        acc.push(p);
        i += 1;
    }
    proof {
        assert(history@.subrange(i as int, history@.len() as int).len() == 0);
    }
    acc
}

/// Whether every position 1..=n is among `done`.
fn is_cycle_complete(done: &Vec<u32>, n: u32) -> (r: bool)
    ensures
        r == cycle_complete(done@, n as int),
{
    let mut q: u32 = 1;
    while q <= n
        invariant
            1 <= q,
            q <= n + 1,
            forall|x: u32| 1 <= x < q ==> done@.contains(x),
        decreases n + 1 - q,
    {
        if !contains_pos(done, q) {
            return false;
        }
        if q == n {
            return true;
        }
        q += 1;
    }
    true
}

/// The bag of a person: positions 1..=n not done this cycle, ascending; all of them
/// when the cycle is complete.
pub fn position_bag(done: &Vec<u32>, n: u32) -> (r: Vec<u32>)
    ensures
        forall|p: u32| r@.contains(p) ==> bag_has(done@, n as int, p),
        forall|p: u32| #[trigger] bag_has(done@, n as int, p) ==> r@.contains(p),
        forall|a: int, b: int| 0 <= a < b < r@.len() ==> r@[a] < r@[b],
        forall|k: int| 0 <= k < r@.len() ==> 1 <= #[trigger] r@[k] <= n,
{
    let complete = is_cycle_complete(done, n);
    let mut r: Vec<u32> = Vec::new();
    let mut q: u64 = 1;
    while q <= n as u64
        invariant
            1 <= q,
            q <= n + 1,
            complete == cycle_complete(done@, n as int),
            forall|k: int| 0 <= k < r@.len() ==> 1 <= #[trigger] r@[k] < q && r@[k] <= n,
            forall|a: int, b: int| 0 <= a < b < r@.len() ==> r@[a] < r@[b],
            forall|k: int| 0 <= k < r@.len() ==> bag_has(done@, n as int, r@[k]),
            forall|p: u32| 1 <= p < q && #[trigger] bag_has(done@, n as int, p) ==> r@.contains(p),
        decreases n + 1 - q,
    {
        let p = q as u32;
        let ghost old_r = r@;
        if complete || !contains_pos(done, p) {
            r.push(p);
            proof {
                assert(r@[r@.len() - 1] == p);
                assert forall|x: u32| old_r.contains(x) implies r@.contains(x) by {
                    let k = choose|k: int| 0 <= k < old_r.len() && old_r[k] == x;
                    assert(r@[k] == x);
                }
            }
        }
        q += 1;
    }
    proof {
        assert forall|p: u32| r@.contains(p) implies bag_has(done@, n as int, p) by {
            let k = choose|k: int| 0 <= k < r@.len() && r@[k] == p;
        }
    }
    r
}

/// Among distinct values in [lo, hi), fewer than hi - lo of them, one value is missing.
pub(crate) proof fn lemma_missing(s: Seq<int>, lo: int, hi: int) -> (x: int)
    requires
        lo <= hi,
        s.no_duplicates(),
        forall|k: int| 0 <= k < s.len() ==> lo <= #[trigger] s[k] < hi,
        s.len() < hi - lo,
    ensures
        lo <= x < hi,
        !s.contains(x),
{
    s.unique_seq_to_set();
    lemma_int_range(lo, hi);
    if forall|x: int| lo <= x < hi ==> s.contains(x) {
        assert(set_int_range(lo, hi).subset_of(s.to_set()));
        lemma_len_subset(set_int_range(lo, hi), s.to_set());
        assert(false);
    }
    choose|x: int| lo <= x < hi && !s.contains(x)
}

/// Distinct values in [lo, hi), exactly hi - lo of them, cover the range.
pub(crate) proof fn lemma_covers(s: Seq<int>, lo: int, hi: int, x: int)
    requires
        lo <= x < hi,
        s.no_duplicates(),
        forall|k: int| 0 <= k < s.len() ==> lo <= #[trigger] s[k] < hi,
        s.len() == hi - lo,
    ensures
        s.contains(x),
{
    if !s.contains(x) {
        s.unique_seq_to_set();
        lemma_int_range(lo, hi);
        let rest = set_int_range(lo, hi).remove(x);
        assert(s.to_set().subset_of(rest));
        lemma_len_subset(s.to_set(), rest);
        assert(false);
    }
}

pub open spec fn as_ints_usize(s: Seq<usize>) -> Seq<int> {
    Seq::new(s.len(), |k: int| s[k] as int)
}

pub open spec fn as_ints_u32(s: Seq<u32>) -> Seq<int> {
    Seq::new(s.len(), |k: int| s[k] as int)
}

/// How many unassigned people hold position `p` in their bag.
fn holders(bags: &Vec<Vec<u32>>, pos_of: &Vec<u32>, p: u32) -> (r: usize)
    requires
        pos_of@.len() == bags@.len(),
    ensures
        r <= bags@.len(),
        r == 0 <==> forall|i: int|
            0 <= i < bags@.len() ==> !(pos_of@[i] == 0 && bags@[i]@.contains(p)),
{
    let mut c: usize = 0;
    let mut i: usize = 0;
    while i < bags.len()
        invariant
            0 <= i <= bags.len(),
            pos_of@.len() == bags@.len(),
            c <= i,
            c == 0 <==> forall|j: int| 0 <= j < i ==> !(pos_of@[j] == 0 && bags@[j]@.contains(p)),
        decreases bags.len() - i,
    {
        if pos_of[i] == 0 && contains_pos(&bags[i], p) {
            c += 1;
        }
        i += 1;
    }
    c
}

/// The unassigned person with the smallest bag, first in order on ties; with
/// `only_holders`, among those whose bag holds `p`.
fn pick_person(bags: &Vec<Vec<u32>>, pos_of: &Vec<u32>, p: u32, only_holders: bool) -> (r: Option<
    usize,
>)
    requires
        pos_of@.len() == bags@.len(),
    ensures
        r matches Some(i) ==> i < bags@.len() && pos_of@[i as int] == 0 && (only_holders
            ==> bags@[i as int]@.contains(p)),
        r is None ==> forall|i: int|
            0 <= i < bags@.len() ==> !(pos_of@[i] == 0 && (only_holders ==> bags@[i]@.contains(
                p,
            ))),
        r matches Some(b) ==> forall|j: int|
            0 <= j < bags@.len() && pos_of@[j] == 0 && (only_holders ==> bags@[j]@.contains(p))
                ==> bags@[b as int]@.len() <= #[trigger] bags@[j]@.len(),
{
    let mut best: Option<usize> = None;
    let mut i: usize = 0;
    while i < bags.len()
        invariant
            0 <= i <= bags.len(),
            pos_of@.len() == bags@.len(),
            best matches Some(b) ==> b < i && pos_of@[b as int] == 0 && (only_holders
                ==> bags@[b as int]@.contains(p)),
            best is None ==> forall|j: int|
                0 <= j < i ==> !(pos_of@[j] == 0 && (only_holders ==> bags@[j]@.contains(p))),
            best matches Some(b) ==> forall|j: int|
                0 <= j < i && pos_of@[j] == 0 && (only_holders ==> bags@[j]@.contains(p))
                    ==> bags@[b as int]@.len() <= #[trigger] bags@[j]@.len(),
        decreases bags.len() - i,
    {
        if pos_of[i] == 0 && (!only_holders || contains_pos(&bags[i], p)) {
            match best {
                None => {
                    best = Some(i);
                },
                Some(b) => {
                    if bags[i].len() < bags[b].len() {
                        best = Some(i);
                    }
                },
            }
        }
        i += 1;
    }
    best
}

/// The next position to fill. Where some unfilled position is held by an unassigned
/// person, one of those: with `scarce`, the one with the fewest holders (lowest on ties),
/// else the lowest. Where none is, the lowest unfilled position. The flag tells which.
fn choose_position(bags: &Vec<Vec<u32>>, pos_of: &Vec<u32>, taken: &Vec<u32>, n: u32, scarce: bool) -> (r: (
    u32,
    bool,
))
    requires
        pos_of@.len() == bags@.len(),
        n < u32::MAX,
        exists|x: u32| 1 <= x <= n && !taken@.contains(x),
    ensures
        1 <= r.0 <= n,
        !taken@.contains(r.0),
        r.1 ==> exists|i: int| 0 <= i < bags@.len() && pos_of@[i] == 0 && bags@[i]@.contains(r.0),
        !r.1 ==> forall|i: int, q: u32|
            0 <= i < bags@.len() && pos_of@[i] == 0 && 1 <= q <= n && !taken@.contains(q)
                ==> !#[trigger] bags@[i]@.contains(q),
{
    let mut best: u32 = 0;
    let mut best_count: usize = 0;
    let mut first_free: u32 = 0;
    let mut q: u32 = 1;
    while q <= n
        invariant
            1 <= q <= n + 1,
            n < u32::MAX,
            pos_of@.len() == bags@.len(),
            first_free == 0 ==> forall|x: u32| 1 <= x < q ==> taken@.contains(x),
            first_free != 0 ==> 1 <= first_free < q && !taken@.contains(first_free),
            best != 0 ==> 1 <= best < q && !taken@.contains(best) && exists|i: int|
                0 <= i < bags@.len() && pos_of@[i] == 0 && bags@[i]@.contains(best),
            best == 0 ==> forall|i: int, x: u32|
                0 <= i < bags@.len() && pos_of@[i] == 0 && 1 <= x < q && !taken@.contains(x)
                    ==> !#[trigger] bags@[i]@.contains(x),
        decreases n + 1 - q,
    {
        if !contains_pos(taken, q) {
            if first_free == 0 {
                first_free = q;
            }
            let c = holders(bags, pos_of, q);
            if c > 0 && (best == 0 || (scarce && c < best_count)) {
                best = q;
                best_count = c;
            }
        }
        q += 1;
    }
    if best != 0 {
        (best, true)
    } else {
        (first_free, false)
    }
}

/// The positions were filled one person at a time in the given order (a permutation of
/// the people). At each step the person placed took a position from their own bag, as
/// the smallest bag among the people not yet placed that hold it; or else no person not
/// yet placed (the one placed included) held any position still unfilled at that step.
pub open spec fn fill_order_ok(bags: Seq<Seq<u32>>, r: Seq<u32>, order: Seq<usize>, n: int) -> bool {
    &&& order.len() == bags.len()
    &&& forall|t: int| 0 <= t < order.len() ==> (#[trigger] order[t]) < bags.len()
    &&& forall|a: int, b: int| 0 <= a < b < order.len() ==> order[a] != order[b]
    &&& forall|t: int|
        #![trigger order[t]]
        0 <= t < order.len() ==> {
            let i = order[t] as int;
            &&& (bags[i].contains(r[i]) || forall|j: int, q: u32|
                (0 <= j < bags.len() && unplaced(order, t - 1, j) && 1 <= q <= n && !filled_before(
                    r,
                    order,
                    t,
                    q,
                )) ==> !(#[trigger] bags[j].contains(q)))
            &&& (bags[i].contains(r[i]) ==> forall|j: int|
                (0 <= j < bags.len() && unplaced(order, t, j)) && (#[trigger] bags[j]).contains(r[i])
                    ==> bags[i].len() <= bags[j].len())
        }
}

/// The rotation rule over each person's cycle (`dones`): at each step of the order, the
/// person placed took a position from their bag, or else no person not yet placed held
/// in their bag any position still unfilled at that step.
pub open spec fn rotation_ok(dones: Seq<Seq<u32>>, n: int, r: Seq<u32>, order: Seq<usize>) -> bool {
    &&& order.len() == dones.len()
    &&& forall|t: int| 0 <= t < order.len() ==> (#[trigger] order[t]) < dones.len()
    &&& forall|a: int, b: int| 0 <= a < b < order.len() ==> order[a] != order[b]
    &&& forall|t: int|
        #![trigger order[t]]
        0 <= t < order.len() ==> bag_has(dones[order[t] as int], n, r[order[t] as int]) || forall|
            j: int,
            q: u32,
        |
            (0 <= j < dones.len() && unplaced(order, t - 1, j) && 1 <= q <= n && !filled_before(
                r,
                order,
                t,
                q,
            )) ==> !#[trigger] bag_has(dones[j], n, q)
}

/// Some step before `t` filled position `q`.
pub open spec fn filled_before(r: Seq<u32>, order: Seq<usize>, t: int, q: u32) -> bool {
    exists|t2: int| 0 <= t2 < t && r[order[t2] as int] == q
}

/// Person `j` was not yet placed when step `t` ended.
pub open spec fn unplaced(order: Seq<usize>, t: int, j: int) -> bool {
    !order.subrange(0, t + 1).contains(j as usize)
}

pub open spec fn bag_views(bags: Seq<Vec<u32>>) -> Seq<Seq<u32>> {
    Seq::new(bags.len(), |i: int| bags[i]@)
}

/// Gives each selected person (one bag each, in selection order) a distinct position
/// in 1..=n. Each step fills one position: the scarcest unfilled one (Scarcity) or the
/// next in order (Sequential), with the unassigned bag-holder of smallest bag; where
/// nobody holds it, an unassigned person takes it as the first of a refilled bag.
pub fn assign_positions(bags: &Vec<Vec<u32>>, n: u32, strategy: RotationStrategy) -> (r: Vec<u32>)
    requires
        bags@.len() <= n,
        n < u32::MAX,
    ensures
        r@.len() == bags@.len(),
        forall|i: int| 0 <= i < r@.len() ==> 1 <= #[trigger] r@[i] <= n,
        forall|i: int, j: int| 0 <= i < j < r@.len() ==> r@[i] != r@[j],
        exists|order: Seq<usize>| fill_order_ok(bag_views(bags@), r@, order, n as int),
{
    let m = bags.len();
    let mut pos_of: Vec<u32> = Vec::new();
    while pos_of.len() < m
        invariant
            pos_of@.len() <= m,
            m == bags@.len(),
            forall|i: int| 0 <= i < pos_of@.len() ==> pos_of@[i] == 0,
        decreases m - pos_of.len(),
    {
        pos_of.push(0);
    }
    let mut order: Vec<usize> = Vec::new();
    let mut taken: Vec<u32> = Vec::new();
    while order.len() < m
        invariant
            m == bags@.len(),
            m <= n,
            n < u32::MAX,
            pos_of@.len() == m,
            order@.len() == taken@.len(),
            order@.len() <= m,
            forall|k: int| 0 <= k < order@.len() ==> order@[k] < m,
            forall|a: int, b: int| 0 <= a < b < order@.len() ==> order@[a] != order@[b],
            forall|k: int| 0 <= k < taken@.len() ==> 1 <= #[trigger] taken@[k] <= n,
            forall|a: int, b: int| 0 <= a < b < taken@.len() ==> taken@[a] != taken@[b],
            forall|i: int| 0 <= i < m ==> (pos_of@[i] == 0 <==> !order@.contains(i as usize)),
            forall|k: int| 0 <= k < order@.len() ==> pos_of@[order@[k] as int] == taken@[k],
            forall|t: int|
                #![trigger order@[t]]
                0 <= t < order@.len() ==> step_ok(bags@, m as int, n as int, order@, taken@, t),
        decreases m - order.len(),
    {
        proof {
            let x = lemma_missing(as_ints_u32(taken@), 1, n + 1);
            assert(!taken@.contains(x as u32)) by {
                if taken@.contains(x as u32) {
                    let k = choose|k: int| 0 <= k < taken@.len() && taken@[k] == x as u32;
                    assert(as_ints_u32(taken@)[k] == x);
                }
            }
            let y = lemma_missing(as_ints_usize(order@), 0, m as int);
            assert(!order@.contains(y as usize)) by {
                if order@.contains(y as usize) {
                    let k = choose|k: int| 0 <= k < order@.len() && order@[k] == y as usize;
                    assert(as_ints_usize(order@)[k] == y);
                }
            }
            assert(pos_of@[y] == 0);
        }
        let scarce = match strategy {
            RotationStrategy::Scarcity => true,
            RotationStrategy::Sequential => false,
        };
        let (p, held) = choose_position(bags, &pos_of, &taken, n, scarce);
        let who = if held {
            pick_person(bags, &pos_of, p, true)
        } else {
            match strategy {
                RotationStrategy::Scarcity => pick_person(bags, &pos_of, p, false),
                RotationStrategy::Sequential => first_unassigned(&pos_of),
            }
        };
        let i = match who {
            Some(i) => i,
            None => {
                return pos_of;
            },
        };
        let ghost old_order = order@;
        let ghost old_pos = pos_of@;
        let ghost old_taken = taken@;
        pos_of.set(i, p);
        order.push(i);
        taken.push(p);
        proof {
            let n0 = old_order.len() as int;
            assert forall|t: int|
                #![trigger order@[t]]
                0 <= t < order@.len() implies step_ok(bags@, m as int, n as int, order@, taken@, t) by {
                if t < n0 {
                    assert(order@.subrange(0, t + 1) =~= old_order.subrange(0, t + 1));
                    assert(order@.subrange(0, t) =~= old_order.subrange(0, t));
                    assert(taken@.subrange(0, t) =~= old_taken.subrange(0, t));
                    assert(order@[t] == old_order[t]);
                    assert(taken@[t] == old_taken[t]);
                    assert(step_ok(bags@, m as int, n as int, old_order, old_taken, t));
                } else {
                    assert(order@[t] == i);
                    assert(taken@[t] == p);
                    assert(order@.subrange(0, t + 1) =~= old_order.push(i));
                    assert(order@.subrange(0, t) =~= old_order);
                    assert(taken@.subrange(0, t) =~= old_taken);
                    assert forall|j: int|
                        0 <= j < m && unplaced(order@, t - 1, j) implies old_pos[j] == 0 by {
                        if old_order.contains(j as usize) {
                            let k = choose|k: int| 0 <= k < old_order.len() && old_order[k] == j as usize;
                            assert(order@.subrange(0, t)[k] == j as usize);
                        }
                    }
                    assert forall|j: int|
                        0 <= j < m && unplaced(order@, t, j) implies old_pos[j] == 0 by {
                        if old_order.contains(j as usize) {
                            let k = choose|k: int| 0 <= k < old_order.len() && old_order[k] == j as usize;
                            assert(old_order.push(i)[k] == j as usize);
                        }
                    }
                    if held {
                        assert(bags@[i as int]@.contains(p));
                        assert forall|j: int|
                            (0 <= j < m && unplaced(order@, t, j)) && (#[trigger] bags@[j])@.contains(p)
                                implies bags@[i as int]@.len() <= bags@[j]@.len() by {
                            assert(old_pos[j] == 0);
                        }
                    } else {
                        assert forall|j: int, q: u32|
                            (0 <= j < m && unplaced(order@, t - 1, j) && 1 <= q <= n
                                && !taken@.subrange(0, t).contains(q)) implies !#[trigger] bags@[j]@.contains(q) by {
                            assert(old_pos[j] == 0);
                        }
                    }
                }
            }
            assert forall|j: int| 0 <= j < m implies (pos_of@[j] == 0 <==> !order@.contains(
                j as usize,
            )) by {
                if j == i as int {
                    assert(order@[order@.len() - 1] == i);
                } else {
                    if order@.contains(j as usize) {
                        let k = choose|k: int| 0 <= k < order@.len() && order@[k] == j as usize;
                        assert(old_order[k] == j as usize);
                    }
                    if old_order.contains(j as usize) {
                        let k = choose|k: int| 0 <= k < old_order.len() && old_order[k] == j as usize;
                        assert(order@[k] == j as usize);
                    }
                }
            }
        }
    }
    proof {
        assert forall|i: int| 0 <= i < m implies #[trigger] order@.contains(i as usize) by {
            lemma_covers(as_ints_usize(order@), 0, m as int, i);
            let k = choose|k: int|
                0 <= k < as_ints_usize(order@).len() && as_ints_usize(order@)[k] == i;
            assert(order@[k] == i as usize);
        }
        assert forall|i: int| 0 <= i < m implies 1 <= #[trigger] pos_of@[i] <= n by {
            assert(order@.contains(i as usize));
            let k = choose|k: int| 0 <= k < order@.len() && order@[k] == i as usize;
            assert(pos_of@[order@[k] as int] == taken@[k]);
        }
        assert forall|i: int, j: int| 0 <= i < j < m implies pos_of@[i] != pos_of@[j] by {
            assert(order@.contains(i as usize));
            assert(order@.contains(j as usize));
            let a = choose|k: int| 0 <= k < order@.len() && order@[k] == i as usize;
            let b = choose|k: int| 0 <= k < order@.len() && order@[k] == j as usize;
            assert(pos_of@[order@[a] as int] == taken@[a]);
            assert(pos_of@[order@[b] as int] == taken@[b]);
            assert(a != b);
        }
        let bv = bag_views(bags@);
        assert forall|t: int, q: u32| 0 <= t <= order@.len() implies (#[trigger] taken@.subrange(0, t).contains(q)
            <==> filled_before(pos_of@, order@, t, q)) by {
            if taken@.subrange(0, t).contains(q) {
                let k = choose|k: int| 0 <= k < t && taken@.subrange(0, t)[k] == q;
                assert(pos_of@[order@[k] as int] == q);
            }
            if filled_before(pos_of@, order@, t, q) {
                let k = choose|k: int| 0 <= k < t && pos_of@[order@[k] as int] == q;
                assert(taken@.subrange(0, t)[k] == q);
            }
        }
        assert forall|t: int| #![trigger order@[t]] 0 <= t < order@.len() implies {
            let i = order@[t] as int;
            &&& (bv[i].contains(pos_of@[i]) || forall|j: int, q: u32|
                (0 <= j < bv.len() && unplaced(order@, t - 1, j) && 1 <= q <= n && !filled_before(
                    pos_of@,
                    order@,
                    t,
                    q,
                )) ==> !(#[trigger] bv[j].contains(q)))
            &&& (bv[i].contains(pos_of@[i]) ==> forall|j: int|
                (0 <= j < bv.len() && unplaced(order@, t, j)) && (#[trigger] bv[j]).contains(pos_of@[i])
                    ==> bv[i].len() <= bv[j].len())
        } by {
            let i = order@[t] as int;
            assert(pos_of@[i] == taken@[t]);
            assert(step_ok(bags@, m as int, n as int, order@, taken@, t));
            assert forall|j: int| 0 <= j < bv.len() implies #[trigger] bv[j] == bags@[j]@ by {}
            assert forall|q: u32| true implies (#[trigger] taken@.subrange(0, t).contains(q)
                <==> filled_before(pos_of@, order@, t, q)) by {}
        }
        assert(fill_order_ok(bv, pos_of@, order@, n as int));
    }
    pos_of
}

/// What step `t` of filling satisfies, over the positions taken so far.
pub open spec fn step_ok(
    bags: Seq<Vec<u32>>,
    m: int,
    n: int,
    order: Seq<usize>,
    taken: Seq<u32>,
    t: int,
) -> bool {
    let i = order[t] as int;
    let p = taken[t];
    &&& (bags[i]@.contains(p) || forall|j: int, q: u32|
        (0 <= j < m && unplaced(order, t - 1, j) && 1 <= q <= n && !taken.subrange(0, t).contains(q))
            ==> !#[trigger] bags[j]@.contains(q))
    &&& (bags[i]@.contains(p) ==> forall|j: int|
        (0 <= j < m && unplaced(order, t, j)) && (#[trigger] bags[j])@.contains(p) ==> bags[i]@.len()
            <= bags[j]@.len())
}

/// The first person without a position.
fn first_unassigned(pos_of: &Vec<u32>) -> (r: Option<usize>)
    ensures
        r matches Some(i) ==> i < pos_of@.len() && pos_of@[i as int] == 0,
        r is None ==> forall|i: int| 0 <= i < pos_of@.len() ==> pos_of@[i] != 0,
{
    let mut i: usize = 0;
    while i < pos_of.len()
        invariant
            0 <= i <= pos_of.len(),
            forall|j: int| 0 <= j < i ==> pos_of@[j] != 0,
        decreases pos_of.len() - i,
    {
        if pos_of[i] == 0 {
            return Some(i);
        }
        i += 1;
    }
    None
}

} // verus!
