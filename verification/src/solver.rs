use vstd::prelude::*;
use vstd::pervasive::VecAdditionalExecFns;

use crate::board::{
    consistent, keeps_sols, lemma_contra_no_sol, narrows, rep_wf, spec_contradiction, spec_solved,
    valid_sol, Board, CellPos,
};
use crate::strategies::{
    direct_tuples, group_intersection, indirect_pairs, indirect_triples, lemma_dt_narrows,
    lemma_dt_sound, lemma_gi_narrows, lemma_gi_sound, lemma_ip_narrows, lemma_ip_sound,
    lemma_it_narrows, lemma_it_sound, lemma_ph_narrows, lemma_ph_sound, lemma_te_narrows,
    lemma_te_sound, peephole, spec_direct_tuples, spec_group_intersection, spec_indirect_pairs,
    spec_indirect_triples, spec_peephole, spec_trivial_eliminate, trivial_eliminate,
    STRATEGY_COUNT,
};
use crate::values::{card, lemma_card_mono, lemma_card_singleton, lemma_card_strict, CellValue};

verus! {

// ---------------------------------------------------------------------------
// A termination measure: the total number of candidates left on the board.
// ---------------------------------------------------------------------------

/// The candidates left in the first `n` cells, summed.
pub open spec fn total_upto(b: Seq<Set<int>>, n: int) -> nat
    decreases n,
{
    if n <= 0 {
        0
    } else {
        total_upto(b, n - 1) + card(b[n - 1])
    }
}

/// The candidates left on the whole board, summed.
pub open spec fn total_cands(b: Seq<Set<int>>) -> nat {
    total_upto(b, 81)
}

proof fn lemma_total_mono(a: Seq<Set<int>>, b: Seq<Set<int>>, n: int)
    requires
        narrows(a, b),
        n <= 81,
    ensures
        total_upto(b, n) <= total_upto(a, n),
    decreases n,
{
    if n > 0 {
        lemma_total_mono(a, b, n - 1);
        lemma_card_mono(b[n - 1], a[n - 1]);
    }
}

proof fn lemma_total_strict(a: Seq<Set<int>>, b: Seq<Set<int>>, n: int, i: int)
    requires
        narrows(a, b),
        0 <= i < n <= 81,
        card(b[i]) < card(a[i]),
    ensures
        total_upto(b, n) < total_upto(a, n),
    decreases n,
{
    if i == n - 1 {
        lemma_total_mono(a, b, n - 1);
    } else {
        lemma_total_strict(a, b, n - 1, i);
        lemma_card_mono(b[n - 1], a[n - 1]);
    }
}

/// A strict narrowing of any cell strictly lowers the candidate total.
pub proof fn lemma_narrow_decreases(a: Seq<Set<int>>, b: Seq<Set<int>>)
    requires
        rep_wf(a),
        narrows(a, b),
        a != b,
    ensures
        total_cands(b) < total_cands(a),
{
    assert(exists|i: int| 0 <= i < 81 && a[i] != b[i]) by {
        if forall|i: int| 0 <= i < 81 ==> a[i] == #[trigger] b[i] {
            assert(a =~= b);
        }
    }
    let i = choose|i: int| 0 <= i < 81 && a[i] != b[i];
    lemma_card_strict(b[i], a[i]);
    lemma_total_strict(a, b, 81, i);
}

proof fn lemma_total_update(b: Seq<Set<int>>, i: int, s: Set<int>, n: int)
    requires
        0 <= i < b.len(),
        b.len() == 81,
        n <= 81,
    ensures
        total_upto(b.update(i, s), n) == if i < n {
            total_upto(b, n) - card(b[i]) + card(s)
        } else {
            total_upto(b, n) as int
        },
    decreases n,
{
    if n > 0 {
        lemma_total_update(b, i, s, n - 1);
    }
}


// ---------------------------------------------------------------------------
// A functional model of one propagation run: which strategy fires next, what
// the fixpoint looks like, and the strongest index that fired along the way.
// ---------------------------------------------------------------------------

/// The snapshot strategy number `i` leaves behind, in strength order.
pub open spec fn strat_at(i: int, b: Seq<Set<int>>) -> Seq<Set<int>> {
    if i == 0 {
        spec_trivial_eliminate(b)
    } else if i == 1 {
        spec_peephole(b)
    } else if i == 2 {
        spec_group_intersection(b)
    } else if i == 3 {
        spec_direct_tuples(b)
    } else if i == 4 {
        spec_indirect_pairs(b)
    } else {
        spec_indirect_triples(b)
    }
}

/// The index of the first strategy that changes the snapshot, or the
/// strategy count when all six leave it alone.
pub open spec fn first_change(b: Seq<Set<int>>) -> int {
    if strat_at(0, b) != b {
        0
    } else if strat_at(1, b) != b {
        1
    } else if strat_at(2, b) != b {
        2
    } else if strat_at(3, b) != b {
        3
    } else if strat_at(4, b) != b {
        4
    } else if strat_at(5, b) != b {
        5
    } else {
        6
    }
}

/// The larger of two counts.
pub open spec fn nmax(a: nat, b: nat) -> nat {
    if a >= b {
        a
    } else {
        b
    }
}

/// What the propagation loop computes: starting from `b`, apply the first
/// strategy that changes the board and restart, until the board is solved,
/// contradictory, or a fixpoint of all six strategies; the second component
/// is the strongest strategy index that fired.
pub open spec fn spec_reduce(b: Seq<Set<int>>) -> (Seq<Set<int>>, nat)
    decreases total_cands(b),
        via spec_reduce_decreases
{
    if !rep_wf(b) || spec_contradiction(b) || spec_solved(b) || first_change(b) == 6 {
        (b, 0)
    } else {
        let rec = spec_reduce(strat_at(first_change(b), b));
        (rec.0, nmax(first_change(b) as nat, rec.1))
    }
}

proof fn lemma_strat_at_narrows(b: Seq<Set<int>>, i: int)
    requires
        b.len() == 81,
        0 <= i < 6,
    ensures
        narrows(b, strat_at(i, b)),
{
    if i == 0 {
        lemma_te_narrows(b);
    } else if i == 1 {
        lemma_ph_narrows(b);
    } else if i == 2 {
        lemma_gi_narrows(b);
    } else if i == 3 {
        lemma_dt_narrows(b);
    } else if i == 4 {
        lemma_ip_narrows(b);
    } else {
        lemma_it_narrows(b);
    }
}

proof fn lemma_strat_at_sound(b: Seq<Set<int>>, i: int, sol: Seq<int>)
    requires
        rep_wf(b),
        0 <= i < 6,
        valid_sol(sol),
        consistent(b, sol),
    ensures
        consistent(strat_at(i, b), sol),
{
    if i == 0 {
        lemma_te_sound(b, sol);
    } else if i == 1 {
        lemma_ph_sound(b, sol);
    } else if i == 2 {
        lemma_gi_sound(b, sol);
    } else if i == 3 {
        lemma_dt_sound(b, sol);
    } else if i == 4 {
        lemma_ip_sound(b, sol);
    } else {
        lemma_it_sound(b, sol);
    }
}

#[via_fn]
proof fn spec_reduce_decreases(b: Seq<Set<int>>) {
    if !(!rep_wf(b) || spec_contradiction(b) || spec_solved(b) || first_change(b) == 6) {
        let i = first_change(b);
        lemma_strat_at_narrows(b, i);
        lemma_narrow_decreases(b, strat_at(i, b));
    }
}

// ---------------------------------------------------------------------------
// The memo table: hypothetical boards mapped to their contradiction verdict.
// ---------------------------------------------------------------------------

/// No valid assignment is admitted by the snapshot.
pub open spec fn no_sols(b: Seq<Set<int>>) -> bool {
    forall|sol: Seq<int>| !(valid_sol(sol) && #[trigger] consistent(b, sol))
}

/// Every cached `true` verdict really means the board admits no assignment.
pub open spec fn memo_sound(m: Map<Seq<Set<int>>, bool>) -> bool {
    forall|k: Seq<Set<int>>| #[trigger] m.contains_key(k) && m[k] ==> no_sols(k)
}

/// A cache of fully-propagated hypothetical boards and whether each one was
/// proven contradictory; scoped to one top-level solve call.
pub struct Memo {
    entries: Vec<(Board, bool)>,
}

spec fn memo_map(entries: Seq<(Board, bool)>) -> Map<Seq<Set<int>>, bool>
    decreases entries.len(),
{
    if entries.len() == 0 {
        Map::<Seq<Set<int>>, bool>::empty()
    } else {
        memo_map(entries.drop_last()).insert(entries.last().0@, entries.last().1)
    }
}

impl View for Memo {
    type V = Map<Seq<Set<int>>, bool>;

    closed spec fn view(&self) -> Map<Seq<Set<int>>, bool> {
        memo_map(self.entries@)
    }
}

proof fn lemma_memo_map_props(entries: Seq<(Board, bool)>)
    ensures
        forall|k: Seq<Set<int>>|
            #[trigger] memo_map(entries).contains_key(k) <==> exists|i: int|
                0 <= i < entries.len() && (#[trigger] entries[i]).0@ == k,
        forall|i: int|
            0 <= i < entries.len() && (forall|j: int|
                i < j < entries.len() ==> (#[trigger] entries[j]).0@ != entries[i].0@)
                ==> memo_map(entries)[(#[trigger] entries[i]).0@] == entries[i].1,
    decreases entries.len(),
{
    if entries.len() > 0 {
        lemma_memo_map_props(entries.drop_last());
        assert forall|k: Seq<Set<int>>| #[trigger] memo_map(entries).contains_key(k) implies exists|
            i: int,
        | 0 <= i < entries.len() && (#[trigger] entries[i]).0@ == k by {
            if k == entries.last().0@ {
                assert((entries[entries.len() - 1]).0@ == k);
            } else {
                assert(entries.drop_last().len() == entries.len() - 1);
                assert(memo_map(entries.drop_last()).contains_key(k));
                let i = choose|i: int|
                    0 <= i < entries.drop_last().len() && (#[trigger] entries.drop_last()[i]).0@
                        == k;
                assert(entries.drop_last()[i] == entries[i]);
                assert((entries[i]).0@ == k);
            }
        }
        assert forall|k: Seq<Set<int>>|
            (exists|i: int| 0 <= i < entries.len() && (#[trigger] entries[i]).0@ == k) implies (
        #[trigger] memo_map(entries).contains_key(k)) by {
            let i = choose|i: int| 0 <= i < entries.len() && (#[trigger] entries[i]).0@ == k;
            if i < entries.len() - 1 {
                assert(entries.drop_last()[i] == entries[i]);
                assert((entries.drop_last()[i]).0@ == k);
                assert(memo_map(entries.drop_last()).contains_key(k));
            }
        }
        assert forall|i: int|
            0 <= i < entries.len() && (forall|j: int|
                i < j < entries.len() ==> (#[trigger] entries[j]).0@ != entries[i].0@) implies
            memo_map(entries)[(#[trigger] entries[i]).0@] == entries[i].1 by {
            if i < entries.len() - 1 {
                assert((entries[entries.len() - 1]).0@ != entries[i].0@);
                assert(entries.drop_last()[i] == entries[i]);
                assert(forall|j: int|
                    i < j < entries.len() - 1 ==> #[trigger] entries.drop_last()[j]
                        == entries[j]);
            }
        }
    }
}

impl Memo {
    /// Every stored board is well formed.
    pub closed spec fn wf(&self) -> bool {
        forall|i: int| 0 <= i < self.entries@.len() ==> (#[trigger] self.entries@[i]).0.wf()
    }

    /// A fresh, empty memo table.
    pub fn new() -> (r: Memo)
        ensures
            r.wf(),
            r@ == Map::<Seq<Set<int>>, bool>::empty(),
            memo_sound(r@),
    {
        Memo { entries: Vec::new() }
    }

    /// Whether nothing has been cached yet.
    pub fn is_empty(&self) -> (r: bool)
        ensures
            r == (self@ == Map::<Seq<Set<int>>, bool>::empty()),
    {
        let r = self.entries.len() == 0;
        proof {
            if self.entries@.len() == 0 {
                assert(self@ =~= Map::<Seq<Set<int>>, bool>::empty());
            } else {
                lemma_memo_map_props(self.entries@);
                let k = self.entries@.last().0@;
                assert((self.entries@[self.entries@.len() - 1]).0@ == k);
                assert(self@.contains_key(k));
                assert(!Map::<Seq<Set<int>>, bool>::empty().contains_key(k));
            }
        }
        r
    }

    /// The cached verdict for a board equal in content, if one is stored.
    pub fn get(&self, board: &Board) -> (r: Option<bool>)
        requires
            self.wf(),
            board.wf(),
        ensures
            r == if self@.contains_key(board@) {
                Some(self@[board@])
            } else {
                None
            },
    {
        proof {
            lemma_memo_map_props(self.entries@);
        }
        let n = self.entries.len();
        let mut i: usize = n;
        while i > 0
            invariant
                self.wf(),
                board.wf(),
                n == self.entries@.len(),
                i <= n,
                forall|j: int| i <= j < n ==> (#[trigger] self.entries@[j]).0@ != board@,
            decreases i,
        {
            i = i - 1;
            let (b, v) = (&self.entries[i].0, self.entries[i].1);
            if b.grid_eq(board) {
                proof {
                    lemma_memo_map_props(self.entries@);
                    assert((self.entries@[i as int]).0@ == board@);
                    assert(self@.contains_key(board@));
                    assert(self@[(self.entries@[i as int]).0@] == self.entries@[i as int].1);
                }
                return Some(v);
            }
        }
        proof {
            if self@.contains_key(board@) {
                let j = choose|j: int|
                    0 <= j < self.entries@.len() && (#[trigger] self.entries@[j]).0@ == board@;
            }
        }
        None
    }

    /// Cache a verdict; a `true` verdict must be backed by unsolvability.
    pub fn insert(&mut self, board: Board, verdict: bool)
        requires
            old(self).wf(),
            board.wf(),
            memo_sound(old(self)@),
            verdict ==> no_sols(board@),
        ensures
            final(self).wf(),
            final(self)@ == old(self)@.insert(board@, verdict),
            memo_sound(final(self)@),
            final(self)@.dom().contains(board@),
    {
        proof {
            lemma_memo_map_props(self.entries@);
        }
        let ghost olde = self.entries@;
        self.entries.push((board, verdict));
        proof {
            assert(self.entries@.drop_last() =~= olde);
            assert(self@ == memo_map(olde).insert(self.entries@.last().0@, verdict));
            assert forall|k: Seq<Set<int>>|
                #[trigger] final(self)@.contains_key(k) && final(self)@[k] implies no_sols(k) by {
                if k != self.entries@.last().0@ {
                    assert(memo_map(olde).contains_key(k) && memo_map(olde)[k]);
                }
            }
        }
    }
}

// ---------------------------------------------------------------------------
// The solver: propagation to a fixpoint, then memoized hypothesis testing.
// ---------------------------------------------------------------------------

/// No strategy changes the snapshot any more.
pub open spec fn all_fixpoint(b: Seq<Set<int>>) -> bool {
    spec_trivial_eliminate(b) == b && spec_peephole(b) == b && spec_group_intersection(b) == b
        && spec_direct_tuples(b) == b && spec_indirect_pairs(b) == b && spec_indirect_triples(b)
        == b
}

/// Run propagation rounds until the board is solved, contradictory, or no
/// strategy fires any more; the rank returned is the strongest strategy
/// index that fired.
#[verifier::loop_isolation(false)]
pub fn reduce(board: Board) -> (res: (Board, usize))
    requires
        board.wf(),
    ensures
        res.0.wf(),
        narrows(board@, res.0@),
        keeps_sols(board@, res.0@),
        res.1 < STRATEGY_COUNT,
        res.0@ == spec_reduce(board@).0,
        res.1 as nat == spec_reduce(board@).1,
        spec_solved(res.0@) || spec_contradiction(res.0@) || all_fixpoint(res.0@),
{
    let mut board = board;
    let mut difficulty: usize = 0;
    let ghost b0 = board@;
    proof {
        board.lemma_rep_wf();
    }
    loop
        invariant
            board.wf(),
            b0.len() == 81,
            rep_wf(b0),
            narrows(b0, board@),
            keeps_sols(b0, board@),
            difficulty < 6,
            spec_reduce(b0).0 == spec_reduce(board@).0,
            spec_reduce(b0).1 == nmax(difficulty as nat, spec_reduce(board@).1),
        decreases total_cands(board@),
    {
        proof {
            board.lemma_rep_wf();
        }
        if board.is_contradiction() || board.is_solved() {
            proof {
                assert(spec_reduce(board@) == (board@, 0nat));
            }
            return (board, difficulty);
        }
        let next = trivial_eliminate(&board);
        if !next.grid_eq(&board) {
            proof {
                lemma_te_narrows(board@);
                lemma_narrow_decreases(board@, next@);
                assert(first_change(board@) == 0);
                assert(spec_reduce(board@).0 == spec_reduce(next@).0 && spec_reduce(board@).1
                    == nmax(0nat, spec_reduce(next@).1));
                assert forall|sol: Seq<int>|
                    valid_sol(sol) && #[trigger] consistent(b0, sol) implies consistent(
                    next@,
                    sol,
                ) by {
                    assert(consistent(board@, sol));
                    lemma_te_sound(board@, sol);
                }
                crate::strategies::lemma_narrows_trans(b0, board@, next@);
            }
            board = next;
            continue ;
        }
        let next = peephole(&board);
        if !next.grid_eq(&board) {
            proof {
                lemma_ph_narrows(board@);
                lemma_narrow_decreases(board@, next@);
                assert(first_change(board@) == 1);
                assert(spec_reduce(board@).0 == spec_reduce(next@).0 && spec_reduce(board@).1
                    == nmax(1nat, spec_reduce(next@).1));
                assert forall|sol: Seq<int>|
                    valid_sol(sol) && #[trigger] consistent(b0, sol) implies consistent(
                    next@,
                    sol,
                ) by {
                    assert(consistent(board@, sol));
                    lemma_ph_sound(board@, sol);
                }
                crate::strategies::lemma_narrows_trans(b0, board@, next@);
            }
            board = next;
            if difficulty < 1 {
                difficulty = 1;
            }
            continue ;
        }
        let next = group_intersection(&board);
        if !next.grid_eq(&board) {
            proof {
                lemma_gi_narrows(board@);
                lemma_narrow_decreases(board@, next@);
                assert(first_change(board@) == 2);
                assert(spec_reduce(board@).0 == spec_reduce(next@).0 && spec_reduce(board@).1
                    == nmax(2nat, spec_reduce(next@).1));
                assert forall|sol: Seq<int>|
                    valid_sol(sol) && #[trigger] consistent(b0, sol) implies consistent(
                    next@,
                    sol,
                ) by {
                    assert(consistent(board@, sol));
                    lemma_gi_sound(board@, sol);
                }
                crate::strategies::lemma_narrows_trans(b0, board@, next@);
            }
            board = next;
            if difficulty < 2 {
                difficulty = 2;
            }
            continue ;
        }
        let next = direct_tuples(&board);
        if !next.grid_eq(&board) {
            proof {
                lemma_dt_narrows(board@);
                lemma_narrow_decreases(board@, next@);
                assert(first_change(board@) == 3);
                assert(spec_reduce(board@).0 == spec_reduce(next@).0 && spec_reduce(board@).1
                    == nmax(3nat, spec_reduce(next@).1));
                assert forall|sol: Seq<int>|
                    valid_sol(sol) && #[trigger] consistent(b0, sol) implies consistent(
                    next@,
                    sol,
                ) by {
                    assert(consistent(board@, sol));
                    lemma_dt_sound(board@, sol);
                }
                crate::strategies::lemma_narrows_trans(b0, board@, next@);
            }
            board = next;
            if difficulty < 3 {
                difficulty = 3;
            }
            continue ;
        }
        let next = indirect_pairs(&board);
        if !next.grid_eq(&board) {
            proof {
                lemma_ip_narrows(board@);
                lemma_narrow_decreases(board@, next@);
                assert(first_change(board@) == 4);
                assert(spec_reduce(board@).0 == spec_reduce(next@).0 && spec_reduce(board@).1
                    == nmax(4nat, spec_reduce(next@).1));
                assert forall|sol: Seq<int>|
                    valid_sol(sol) && #[trigger] consistent(b0, sol) implies consistent(
                    next@,
                    sol,
                ) by {
                    assert(consistent(board@, sol));
                    lemma_ip_sound(board@, sol);
                }
                crate::strategies::lemma_narrows_trans(b0, board@, next@);
            }
            board = next;
            if difficulty < 4 {
                difficulty = 4;
            }
            continue ;
        }
        let next = indirect_triples(&board);
        if !next.grid_eq(&board) {
            proof {
                lemma_it_narrows(board@);
                lemma_narrow_decreases(board@, next@);
                assert(first_change(board@) == 5);
                assert(spec_reduce(board@).0 == spec_reduce(next@).0 && spec_reduce(board@).1
                    == nmax(5nat, spec_reduce(next@).1));
                assert forall|sol: Seq<int>|
                    valid_sol(sol) && #[trigger] consistent(b0, sol) implies consistent(
                    next@,
                    sol,
                ) by {
                    assert(consistent(board@, sol));
                    lemma_it_sound(board@, sol);
                }
                crate::strategies::lemma_narrows_trans(b0, board@, next@);
            }
            board = next;
            if difficulty < 5 {
                difficulty = 5;
            }
            continue ;
        }
        proof {
            assert(first_change(board@) == 6);
            assert(spec_reduce(board@) == (board@, 0nat));
        }
        return (board, difficulty);
    }
}

/// Two hypotheses at one cell differ as boards.
proof fn lemma_hyp_distinct(b: Seq<Set<int>>, p: int, w: int, v: int)
    requires
        0 <= p < b.len(),
        w != v,
    ensures
        b.update(p, set![w]) != b.update(p, set![v]),
{
    assert(set![w].contains(w));
    assert(!set![v].contains(w));
    assert(b.update(p, set![w])[p] == set![w]);
    assert(b.update(p, set![v])[p] == set![v]);
}

/// Test each candidate of the cell at `pos` as a hypothesis, in ascending
/// value order: the first one whose fully-propagated hypothetical board is
/// contradictory is returned, consulting and filling the memo table. On
/// `None`, every candidate's hypothesis sits in the memo with a `false`
/// verdict; on `Some(v)`, the value's own hypothesis is cached `true` and
/// every smaller candidate's hypothesis is cached `false`.
#[verifier::loop_isolation(false)]
pub fn find_contradiction(board: &Board, pos: CellPos, memo: &mut Memo) -> (r: Option<CellValue>)
    requires
        board.wf(),
        old(memo).wf(),
        memo_sound(old(memo)@),
        pos.0 < 9,
        pos.1 < 9,
        card(board@[pos.0 * 9 + pos.1]) >= 2,
    ensures
        final(memo).wf(),
        memo_sound(final(memo)@),
        forall|k: Seq<Set<int>>|
            old(memo)@.contains_key(k) ==> final(memo)@.contains_key(k) && final(memo)@[k]
                == old(memo)@[k],
        forall|k: Seq<Set<int>>|
            final(memo)@.contains_key(k) && !old(memo)@.contains_key(k) ==> total_cands(k)
                < total_cands(board@),
        match r {
            Some(v) => board@[pos.0 * 9 + pos.1].contains(v.as_int()) && final(memo)@.contains_key(board@.update(pos.0 * 9 + pos.1, set![v.as_int()])) && final(memo)@[board@.update(pos.0 * 9 + pos.1, set![v.as_int()])] && (forall|w: int|
                1 <= w < v.as_int() && board@[pos.0 * 9 + pos.1].contains(w) ==> final(memo)@.contains_key(board@.update(pos.0 * 9 + pos.1, set![w])) && !final(memo)@[board@.update(pos.0 * 9 + pos.1, set![w])]) && (forall|sol: Seq<int>|
                valid_sol(sol) && #[trigger] consistent(board@, sol) ==> sol[pos.0 * 9 + pos.1]
                    != v.as_int()),
            None => forall|w: int|
                1 <= w <= 9 && board@[pos.0 * 9 + pos.1].contains(w) ==> final(memo)@.contains_key(board@.update(pos.0 * 9 + pos.1, set![w])) && !final(memo)@[board@.update(pos.0 * 9 + pos.1, set![w])],
        },
    decreases total_cands(board@), 0nat,
{
    let p = pos.0 * 9 + pos.1;
    let cell = board.cell_flat(p);
    let mut vi: usize = 0;
    while vi < 9
        invariant
            board.wf(),
            memo.wf(),
            memo_sound(memo@),
            p == pos.0 * 9 + pos.1,
            p < 81,
            cell@ == board@[p as int],
            card(board@[p as int]) >= 2,
            vi <= 9,
            forall|k: Seq<Set<int>>|
                old(memo)@.contains_key(k) ==> memo@.contains_key(k) && memo@[k] == old(memo)@[k],
            forall|k: Seq<Set<int>>|
                memo@.contains_key(k) && !old(memo)@.contains_key(k) ==> total_cands(k)
                    < total_cands(board@),
            forall|w: int|
                1 <= w <= vi && board@[p as int].contains(w) ==> memo@.contains_key(
                    board@.update(p as int, set![w]),
                ) && !memo@[board@.update(p as int, set![w])],
        decreases 9 - vi,
    {
        let v = CellValue::from_index(vi);
        if cell.contains(v) {
            let mut hyp = board.clone();
            let mut hc = hyp.cell_flat(p);
            hc.set(v);
            hyp.set_flat(p, hc);
            proof {
                assert(hyp@ == board@.update(p as int, set![v.as_int()]));
                board.lemma_rep_wf();
                lemma_card_singleton(v.as_int());
                lemma_total_update(board@, p as int, set![v.as_int()], 81);
                assert(total_cands(hyp@) < total_cands(board@));
            }
            let cached = memo.get(&hyp);
            let verdict: bool;
            match cached {
                Some(vd) => {
                    verdict = vd;
                },
                None => {
                    let hyp2 = hyp.clone();
                    let (bres, _drank) = solve(hyp2, memo);
                    let contra = bres.is_contradiction();
                    proof {
                        if contra {
                            bres.lemma_rep_wf();
                            assert forall|sol: Seq<int>|
                                !(valid_sol(sol) && #[trigger] consistent(hyp@, sol)) by {
                                if valid_sol(sol) && consistent(hyp@, sol) {
                                    assert(consistent(bres@, sol));
                                    lemma_contra_no_sol(bres@, sol);
                                }
                            }
                        }
                        // The recursion adds only strictly smaller boards, so
                        // the hypothesis itself is still absent.
                        assert(!memo@.contains_key(hyp@));
                    }
                    memo.insert(hyp, contra);
                    verdict = contra;
                },
            }
            if verdict {
                proof {
                    board.lemma_rep_wf();
                    let hv = board@.update(p as int, set![v.as_int()]);
                    assert(memo_sound(memo@));
                    assert(no_sols(hv));
                    assert forall|sol: Seq<int>|
                        valid_sol(sol) && #[trigger] consistent(board@, sol) implies sol[p as int]
                        != v.as_int() by {
                        if sol[p as int] == v.as_int() {
                            assert(consistent(hv, sol)) by {
                                assert(forall|i: int|
                                    0 <= i < 81 && i != p ==> (#[trigger] hv[i]).contains(sol[i]));
                                assert(hv[p as int].contains(sol[p as int]));
                            }
                        }
                    }
                }
                return Some(v);
            }
            proof {
                assert forall|w: int|
                    1 <= w <= vi + 1 && board@[p as int].contains(w) implies memo@.contains_key(
                    board@.update(p as int, set![w]),
                ) && !memo@[board@.update(p as int, set![w])] by {
                    if w == v.as_int() {
                        assert(memo@.contains_key(hyp@) && !memo@[hyp@]);
                    } else {
                        lemma_hyp_distinct(board@, p as int, w, v.as_int());
                    }
                }
            }
        } else {
            proof {
                assert(!board@[p as int].contains(vi + 1));
            }
        }
        vi = vi + 1;
    }
    None
}

/// Scan the ambiguous cells in ascending candidate-count order (row-major on
/// ties) and remove the first candidate proven contradictory; reports whether
/// a removal happened. When none was, every candidate of every ambiguous
/// cell has its hypothesis cached in the memo with a `false` verdict.
#[verifier::loop_isolation(false)]
fn try_eliminate(board: &mut Board, memo: &mut Memo) -> (r: bool)
    requires
        old(board).wf(),
        old(memo).wf(),
        memo_sound(old(memo)@),
    ensures
        final(board).wf(),
        final(memo).wf(),
        memo_sound(final(memo)@),
        forall|k: Seq<Set<int>>|
            old(memo)@.contains_key(k) ==> final(memo)@.contains_key(k) && final(memo)@[k]
                == old(memo)@[k],
        forall|k: Seq<Set<int>>|
            final(memo)@.contains_key(k) && !old(memo)@.contains_key(k) ==> total_cands(k)
                < total_cands(old(board)@),
        !r ==> final(board)@ == old(board)@,
        !r ==> forall|i: int, w: int|
            0 <= i < 81 && card(old(board)@[i]) >= 2 && 1 <= w <= 9 && old(board)@[i].contains(w) ==> final(memo)@.contains_key(old(board)@.update(i, set![w]))
                && !final(memo)@[old(board)@.update(i, set![w])],
        r ==> narrows(old(board)@, final(board)@) && keeps_sols(old(board)@, final(board)@)
            && total_cands(final(board)@) < total_cands(old(board)@),
        !spec_solved(old(board)@) && !spec_contradiction(old(board)@) ==> exists|
            k: Seq<Set<int>>,
        | #[trigger] final(memo)@.contains_key(k),
    decreases total_cands(old(board)@), 1nat,
{
    let mut s: usize = 2;
    while s <= 9
        invariant
            board.wf(),
            memo.wf(),
            memo_sound(memo@),
            board@ == old(board)@,
            2 <= s <= 10,
            forall|k: Seq<Set<int>>|
                old(memo)@.contains_key(k) ==> memo@.contains_key(k) && memo@[k] == old(memo)@[k],
            forall|k: Seq<Set<int>>|
                memo@.contains_key(k) && !old(memo)@.contains_key(k) ==> total_cands(k)
                    < total_cands(old(board)@),
            forall|i: int, w: int|
                0 <= i < 81 && 2 <= card(board@[i]) < s && 1 <= w <= 9 && board@[i].contains(w)
                    ==> memo@.contains_key(board@.update(i, set![w])) && !memo@[board@.update(
                    i,
                    set![w],
                )],
        decreases 10 - s,
    {
        let mut rr: usize = 0;
        while rr < 9
            invariant
                board.wf(),
                memo.wf(),
                memo_sound(memo@),
                board@ == old(board)@,
                2 <= s <= 9,
                rr <= 9,
                forall|k: Seq<Set<int>>|
                    old(memo)@.contains_key(k) ==> memo@.contains_key(k) && memo@[k] == old(memo)@[k],
                forall|k: Seq<Set<int>>|
                    memo@.contains_key(k) && !old(memo)@.contains_key(k) ==> total_cands(k)
                        < total_cands(old(board)@),
                forall|i: int, w: int|
                    0 <= i < 81 && 1 <= w <= 9 && board@[i].contains(w) && (2 <= card(board@[i])
                        < s || (card(board@[i]) == s && i < rr * 9)) ==> memo@.contains_key(
                        board@.update(i, set![w]),
                    ) && !memo@[board@.update(i, set![w])],
            decreases 9 - rr,
        {
            let mut cc: usize = 0;
            while cc < 9
                invariant
                    board.wf(),
                    memo.wf(),
                    memo_sound(memo@),
                    board@ == old(board)@,
                    2 <= s <= 9,
                    rr < 9,
                    cc <= 9,
                    forall|k: Seq<Set<int>>|
                        old(memo)@.contains_key(k) ==> memo@.contains_key(k) && memo@[k] == old(memo)@[k],
                    forall|k: Seq<Set<int>>|
                        memo@.contains_key(k) && !old(memo)@.contains_key(k) ==> total_cands(k)
                            < total_cands(old(board)@),
                    forall|i: int, w: int|
                        0 <= i < 81 && 1 <= w <= 9 && board@[i].contains(w) && (2 <= card(
                            board@[i],
                        ) < s || (card(board@[i]) == s && i < rr * 9 + cc)) ==> memo@.contains_key(
                            board@.update(i, set![w]),
                        ) && !memo@[board@.update(i, set![w])],
                decreases 9 - cc,
            {
                let cell = board.cell_at(rr, cc);
                if cell.candidate_count() == s {
                    match find_contradiction(board, (rr, cc), memo) {
                        Some(v) => {
                            let ghost before = board@;
                            proof {
                                board.lemma_rep_wf();
                            }
                            let p = rr * 9 + cc;
                            let mut nc = board.cell_flat(p);
                            nc.remove(v);
                            board.set_flat(p, nc);
                            proof {
                                assert(rep_wf(before));
                                assert(board@ == before.update(
                                    p as int,
                                    before[p as int].remove(v.as_int()),
                                ));
                                assert(narrows(before, board@));
                                assert(board@[p as int] != before[p as int]) by {
                                    assert(before[p as int].contains(v.as_int()));
                                    assert(!board@[p as int].contains(v.as_int()));
                                }
                                lemma_narrow_decreases(before, board@);
                                assert forall|sol: Seq<int>|
                                    valid_sol(sol) && #[trigger] consistent(
                                        before,
                                        sol,
                                    ) implies consistent(board@, sol) by {
                                    assert(sol[p as int] != v.as_int());
                                    assert(forall|i: int|
                                        0 <= i < 81 && i != p ==> (#[trigger] board@[i]).contains(
                                            sol[i],
                                        ));
                                    assert(board@[p as int].contains(sol[p as int]));
                                }
                            }
                            proof {
                                assert(memo@.contains_key(
                                    before.update(p as int, set![v.as_int()]),
                                ));
                            }
                            return true;
                        },
                        None => {},
                    }
                }
                cc = cc + 1;
            }
            rr = rr + 1;
        }
        s = s + 1;
    }
    proof {
        board.lemma_rep_wf();
        assert forall|i: int, w: int|
            0 <= i < 81 && card(board@[i]) >= 2 && 1 <= w <= 9 && #[trigger] board@[i].contains(
            w,
        ) implies memo@.contains_key(#[trigger] board@.update(i, set![w])) && !memo@[board@.update(
            i,
            set![w],
        )] by {
            crate::values::lemma_card_mono(board@[i], crate::values::all_vals());
            crate::values::lemma_card_all();
        }
        if !spec_solved(board@) && !spec_contradiction(board@) {
            let i = choose|i: int| 0 <= i < 81 && card(board@[i]) != 1;
            assert(board@[i] != Set::<int>::empty());
            assert(exists|w: int| board@[i].contains(w)) by {
                if forall|w: int| !board@[i].contains(w) {
                    assert(board@[i] =~= Set::<int>::empty());
                }
            }
            let w = choose|w: int| board@[i].contains(w);
            assert(1 <= w <= 9);
            assert(card(board@[i]) != 0) by {
                if card(board@[i]) == 0 {
                    crate::values::lemma_card_zero(board@[i]);
                }
            }
            assert(memo@.contains_key(board@.update(i, set![w])));
        }
    }
    false
}

/// Drive propagation and guess-and-check to a terminal state: a solved
/// board, a contradictory board, or an ambiguous board on which no candidate
/// of any cell could be proven contradictory (each such hypothesis is then
/// cached `false` in the memo). When propagation alone settles the board the
/// result and rank are exactly `spec_reduce`'s and the memo is untouched;
/// once guessing is entered the rank is the strategy count itself.
#[verifier::loop_isolation(false)]
pub fn solve(board: Board, memo: &mut Memo) -> (res: (Board, usize))
    requires
        board.wf(),
        old(memo).wf(),
        memo_sound(old(memo)@),
    ensures
        res.0.wf(),
        final(memo).wf(),
        memo_sound(final(memo)@),
        forall|k: Seq<Set<int>>|
            old(memo)@.contains_key(k) ==> final(memo)@.contains_key(k) && final(memo)@[k]
                == old(memo)@[k],
        forall|k: Seq<Set<int>>|
            final(memo)@.contains_key(k) && !old(memo)@.contains_key(k) ==> total_cands(k)
                < total_cands(board@),
        narrows(board@, res.0@),
        keeps_sols(board@, res.0@),
        res.1 <= STRATEGY_COUNT,
        spec_solved(spec_reduce(board@).0) || spec_contradiction(spec_reduce(board@).0) ==> (
        res.0@ == spec_reduce(board@).0 && res.1 as nat == spec_reduce(board@).1 && final(memo)@
            == old(memo)@),
        !(spec_solved(spec_reduce(board@).0) || spec_contradiction(spec_reduce(board@).0))
            ==> res.1 == STRATEGY_COUNT && (exists|k: Seq<Set<int>>|
            #[trigger] final(memo)@.contains_key(k)),
        spec_solved(res.0@) || spec_contradiction(res.0@) || all_fixpoint(res.0@),
        !(spec_solved(res.0@) || spec_contradiction(res.0@)) ==> forall|i: int, w: int|
            0 <= i < 81 && card(res.0@[i]) >= 2 && 1 <= w <= 9 && res.0@[i].contains(w)
                ==> final(memo)@.contains_key(res.0@.update(i, set![w])) && !final(memo)@[res.0@.update(i, set![w])],
    decreases total_cands(board@), 2nat,
{
    let ghost b0 = board@;
    proof {
        board.lemma_rep_wf();
    }
    let (first, diff) = reduce(board);
    if first.is_contradiction() || first.is_solved() {
        return (first, diff);
    }
    let mut board = first;
    proof {
        lemma_total_mono(b0, board@, 81);
    }
    loop
        invariant
            board.wf(),
            memo.wf(),
            memo_sound(memo@),
            b0.len() == 81,
            rep_wf(b0),
            narrows(b0, board@),
            keeps_sols(b0, board@),
            total_cands(board@) <= total_cands(b0),
            !spec_solved(board@) && !spec_contradiction(board@) && all_fixpoint(board@),
            forall|k: Seq<Set<int>>|
                old(memo)@.contains_key(k) ==> memo@.contains_key(k) && memo@[k] == old(memo)@[k],
            forall|k: Seq<Set<int>>|
                memo@.contains_key(k) && !old(memo)@.contains_key(k) ==> total_cands(k)
                    < total_cands(b0),
        decreases total_cands(board@),
    {
        let progressed = try_eliminate(&mut board, memo);
        if !progressed {
            return (board, STRATEGY_COUNT);
        }
        let (b2, _d2) = reduce(board);
        proof {
            crate::strategies::lemma_narrows_trans(b0, board@, b2@);
            assert forall|sol: Seq<int>|
                valid_sol(sol) && #[trigger] consistent(b0, sol) implies consistent(b2@, sol) by {
                assert(consistent(board@, sol));
            }
            lemma_total_mono(board@, b2@, 81);
        }
        board = b2;
        if board.is_contradiction() || board.is_solved() {
            return (board, STRATEGY_COUNT);
        }
    }
}


/// One propagation round, for callers that trace the run: the first strategy
/// (in strength order) that changes the board, with its index, or `None` when
/// the board is a fixpoint of all six.
pub fn propagate_step(board: &Board) -> (r: Option<(Board, usize)>)
    requires
        board.wf(),
    ensures
        match r {
            Some(step) => step.1 < STRATEGY_COUNT && step.1 as int == first_change(board@)
                && step.0@ == strat_at(step.1 as int, board@) && step.0@ != board@
                && step.0.wf(),
            None => first_change(board@) == 6,
        },
{
    let next = trivial_eliminate(board);
    if !next.grid_eq(board) {
        return Some((next, 0));
    }
    let next = peephole(board);
    if !next.grid_eq(board) {
        return Some((next, 1));
    }
    let next = group_intersection(board);
    if !next.grid_eq(board) {
        return Some((next, 2));
    }
    let next = direct_tuples(board);
    if !next.grid_eq(board) {
        return Some((next, 3));
    }
    let next = indirect_pairs(board);
    if !next.grid_eq(board) {
        return Some((next, 4));
    }
    let next = indirect_triples(board);
    if !next.grid_eq(board) {
        return Some((next, 5));
    }
    None
}

/// The three terminal outcomes of a solve.
#[derive(Clone, Copy, Debug, PartialEq, Eq, Structural)]
pub enum Verdict {
    NoSolution,
    Solved,
    Ambiguous,
}

/// Classify a terminal board: contradiction wins over solved, and anything
/// else is ambiguous.
pub fn classify(board: &Board) -> (r: Verdict)
    requires
        board.wf(),
    ensures
        r == Verdict::NoSolution <==> spec_contradiction(board@),
        r == Verdict::Solved <==> (!spec_contradiction(board@) && spec_solved(board@)),
        r == Verdict::Ambiguous <==> (!spec_contradiction(board@) && !spec_solved(board@)),
{
    if board.is_contradiction() {
        Verdict::NoSolution
    } else if board.is_solved() {
        Verdict::Solved
    } else {
        Verdict::Ambiguous
    }
}

} // verus!
