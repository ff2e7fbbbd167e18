use vstd::prelude::*;

use crate::board::{
    cell_known, consistent, gp, gpos, lemma_gpos_bounds, lemma_sol_covers, narrows, rep_wf,
    valid_sol, Board,
};
use crate::values::{
    all_vals, card, lemma_card_one, lemma_card_singleton, lemma_card_strict, lemma_card_insert,
    lemma_card_empty, CellValue, ValueSet,
};

verus! {

/// How many strategies the library applies, in order of strength.
pub const STRATEGY_COUNT: usize = 6;

// ---------------------------------------------------------------------------
// Shared counting machinery over the nine cells of one group.
// ---------------------------------------------------------------------------

/// How many of the first `k` cell indices of a group satisfy `pred`.
pub open spec fn icnt(pred: spec_fn(int) -> bool, k: int) -> nat
    decreases k,
{
    if k <= 0 {
        0
    } else {
        icnt(pred, k - 1) + (if pred(k - 1) {
            1nat
        } else {
            0nat
        })
    }
}

proof fn lemma_icnt_one(pred: spec_fn(int) -> bool, k0: int, k: int)
    requires
        0 <= k0 < k,
        pred(k0),
    ensures
        icnt(pred, k) >= 1,
    decreases k,
{
    if k0 < k - 1 {
        lemma_icnt_one(pred, k0, k - 1);
    }
}

proof fn lemma_icnt_two(pred: spec_fn(int) -> bool, k0: int, k1: int, k: int)
    requires
        0 <= k0 < k,
        0 <= k1 < k,
        k0 != k1,
        pred(k0),
        pred(k1),
    ensures
        icnt(pred, k) >= 2,
    decreases k,
{
    if k0 == k - 1 {
        lemma_icnt_one(pred, k1, k - 1);
    } else if k1 == k - 1 {
        lemma_icnt_one(pred, k0, k - 1);
    } else {
        lemma_icnt_two(pred, k0, k1, k - 1);
    }
}

proof fn lemma_icnt_three(pred: spec_fn(int) -> bool, k0: int, k1: int, k2: int, k: int)
    requires
        0 <= k0 < k,
        0 <= k1 < k,
        0 <= k2 < k,
        k0 != k1,
        k0 != k2,
        k1 != k2,
        pred(k0),
        pred(k1),
        pred(k2),
    ensures
        icnt(pred, k) >= 3,
    decreases k,
{
    if k0 == k - 1 {
        lemma_icnt_two(pred, k1, k2, k - 1);
    } else if k1 == k - 1 {
        lemma_icnt_two(pred, k0, k2, k - 1);
    } else if k2 == k - 1 {
        lemma_icnt_two(pred, k0, k1, k - 1);
    } else {
        lemma_icnt_three(pred, k0, k1, k2, k - 1);
    }
}

proof fn lemma_icnt_four(pred: spec_fn(int) -> bool, k0: int, k1: int, k2: int, k3: int, k: int)
    requires
        0 <= k0 < k,
        0 <= k1 < k,
        0 <= k2 < k,
        0 <= k3 < k,
        k0 != k1,
        k0 != k2,
        k0 != k3,
        k1 != k2,
        k1 != k3,
        k2 != k3,
        pred(k0),
        pred(k1),
        pred(k2),
        pred(k3),
    ensures
        icnt(pred, k) >= 4,
    decreases k,
{
    if k0 == k - 1 {
        lemma_icnt_three(pred, k1, k2, k3, k - 1);
    } else if k1 == k - 1 {
        lemma_icnt_three(pred, k0, k2, k3, k - 1);
    } else if k2 == k - 1 {
        lemma_icnt_three(pred, k0, k1, k3, k - 1);
    } else if k3 == k - 1 {
        lemma_icnt_three(pred, k0, k1, k2, k - 1);
    } else {
        lemma_icnt_four(pred, k0, k1, k2, k3, k - 1);
    }
}

/// The values a valid assignment puts on the cells of a group whose index
/// satisfies `pred`, among the first `k` indices.
spec fn ivals(sol: Seq<int>, g: int, pred: spec_fn(int) -> bool, k: int) -> Set<int>
    decreases k,
{
    if k <= 0 {
        Set::<int>::empty()
    } else {
        let rest = ivals(sol, g, pred, k - 1);
        if pred(k - 1) {
            rest.insert(sol[gpos(g, k - 1)])
        } else {
            rest
        }
    }
}

proof fn lemma_ivals(sol: Seq<int>, g: int, pred: spec_fn(int) -> bool, k: int)
    requires
        valid_sol(sol),
        0 <= g < 27,
        0 <= k <= 9,
    ensures
        card(ivals(sol, g, pred, k)) == icnt(pred, k),
        ivals(sol, g, pred, k).subset_of(all_vals()),
        forall|w: int|
            #[trigger] ivals(sol, g, pred, k).contains(w) <==> exists|k2: int|
                0 <= k2 < k && pred(k2) && sol[#[trigger] gpos(g, k2)] == w,
    decreases k,
{
    if k <= 0 {
        lemma_card_empty();
    } else {
        lemma_ivals(sol, g, pred, k - 1);
        if pred(k - 1) {
            let v = sol[gpos(g, k - 1)];
            lemma_gpos_bounds(g, k - 1);
            assert(!ivals(sol, g, pred, k - 1).contains(v)) by {
                if ivals(sol, g, pred, k - 1).contains(v) {
                    let k2 = choose|k2: int|
                        0 <= k2 < k - 1 && pred(k2) && sol[gpos(g, k2)] == v;
                    assert(sol[gpos(g, k2)] != sol[gpos(g, k - 1)]);
                }
            }
            lemma_card_insert(ivals(sol, g, pred, k - 1), v);
            assert forall|w: int| #[trigger] ivals(sol, g, pred, k).contains(w) implies exists|
                k2: int,
            | 0 <= k2 < k && pred(k2) && sol[#[trigger] gpos(g, k2)] == w by {
                if w == v {
                    assert(0 <= k - 1 < k && pred(k - 1) && sol[gpos(g, k - 1)] == w);
                }
            }
        }
    }
}

// ---------------------------------------------------------------------------
// Trivial Elimination: remove each group's known values from its other cells.
// ---------------------------------------------------------------------------

/// The known values among the first `k` cells of group `g`.
pub open spec fn group_knowns(b: Seq<Set<int>>, g: int, k: int) -> Set<int>
    decreases k,
{
    if k <= 0 {
        Set::<int>::empty()
    } else {
        let rest = group_knowns(b, g, k - 1);
        if cell_known(b[gpos(g, k - 1)]) {
            rest.union(b[gpos(g, k - 1)])
        } else {
            rest
        }
    }
}

proof fn lemma_group_knowns_member(b: Seq<Set<int>>, g: int, k: int, v: int)
    requires
        group_knowns(b, g, k).contains(v),
    ensures
        exists|k2: int|
            0 <= k2 < k && cell_known(b[#[trigger] gpos(g, k2)]) && b[gpos(g, k2)].contains(v),
    decreases k,
{
    if k > 0 {
        if cell_known(b[gpos(g, k - 1)]) && b[gpos(g, k - 1)].contains(v) {
            assert(0 <= k - 1 < k && cell_known(b[gpos(g, k - 1)]) && b[gpos(g, k - 1)].contains(
                v,
            ));
        } else {
            lemma_group_knowns_member(b, g, k - 1, v);
            let k2 = choose|k2: int|
                0 <= k2 < k - 1 && cell_known(b[#[trigger] gpos(g, k2)]) && b[gpos(
                    g,
                    k2,
                )].contains(v);
            assert(0 <= k2 < k && cell_known(b[gpos(g, k2)]) && b[gpos(g, k2)].contains(v));
        }
    }
}

/// Group `g`'s removals applied to the first `k` cells: every cell that is
/// not yet known in `b` loses the group's known values.
pub open spec fn te_cells(
    b: Seq<Set<int>>,
    into: Seq<Set<int>>,
    g: int,
    k: int,
    ks: Set<int>,
) -> Seq<Set<int>>
    decreases k,
{
    if k <= 0 {
        into
    } else {
        let prev = te_cells(b, into, g, k - 1, ks);
        let p = gpos(g, k - 1);
        if !cell_known(b[p]) {
            prev.update(p, prev[p].difference(ks))
        } else {
            prev
        }
    }
}

/// Trivial Elimination applied to the first `g` groups.
pub open spec fn te_groups(b: Seq<Set<int>>, g: int) -> Seq<Set<int>>
    decreases g,
{
    if g <= 0 {
        b
    } else {
        te_cells(b, te_groups(b, g - 1), g - 1, 9, group_knowns(b, g - 1, 9))
    }
}

/// What Trivial Elimination leaves of a snapshot.
pub open spec fn spec_trivial_eliminate(b: Seq<Set<int>>) -> Seq<Set<int>> {
    te_groups(b, 27)
}

proof fn lemma_te_cells_narrows(
    b: Seq<Set<int>>,
    into: Seq<Set<int>>,
    g: int,
    k: int,
    ks: Set<int>,
)
    requires
        into.len() == 81,
        0 <= g < 27,
        0 <= k <= 9,
    ensures
        narrows(into, te_cells(b, into, g, k, ks)),
    decreases k,
{
    if k > 0 {
        lemma_te_cells_narrows(b, into, g, k - 1, ks);
        lemma_gpos_bounds(g, k - 1);
    }
}

/// Chaining pointwise narrowing.
pub proof fn lemma_narrows_trans(a: Seq<Set<int>>, b: Seq<Set<int>>, c: Seq<Set<int>>)
    requires
        narrows(a, b),
        narrows(b, c),
    ensures
        narrows(a, c),
{
    assert forall|i: int| 0 <= i < 81 implies (#[trigger] c[i]).subset_of(a[i]) by {
        assert(c[i].subset_of(b[i]));
        assert(b[i].subset_of(a[i]));
    }
}

/// Trivial Elimination only narrows candidate sets.
pub proof fn lemma_te_narrows(b: Seq<Set<int>>)
    requires
        b.len() == 81,
    ensures
        narrows(b, spec_trivial_eliminate(b)),
{
    lemma_te_groups_narrows(b, 27);
}

proof fn lemma_te_groups_narrows(b: Seq<Set<int>>, g: int)
    requires
        b.len() == 81,
        0 <= g <= 27,
    ensures
        narrows(b, te_groups(b, g)),
    decreases g,
{
    if g > 0 {
        lemma_te_groups_narrows(b, g - 1);
        lemma_te_cells_narrows(b, te_groups(b, g - 1), g - 1, 9, group_knowns(b, g - 1, 9));
        lemma_narrows_trans(
            b,
            te_groups(b, g - 1),
            te_cells(b, te_groups(b, g - 1), g - 1, 9, group_knowns(b, g - 1, 9)),
        );
    }
}

proof fn lemma_te_cells_sound(
    b: Seq<Set<int>>,
    into: Seq<Set<int>>,
    g: int,
    k: int,
    sol: Seq<int>,
)
    requires
        rep_wf(b),
        into.len() == 81,
        0 <= g < 27,
        0 <= k <= 9,
        valid_sol(sol),
        consistent(b, sol),
        consistent(into, sol),
    ensures
        consistent(te_cells(b, into, g, k, group_knowns(b, g, 9)), sol),
    decreases k,
{
    if k > 0 {
        lemma_te_cells_sound(b, into, g, k - 1, sol);
        lemma_te_cells_narrows(b, into, g, k - 1, group_knowns(b, g, 9));
        let ks = group_knowns(b, g, 9);
        let prev = te_cells(b, into, g, k - 1, ks);
        let p = gpos(g, k - 1);
        lemma_gpos_bounds(g, k - 1);
        if !cell_known(b[p]) {
            assert(!ks.contains(sol[p])) by {
                if ks.contains(sol[p]) {
                    lemma_group_knowns_member(b, g, 9, sol[p]);
                    let k2 = choose|k2: int|
                        0 <= k2 < 9 && cell_known(b[#[trigger] gpos(g, k2)]) && b[gpos(
                            g,
                            k2,
                        )].contains(sol[p]);
                    lemma_gpos_bounds(g, k2);
                    lemma_card_one(b[gpos(g, k2)]);
                    let w = choose|w: int| 1 <= w <= 9 && b[gpos(g, k2)] == set![w];
                    assert(sol[gpos(g, k2)] == w);
                    assert(w == sol[p]);
                    assert(k2 != k - 1);
                    assert(sol[gpos(g, k2)] != sol[gpos(g, k - 1)]);
                }
            }
        }
    }
}

/// Trivial Elimination never discards a value a valid completion needs.
pub proof fn lemma_te_sound(b: Seq<Set<int>>, sol: Seq<int>)
    requires
        rep_wf(b),
        valid_sol(sol),
        consistent(b, sol),
    ensures
        consistent(spec_trivial_eliminate(b), sol),
{
    lemma_te_groups_sound(b, 27, sol);
}

proof fn lemma_te_groups_sound(b: Seq<Set<int>>, g: int, sol: Seq<int>)
    requires
        rep_wf(b),
        0 <= g <= 27,
        valid_sol(sol),
        consistent(b, sol),
    ensures
        consistent(te_groups(b, g), sol),
    decreases g,
{
    if g > 0 {
        lemma_te_groups_sound(b, g - 1, sol);
        lemma_te_groups_narrows(b, g - 1);
        lemma_te_cells_sound(b, te_groups(b, g - 1), g - 1, 9, sol);
    }
}

/// Trivial Elimination: gather each group's known values and strike them
/// from every other cell of the group that is not yet known.
pub fn trivial_eliminate(board: &Board) -> (r: Board)
    requires
        board.wf(),
    ensures
        r.wf(),
        r@ == spec_trivial_eliminate(board@),
{
    let mut into = board.clone();
    let ghost b = board@;
    let mut g: usize = 0;
    while g < 27
        invariant
            board.wf(),
            into.wf(),
            b == board@,
            g <= 27,
            into@ == te_groups(b, g as int),
        decreases 27 - g,
    {
        let mut knowns = ValueSet::empty();
        let mut k: usize = 0;
        while k < 9
            invariant
                board.wf(),
                b == board@,
                g < 27,
                k <= 9,
                knowns@ == group_knowns(b, g as int, k as int),
            decreases 9 - k,
        {
            proof {
                lemma_gpos_bounds(g as int, k as int);
            }
            let (rr, cc) = gp(g, k);
            let cell = board.cell_at(rr, cc);
            proof {
                assert(rr * 9 + cc == gpos(g as int, k as int));
            }
            match cell.known() {
                Some(v) => {
                    proof {
                        lemma_card_singleton(v.as_int());
                    }
                    knowns = knowns.union(cell.possiblities());
                },
                None => {
                    proof {
                        assert(!cell_known(b[gpos(g as int, k as int)]));
                    }
                },
            }
            k = k + 1;
        }
        let mut k: usize = 0;
        while k < 9
            invariant
                board.wf(),
                into.wf(),
                b == board@,
                g < 27,
                k <= 9,
                knowns@ == group_knowns(b, g as int, 9),
                into@ == te_cells(b, te_groups(b, g as int), g as int, k as int, knowns@),
            decreases 9 - k,
        {
            proof {
                lemma_gpos_bounds(g as int, k as int);
            }
            let (rr, cc) = gp(g, k);
            let cell = board.cell_at(rr, cc);
            proof {
                assert(rr * 9 + cc == gpos(g as int, k as int));
            }
            match cell.known() {
                None => {
                    let mut tc = into.cell_at(rr, cc);
                    tc.remove_all(knowns);
                    into.set_cell(rr, cc, tc);
                    proof {
                        assert(!cell_known(b[gpos(g as int, k as int)]));
                    }
                },
                Some(v) => {
                    proof {
                        lemma_card_singleton(v.as_int());
                        assert(cell_known(b[gpos(g as int, k as int)]));
                    }
                },
            }
            k = k + 1;
        }
        g = g + 1;
    }
    into
}

// ---------------------------------------------------------------------------
// Peephole (hidden single): a value with one home left in a group goes there.
// ---------------------------------------------------------------------------

/// Whether cell `k` of group `g` still admits `v`.
pub open spec fn ph_pred(b: Seq<Set<int>>, g: int, v: int) -> spec_fn(int) -> bool {
    |k: int| b[gpos(g, k)].contains(v)
}

/// The unique index of group `g` still admitting `v`, when there is one.
pub open spec fn ph_sel(b: Seq<Set<int>>, g: int, v: int) -> int {
    choose|k: int| 0 <= k < 9 && #[trigger] (ph_pred(b, g, v))(k)
}

/// Peephole applied to group `g` for the values 1 through `v`.
pub open spec fn ph_vals(b: Seq<Set<int>>, into: Seq<Set<int>>, g: int, v: int) -> Seq<Set<int>>
    decreases v,
{
    if v <= 0 {
        into
    } else {
        let prev = ph_vals(b, into, g, v - 1);
        if icnt(ph_pred(b, g, v), 9) == 1 {
            prev.update(gpos(g, ph_sel(b, g, v)), set![v])
        } else {
            prev
        }
    }
}

/// Peephole applied to the first `g` groups.
pub open spec fn ph_groups(b: Seq<Set<int>>, g: int) -> Seq<Set<int>>
    decreases g,
{
    if g <= 0 {
        b
    } else {
        ph_vals(b, ph_groups(b, g - 1), g - 1, 9)
    }
}

/// What Peephole leaves of a snapshot.
pub open spec fn spec_peephole(b: Seq<Set<int>>) -> Seq<Set<int>> {
    ph_groups(b, 27)
}

proof fn lemma_ph_sel(b: Seq<Set<int>>, g: int, v: int, k0: int)
    requires
        0 <= k0 < 9,
        (ph_pred(b, g, v))(k0),
        icnt(ph_pred(b, g, v), 9) == 1,
    ensures
        ph_sel(b, g, v) == k0,
        0 <= ph_sel(b, g, v) < 9,
        b[gpos(g, ph_sel(b, g, v))].contains(v),
{
    let sel = ph_sel(b, g, v);
    assert(0 <= sel < 9 && (ph_pred(b, g, v))(sel)) by {
        assert(0 <= k0 < 9 && #[trigger] (ph_pred(b, g, v))(k0));
    }
    if sel != k0 {
        lemma_icnt_two(ph_pred(b, g, v), sel, k0, 9);
    }
}

proof fn lemma_ph_vals_narrows(b: Seq<Set<int>>, into: Seq<Set<int>>, g: int, v: int)
    requires
        narrows(b, into),
        0 <= g < 27,
        0 <= v <= 9,
    ensures
        narrows(b, ph_vals(b, into, g, v)),
    decreases v,
{
    if v > 0 {
        lemma_ph_vals_narrows(b, into, g, v - 1);
        if icnt(ph_pred(b, g, v), 9) == 1 {
            lemma_icnt_exists(ph_pred(b, g, v), 9);
            let k0 = choose|k0: int| 0 <= k0 < 9 && #[trigger] (ph_pred(b, g, v))(k0);
            lemma_ph_sel(b, g, v, k0);
            lemma_gpos_bounds(g, ph_sel(b, g, v));
        }
    }
}

proof fn lemma_icnt_exists(pred: spec_fn(int) -> bool, k: int)
    requires
        icnt(pred, k) >= 1,
    ensures
        exists|k0: int| 0 <= k0 < k && #[trigger] pred(k0),
    decreases k,
{
    if k > 0 {
        if pred(k - 1) {
            assert(0 <= k - 1 < k && #[trigger] pred(k - 1));
        } else {
            lemma_icnt_exists(pred, k - 1);
            let k0 = choose|k0: int| 0 <= k0 < k - 1 && #[trigger] pred(k0);
            assert(0 <= k0 < k && pred(k0));
        }
    }
}

/// Peephole only narrows candidate sets.
pub proof fn lemma_ph_narrows(b: Seq<Set<int>>)
    requires
        b.len() == 81,
    ensures
        narrows(b, spec_peephole(b)),
{
    lemma_ph_groups_narrows(b, 27);
}

proof fn lemma_ph_groups_narrows(b: Seq<Set<int>>, g: int)
    requires
        b.len() == 81,
        0 <= g <= 27,
    ensures
        narrows(b, ph_groups(b, g)),
    decreases g,
{
    if g > 0 {
        lemma_ph_groups_narrows(b, g - 1);
        lemma_ph_vals_narrows(b, ph_groups(b, g - 1), g - 1, 9);
    }
}

proof fn lemma_ph_vals_sound(
    b: Seq<Set<int>>,
    into: Seq<Set<int>>,
    g: int,
    v: int,
    sol: Seq<int>,
)
    requires
        into.len() == 81,
        0 <= g < 27,
        0 <= v <= 9,
        valid_sol(sol),
        consistent(b, sol),
        consistent(into, sol),
    ensures
        consistent(ph_vals(b, into, g, v), sol),
        ph_vals(b, into, g, v).len() == 81,
    decreases v,
{
    if v > 0 {
        lemma_ph_vals_sound(b, into, g, v - 1, sol);
        if icnt(ph_pred(b, g, v), 9) == 1 {
            lemma_sol_covers(sol, g, v);
            let kk = choose|k: int| 0 <= k < 9 && sol[#[trigger] gpos(g, k)] == v;
            lemma_gpos_bounds(g, kk);
            assert((ph_pred(b, g, v))(kk));
            lemma_ph_sel(b, g, v, kk);
            lemma_gpos_bounds(g, kk);
            assert(set![v].contains(sol[gpos(g, ph_sel(b, g, v))]));
        }
    }
}

/// Peephole never discards a value a valid completion needs.
pub proof fn lemma_ph_sound(b: Seq<Set<int>>, sol: Seq<int>)
    requires
        b.len() == 81,
        valid_sol(sol),
        consistent(b, sol),
    ensures
        consistent(spec_peephole(b), sol),
{
    lemma_ph_groups_sound(b, 27, sol);
}

proof fn lemma_ph_groups_sound(b: Seq<Set<int>>, g: int, sol: Seq<int>)
    requires
        b.len() == 81,
        0 <= g <= 27,
        valid_sol(sol),
        consistent(b, sol),
    ensures
        consistent(ph_groups(b, g), sol),
    decreases g,
{
    if g > 0 {
        lemma_ph_groups_sound(b, g - 1, sol);
        lemma_ph_groups_narrows(b, g - 1);
        lemma_ph_vals_sound(b, ph_groups(b, g - 1), g - 1, 9, sol);
    }
}

/// Peephole: for each group and value, when exactly one cell of the group
/// still admits the value, force that cell to it.
pub fn peephole(board: &Board) -> (r: Board)
    requires
        board.wf(),
    ensures
        r.wf(),
        r@ == spec_peephole(board@),
{
    let mut into = board.clone();
    let ghost b = board@;
    let mut g: usize = 0;
    while g < 27
        invariant
            board.wf(),
            into.wf(),
            b == board@,
            g <= 27,
            into@ == ph_groups(b, g as int),
        decreases 27 - g,
    {
        let mut vi: usize = 0;
        while vi < 9
            invariant
                board.wf(),
                into.wf(),
                b == board@,
                g < 27,
                vi <= 9,
                into@ == ph_vals(b, ph_groups(b, g as int), g as int, vi as int),
            decreases 9 - vi,
        {
            let v = CellValue::from_index(vi);
            let ghost pv = vi as int + 1;
            let ghost pred = ph_pred(b, g as int, pv);
            let mut cnt: usize = 0;
            let mut first: usize = 0;
            let mut k: usize = 0;
            while k < 9
                invariant
                    board.wf(),
                    b == board@,
                    g < 27,
                    k <= 9,
                    cnt <= k,
                    pred == ph_pred(b, g as int, pv),
                    pv == vi as int + 1,
                    v.as_int() == pv,
                    cnt == icnt(pred, k as int),
                    cnt >= 1 ==> first < k && pred(first as int),
                decreases 9 - k,
            {
                proof {
                    lemma_gpos_bounds(g as int, k as int);
                }
                let (rr, cc) = gp(g, k);
                proof {
                    assert(rr * 9 + cc == gpos(g as int, k as int));
                }
                if board.cell_at(rr, cc).contains(v) {
                    if cnt == 0 {
                        first = k;
                    }
                    cnt = cnt + 1;
                    proof {
                        assert(pred(k as int));
                    }
                } else {
                    proof {
                        assert(!pred(k as int));
                    }
                }
                k = k + 1;
            }
            if cnt == 1 {
                proof {
                    lemma_ph_sel(b, g as int, pv, first as int);
                    lemma_gpos_bounds(g as int, first as int);
                }
                let (rr, cc) = gp(g, first);
                proof {
                    assert(rr * 9 + cc == gpos(g as int, ph_sel(b, g as int, pv)));
                }
                let mut tc = into.cell_at(rr, cc);
                tc.set(v);
                into.set_cell(rr, cc, tc);
            }
            vi = vi + 1;
        }
        g = g + 1;
    }
    into
}


// ---------------------------------------------------------------------------
// Group Intersection: when every home of a value in one group lies inside a
// second group, the value leaves the rest of the second group.
// ---------------------------------------------------------------------------

/// The flat positions of group `g` whose cells still admit `v`.
pub open spec fn vps(b: Seq<Set<int>>, g: int, v: int) -> Set<int> {
    Set::new(
        |p: int|
            exists|k: int| 0 <= k < 9 && p == #[trigger] gpos(g, k) && b[p].contains(v),
    )
}

/// The flat positions covered by group `g`.
pub open spec fn gset(g: int) -> Set<int> {
    Set::new(|p: int| exists|k: int| 0 <= k < 9 && p == #[trigger] gpos(g, k))
}

/// Remove `v` from the first `k2` cells of group `g2` that lie outside the
/// admitting positions of group `g`.
pub open spec fn gi_rm(
    b: Seq<Set<int>>,
    into: Seq<Set<int>>,
    g: int,
    v: int,
    g2: int,
    k2: int,
) -> Seq<Set<int>>
    decreases k2,
{
    if k2 <= 0 {
        into
    } else {
        let prev = gi_rm(b, into, g, v, g2, k2 - 1);
        let p = gpos(g2, k2 - 1);
        if !vps(b, g, v).contains(p) {
            prev.update(p, prev[p].remove(v))
        } else {
            prev
        }
    }
}

/// Group Intersection for group `g` and value `v`, tried against the first
/// `g2` other groups.
pub open spec fn gi_g2(
    b: Seq<Set<int>>,
    into: Seq<Set<int>>,
    g: int,
    v: int,
    g2: int,
) -> Seq<Set<int>>
    decreases g2,
{
    if g2 <= 0 {
        into
    } else {
        let prev = gi_g2(b, into, g, v, g2 - 1);
        if vps(b, g, v).subset_of(gset(g2 - 1)) {
            gi_rm(b, prev, g, v, g2 - 1, 9)
        } else {
            prev
        }
    }
}

/// Group Intersection for group `g` over the values 1 through `v`.
pub open spec fn gi_vals(b: Seq<Set<int>>, into: Seq<Set<int>>, g: int, v: int) -> Seq<Set<int>>
    decreases v,
{
    if v <= 0 {
        into
    } else {
        gi_g2(b, gi_vals(b, into, g, v - 1), g, v, 27)
    }
}

/// Group Intersection applied to the first `g` groups.
pub open spec fn gi_groups(b: Seq<Set<int>>, g: int) -> Seq<Set<int>>
    decreases g,
{
    if g <= 0 {
        b
    } else {
        gi_vals(b, gi_groups(b, g - 1), g - 1, 9)
    }
}

/// What Group Intersection leaves of a snapshot.
pub open spec fn spec_group_intersection(b: Seq<Set<int>>) -> Seq<Set<int>> {
    gi_groups(b, 27)
}

proof fn lemma_gi_rm_narrows(
    b: Seq<Set<int>>,
    into: Seq<Set<int>>,
    g: int,
    v: int,
    g2: int,
    k2: int,
)
    requires
        into.len() == 81,
        0 <= g2 < 27,
        0 <= k2 <= 9,
    ensures
        narrows(into, gi_rm(b, into, g, v, g2, k2)),
    decreases k2,
{
    if k2 > 0 {
        lemma_gi_rm_narrows(b, into, g, v, g2, k2 - 1);
        lemma_gpos_bounds(g2, k2 - 1);
    }
}

proof fn lemma_gi_g2_narrows(b: Seq<Set<int>>, into: Seq<Set<int>>, g: int, v: int, g2: int)
    requires
        into.len() == 81,
        0 <= g2 <= 27,
    ensures
        narrows(into, gi_g2(b, into, g, v, g2)),
    decreases g2,
{
    if g2 > 0 {
        lemma_gi_g2_narrows(b, into, g, v, g2 - 1);
        if vps(b, g, v).subset_of(gset(g2 - 1)) {
            lemma_gi_rm_narrows(b, gi_g2(b, into, g, v, g2 - 1), g, v, g2 - 1, 9);
            lemma_narrows_trans(
                into,
                gi_g2(b, into, g, v, g2 - 1),
                gi_rm(b, gi_g2(b, into, g, v, g2 - 1), g, v, g2 - 1, 9),
            );
        }
    }
}

proof fn lemma_gi_vals_narrows(b: Seq<Set<int>>, into: Seq<Set<int>>, g: int, v: int)
    requires
        into.len() == 81,
        0 <= v <= 9,
    ensures
        narrows(into, gi_vals(b, into, g, v)),
    decreases v,
{
    if v > 0 {
        lemma_gi_vals_narrows(b, into, g, v - 1);
        lemma_gi_g2_narrows(b, gi_vals(b, into, g, v - 1), g, v, 27);
        lemma_narrows_trans(
            into,
            gi_vals(b, into, g, v - 1),
            gi_g2(b, gi_vals(b, into, g, v - 1), g, v, 27),
        );
    }
}

proof fn lemma_gi_groups_narrows(b: Seq<Set<int>>, g: int)
    requires
        b.len() == 81,
        0 <= g <= 27,
    ensures
        narrows(b, gi_groups(b, g)),
    decreases g,
{
    if g > 0 {
        lemma_gi_groups_narrows(b, g - 1);
        lemma_gi_vals_narrows(b, gi_groups(b, g - 1), g - 1, 9);
        lemma_narrows_trans(
            b,
            gi_groups(b, g - 1),
            gi_vals(b, gi_groups(b, g - 1), g - 1, 9),
        );
    }
}

/// Group Intersection only narrows candidate sets.
pub proof fn lemma_gi_narrows(b: Seq<Set<int>>)
    requires
        b.len() == 81,
    ensures
        narrows(b, spec_group_intersection(b)),
{
    lemma_gi_groups_narrows(b, 27);
}

proof fn lemma_gi_rm_sound(
    b: Seq<Set<int>>,
    into: Seq<Set<int>>,
    g: int,
    v: int,
    g2: int,
    k2: int,
    sol: Seq<int>,
)
    requires
        into.len() == 81,
        0 <= g < 27,
        1 <= v <= 9,
        0 <= g2 < 27,
        0 <= k2 <= 9,
        valid_sol(sol),
        consistent(b, sol),
        consistent(into, sol),
        vps(b, g, v).subset_of(gset(g2)),
    ensures
        consistent(gi_rm(b, into, g, v, g2, k2), sol),
    decreases k2,
{
    if k2 > 0 {
        lemma_gi_rm_sound(b, into, g, v, g2, k2 - 1, sol);
        lemma_gi_rm_narrows(b, into, g, v, g2, k2 - 1);
        let p = gpos(g2, k2 - 1);
        lemma_gpos_bounds(g2, k2 - 1);
        if !vps(b, g, v).contains(p) {
            assert(sol[p] != v) by {
                if sol[p] == v {
                    lemma_sol_covers(sol, g, v);
                    let kk = choose|k: int| 0 <= k < 9 && sol[#[trigger] gpos(g, k)] == v;
                    lemma_gpos_bounds(g, kk);
                    let q = gpos(g, kk);
                    assert(b[q].contains(v));
                    assert(vps(b, g, v).contains(q));
                    assert(gset(g2).contains(q));
                    let kq = choose|k: int| 0 <= k < 9 && q == #[trigger] gpos(g2, k);
                    assert(q != p);
                    assert(kq != k2 - 1);
                    assert(sol[gpos(g2, kq)] != sol[gpos(g2, k2 - 1)]);
                }
            }
        }
    }
}

proof fn lemma_gi_g2_sound(
    b: Seq<Set<int>>,
    into: Seq<Set<int>>,
    g: int,
    v: int,
    g2: int,
    sol: Seq<int>,
)
    requires
        into.len() == 81,
        0 <= g < 27,
        1 <= v <= 9,
        0 <= g2 <= 27,
        valid_sol(sol),
        consistent(b, sol),
        consistent(into, sol),
    ensures
        consistent(gi_g2(b, into, g, v, g2), sol),
    decreases g2,
{
    if g2 > 0 {
        lemma_gi_g2_sound(b, into, g, v, g2 - 1, sol);
        lemma_gi_g2_narrows(b, into, g, v, g2 - 1);
        if vps(b, g, v).subset_of(gset(g2 - 1)) {
            lemma_gi_rm_sound(b, gi_g2(b, into, g, v, g2 - 1), g, v, g2 - 1, 9, sol);
        }
    }
}

proof fn lemma_gi_vals_sound(
    b: Seq<Set<int>>,
    into: Seq<Set<int>>,
    g: int,
    v: int,
    sol: Seq<int>,
)
    requires
        into.len() == 81,
        0 <= g < 27,
        0 <= v <= 9,
        valid_sol(sol),
        consistent(b, sol),
        consistent(into, sol),
    ensures
        consistent(gi_vals(b, into, g, v), sol),
    decreases v,
{
    if v > 0 {
        lemma_gi_vals_sound(b, into, g, v - 1, sol);
        lemma_gi_vals_narrows(b, into, g, v - 1);
        lemma_gi_g2_sound(b, gi_vals(b, into, g, v - 1), g, v, 27, sol);
    }
}

/// Group Intersection never discards a value a valid completion needs.
pub proof fn lemma_gi_sound(b: Seq<Set<int>>, sol: Seq<int>)
    requires
        b.len() == 81,
        valid_sol(sol),
        consistent(b, sol),
    ensures
        consistent(spec_group_intersection(b), sol),
{
    lemma_gi_groups_sound(b, 27, sol);
}

proof fn lemma_gi_groups_sound(b: Seq<Set<int>>, g: int, sol: Seq<int>)
    requires
        b.len() == 81,
        0 <= g <= 27,
        valid_sol(sol),
        consistent(b, sol),
    ensures
        consistent(gi_groups(b, g), sol),
    decreases g,
{
    if g > 0 {
        lemma_gi_groups_sound(b, g - 1, sol);
        lemma_gi_groups_narrows(b, g - 1);
        lemma_gi_vals_sound(b, gi_groups(b, g - 1), g - 1, 9, sol);
    }
}

/// Whether the coordinate lies in group `g2`.
fn in_gset(g2: usize, rr: usize, cc: usize) -> (res: bool)
    requires
        g2 < 27,
        rr < 9,
        cc < 9,
    ensures
        res == gset(g2 as int).contains(rr * 9 + cc),
{
    let mut k: usize = 0;
    while k < 9
        invariant
            g2 < 27,
            rr < 9,
            cc < 9,
            k <= 9,
            forall|k1: int| 0 <= k1 < k ==> rr * 9 + cc != #[trigger] gpos(g2 as int, k1),
        decreases 9 - k,
    {
        proof {
            lemma_gpos_bounds(g2 as int, k as int);
        }
        let (r2, c2) = gp(g2, k);
        if r2 == rr && c2 == cc {
            proof {
                assert(rr * 9 + cc == gpos(g2 as int, k as int));
            }
            return true;
        }
        proof {
            assert(rr * 9 + cc != gpos(g2 as int, k as int));
        }
        k = k + 1;
    }
    proof {
        if gset(g2 as int).contains(rr * 9 + cc) {
            let k1 = choose|k1: int|
                0 <= k1 < 9 && (rr * 9 + cc) as int == #[trigger] gpos(g2 as int, k1);
        }
    }
    false
}

/// Whether the coordinate is one of group `g`'s positions still admitting `v`.
fn in_vps(board: &Board, g: usize, v: CellValue, rr: usize, cc: usize) -> (res: bool)
    requires
        board.wf(),
        g < 27,
        rr < 9,
        cc < 9,
    ensures
        res == vps(board@, g as int, v.as_int()).contains(rr * 9 + cc),
{
    let admits = board.cell_at(rr, cc).contains(v);
    let res = admits && in_gset(g, rr, cc);
    proof {
        let p = (rr * 9 + cc) as int;
        if vps(board@, g as int, v.as_int()).contains(p) {
            assert(gset(g as int).contains(p) && board@[p].contains(v.as_int()));
        }
        if gset(g as int).contains(p) && board@[p].contains(v.as_int()) {
            let k1 = choose|k1: int| 0 <= k1 < 9 && p == #[trigger] gpos(g as int, k1);
            assert(vps(board@, g as int, v.as_int()).contains(p));
        }
    }
    res
}

/// Whether every position of group `g` still admitting `v` lies in `g2`.
fn vps_subset(board: &Board, g: usize, v: CellValue, g2: usize) -> (res: bool)
    requires
        board.wf(),
        g < 27,
        g2 < 27,
    ensures
        res == vps(board@, g as int, v.as_int()).subset_of(gset(g2 as int)),
{
    let ghost b = board@;
    let ghost pv = v.as_int();
    let mut k: usize = 0;
    while k < 9
        invariant
            board.wf(),
            b == board@,
            pv == v.as_int(),
            g < 27,
            g2 < 27,
            k <= 9,
            forall|k1: int|
                0 <= k1 < k && b[#[trigger] gpos(g as int, k1)].contains(pv) ==> gset(
                    g2 as int,
                ).contains(gpos(g as int, k1)),
        decreases 9 - k,
    {
        proof {
            lemma_gpos_bounds(g as int, k as int);
        }
        let (rr, cc) = gp(g, k);
        proof {
            assert(rr * 9 + cc == gpos(g as int, k as int));
        }
        if board.cell_at(rr, cc).contains(v) {
            if !in_gset(g2, rr, cc) {
                proof {
                    assert(vps(b, g as int, pv).contains(rr * 9 + cc)) by {
                        assert((rr * 9 + cc) as int == gpos(g as int, k as int) && b[gpos(
                            g as int,
                            k as int,
                        )].contains(pv));
                    }
                }
                return false;
            }
        }
        k = k + 1;
    }
    proof {
        assert forall|p: int| vps(b, g as int, pv).contains(p) implies gset(g2 as int).contains(
            p,
        ) by {
            let k1 = choose|k1: int|
                0 <= k1 < 9 && p == #[trigger] gpos(g as int, k1) && b[p].contains(pv);
        }
    }
    true
}

/// Group Intersection: for each group and value, gather the positions that
/// still admit the value; for every group containing all of them, remove the
/// value from that group's other cells.
pub fn group_intersection(board: &Board) -> (r: Board)
    requires
        board.wf(),
    ensures
        r.wf(),
        r@ == spec_group_intersection(board@),
{
    let mut into = board.clone();
    let ghost b = board@;
    let mut g: usize = 0;
    while g < 27
        invariant
            board.wf(),
            into.wf(),
            b == board@,
            g <= 27,
            into@ == gi_groups(b, g as int),
        decreases 27 - g,
    {
        let mut vi: usize = 0;
        while vi < 9
            invariant
                board.wf(),
                into.wf(),
                b == board@,
                g < 27,
                vi <= 9,
                into@ == gi_vals(b, gi_groups(b, g as int), g as int, vi as int),
            decreases 9 - vi,
        {
            let v = CellValue::from_index(vi);
            let ghost pv = vi as int + 1;
            let ghost prevv = gi_vals(b, gi_groups(b, g as int), g as int, vi as int);
            let mut g2: usize = 0;
            while g2 < 27
                invariant
                    board.wf(),
                    into.wf(),
                    b == board@,
                    g < 27,
                    vi < 9,
                    pv == vi as int + 1,
                    v.as_int() == pv,
                    prevv == gi_vals(b, gi_groups(b, g as int), g as int, vi as int),
                    g2 <= 27,
                    into@ == gi_g2(b, prevv, g as int, pv, g2 as int),
                decreases 27 - g2,
            {
                if vps_subset(board, g, v, g2) {
                    let ghost base = gi_g2(b, prevv, g as int, pv, g2 as int);
                    let mut k2: usize = 0;
                    while k2 < 9
                        invariant
                            board.wf(),
                            into.wf(),
                            b == board@,
                            g < 27,
                            g2 < 27,
                            pv == vi as int + 1,
                            v.as_int() == pv,
                            k2 <= 9,
                            base == gi_g2(b, prevv, g as int, pv, g2 as int),
                            vps(b, g as int, pv).subset_of(gset(g2 as int)),
                            into@ == gi_rm(b, base, g as int, pv, g2 as int, k2 as int),
                        decreases 9 - k2,
                    {
                        proof {
                            lemma_gpos_bounds(g2 as int, k2 as int);
                        }
                        let (rr, cc) = gp(g2, k2);
                        proof {
                            assert(rr * 9 + cc == gpos(g2 as int, k2 as int));
                        }
                        if !in_vps(board, g, v, rr, cc) {
                            let mut tc = into.cell_at(rr, cc);
                            tc.remove(v);
                            into.set_cell(rr, cc, tc);
                        }
                        k2 = k2 + 1;
                    }
                    proof {
                        assert(into@ == gi_g2(b, prevv, g as int, pv, g2 as int + 1));
                    }
                } else {
                    proof {
                        assert(into@ == gi_g2(b, prevv, g as int, pv, g2 as int + 1));
                    }
                }
                g2 = g2 + 1;
            }
            vi = vi + 1;
        }
        g = g + 1;
    }
    into
}


// ---------------------------------------------------------------------------
// Direct Tuples (naked subsets): cells sharing one candidate set, as many
// cells as the set has values, exclude those values from the rest.
// ---------------------------------------------------------------------------

/// Whether cell `k` belongs to the run anchored at cell `i`: the anchor
/// itself, or a later cell with exactly the anchor's candidate set.
pub open spec fn dt_pred(b: Seq<Set<int>>, g: int, i: int) -> spec_fn(int) -> bool {
    |k: int| k == i || (k > i && b[gpos(g, k)] == b[gpos(g, i)])
}

/// Remove the anchor's candidate set from the first `k` cells outside the run.
pub open spec fn dt_rm(
    b: Seq<Set<int>>,
    into: Seq<Set<int>>,
    g: int,
    i: int,
    k: int,
) -> Seq<Set<int>>
    decreases k,
{
    if k <= 0 {
        into
    } else {
        let prev = dt_rm(b, into, g, i, k - 1);
        let p = gpos(g, k - 1);
        if !(dt_pred(b, g, i))(k - 1) {
            prev.update(p, prev[p].difference(b[gpos(g, i)]))
        } else {
            prev
        }
    }
}

/// Direct Tuples for group `g`, anchored at each of the first `i` cells.
pub open spec fn dt_idx(b: Seq<Set<int>>, into: Seq<Set<int>>, g: int, i: int) -> Seq<Set<int>>
    decreases i,
{
    if i <= 0 {
        into
    } else {
        let prev = dt_idx(b, into, g, i - 1);
        if icnt(dt_pred(b, g, i - 1), 9) == card(b[gpos(g, i - 1)]) {
            dt_rm(b, prev, g, i - 1, 9)
        } else {
            prev
        }
    }
}

/// Direct Tuples applied to the first `g` groups.
pub open spec fn dt_groups(b: Seq<Set<int>>, g: int) -> Seq<Set<int>>
    decreases g,
{
    if g <= 0 {
        b
    } else {
        dt_idx(b, dt_groups(b, g - 1), g - 1, 9)
    }
}

/// What Direct Tuples leaves of a snapshot.
pub open spec fn spec_direct_tuples(b: Seq<Set<int>>) -> Seq<Set<int>> {
    dt_groups(b, 27)
}

proof fn lemma_dt_rm_narrows(b: Seq<Set<int>>, into: Seq<Set<int>>, g: int, i: int, k: int)
    requires
        into.len() == 81,
        0 <= g < 27,
        0 <= k <= 9,
    ensures
        narrows(into, dt_rm(b, into, g, i, k)),
    decreases k,
{
    if k > 0 {
        lemma_dt_rm_narrows(b, into, g, i, k - 1);
        lemma_gpos_bounds(g, k - 1);
    }
}

proof fn lemma_dt_idx_narrows(b: Seq<Set<int>>, into: Seq<Set<int>>, g: int, i: int)
    requires
        into.len() == 81,
        0 <= g < 27,
        0 <= i <= 9,
    ensures
        narrows(into, dt_idx(b, into, g, i)),
    decreases i,
{
    if i > 0 {
        lemma_dt_idx_narrows(b, into, g, i - 1);
        if icnt(dt_pred(b, g, i - 1), 9) == card(b[gpos(g, i - 1)]) {
            lemma_dt_rm_narrows(b, dt_idx(b, into, g, i - 1), g, i - 1, 9);
            lemma_narrows_trans(
                into,
                dt_idx(b, into, g, i - 1),
                dt_rm(b, dt_idx(b, into, g, i - 1), g, i - 1, 9),
            );
        }
    }
}

proof fn lemma_dt_groups_narrows(b: Seq<Set<int>>, g: int)
    requires
        b.len() == 81,
        0 <= g <= 27,
    ensures
        narrows(b, dt_groups(b, g)),
    decreases g,
{
    if g > 0 {
        lemma_dt_groups_narrows(b, g - 1);
        lemma_dt_idx_narrows(b, dt_groups(b, g - 1), g - 1, 9);
        lemma_narrows_trans(
            b,
            dt_groups(b, g - 1),
            dt_idx(b, dt_groups(b, g - 1), g - 1, 9),
        );
    }
}

/// Direct Tuples only narrows candidate sets.
pub proof fn lemma_dt_narrows(b: Seq<Set<int>>)
    requires
        b.len() == 81,
    ensures
        narrows(b, spec_direct_tuples(b)),
{
    lemma_dt_groups_narrows(b, 27);
}

proof fn lemma_dt_rm_sound(
    b: Seq<Set<int>>,
    into: Seq<Set<int>>,
    g: int,
    i: int,
    k: int,
    sol: Seq<int>,
)
    requires
        rep_wf(b),
        into.len() == 81,
        0 <= g < 27,
        0 <= i < 9,
        0 <= k <= 9,
        valid_sol(sol),
        consistent(b, sol),
        consistent(into, sol),
        icnt(dt_pred(b, g, i), 9) == card(b[gpos(g, i)]),
    ensures
        consistent(dt_rm(b, into, g, i, k), sol),
    decreases k,
{
    if k > 0 {
        lemma_dt_rm_sound(b, into, g, i, k - 1, sol);
        lemma_dt_rm_narrows(b, into, g, i, k - 1);
        let pred = dt_pred(b, g, i);
        let p = gpos(g, k - 1);
        lemma_gpos_bounds(g, k - 1);
        lemma_gpos_bounds(g, i);
        let s = b[gpos(g, i)];
        if !pred(k - 1) {
            assert(!s.contains(sol[p])) by {
                if s.contains(sol[p]) {
                    let tv = ivals(sol, g, pred, 9);
                    lemma_ivals(sol, g, pred, 9);
                    assert(tv.subset_of(s)) by {
                        assert forall|w: int| #[trigger] tv.contains(w) implies s.contains(
                            w,
                        ) by {
                            let k2 = choose|k2: int|
                                0 <= k2 < 9 && pred(k2) && sol[#[trigger] gpos(g, k2)] == w;
                            lemma_gpos_bounds(g, k2);
                            assert(b[gpos(g, k2)] == s);
                            assert(b[gpos(g, k2)].contains(sol[gpos(g, k2)]));
                        }
                    }
                    assert(tv == s) by {
                        if tv != s {
                            lemma_card_strict(tv, s);
                        }
                    }
                    assert(tv.contains(sol[p]));
                    let k2 = choose|k2: int|
                        0 <= k2 < 9 && pred(k2) && sol[#[trigger] gpos(g, k2)] == sol[p];
                    assert(k2 != k - 1);
                    assert(sol[gpos(g, k2)] != sol[gpos(g, k - 1)]);
                }
            }
        }
    }
}

proof fn lemma_dt_idx_sound(
    b: Seq<Set<int>>,
    into: Seq<Set<int>>,
    g: int,
    i: int,
    sol: Seq<int>,
)
    requires
        rep_wf(b),
        into.len() == 81,
        0 <= g < 27,
        0 <= i <= 9,
        valid_sol(sol),
        consistent(b, sol),
        consistent(into, sol),
    ensures
        consistent(dt_idx(b, into, g, i), sol),
    decreases i,
{
    if i > 0 {
        lemma_dt_idx_sound(b, into, g, i - 1, sol);
        lemma_dt_idx_narrows(b, into, g, i - 1);
        if icnt(dt_pred(b, g, i - 1), 9) == card(b[gpos(g, i - 1)]) {
            lemma_dt_rm_sound(b, dt_idx(b, into, g, i - 1), g, i - 1, 9, sol);
        }
    }
}

/// Direct Tuples never discards a value a valid completion needs.
pub proof fn lemma_dt_sound(b: Seq<Set<int>>, sol: Seq<int>)
    requires
        rep_wf(b),
        valid_sol(sol),
        consistent(b, sol),
    ensures
        consistent(spec_direct_tuples(b), sol),
{
    lemma_dt_groups_sound(b, 27, sol);
}

proof fn lemma_dt_groups_sound(b: Seq<Set<int>>, g: int, sol: Seq<int>)
    requires
        rep_wf(b),
        0 <= g <= 27,
        valid_sol(sol),
        consistent(b, sol),
    ensures
        consistent(dt_groups(b, g), sol),
    decreases g,
{
    if g > 0 {
        lemma_dt_groups_sound(b, g - 1, sol);
        lemma_dt_groups_narrows(b, g - 1);
        lemma_dt_idx_sound(b, dt_groups(b, g - 1), g - 1, 9, sol);
    }
}

/// Direct Tuples: for each group and anchor cell, find the run of cells whose
/// candidate sets equal the anchor's; when the run is as long as the set is
/// large, strike the set from every cell outside the run.
pub fn direct_tuples(board: &Board) -> (r: Board)
    requires
        board.wf(),
    ensures
        r.wf(),
        r@ == spec_direct_tuples(board@),
{
    let mut into = board.clone();
    let ghost b = board@;
    let mut g: usize = 0;
    while g < 27
        invariant
            board.wf(),
            into.wf(),
            b == board@,
            g <= 27,
            into@ == dt_groups(b, g as int),
        decreases 27 - g,
    {
        let mut i: usize = 0;
        while i < 9
            invariant
                board.wf(),
                into.wf(),
                b == board@,
                g < 27,
                i <= 9,
                into@ == dt_idx(b, dt_groups(b, g as int), g as int, i as int),
            decreases 9 - i,
        {
            proof {
                lemma_gpos_bounds(g as int, i as int);
            }
            let (ri, ci) = gp(g, i);
            proof {
                assert(ri * 9 + ci == gpos(g as int, i as int));
            }
            let s = board.cell_at(ri, ci).possiblities();
            let ghost pred = dt_pred(b, g as int, i as int);
            let mut cnt: usize = 0;
            let mut k: usize = 0;
            while k < 9
                invariant
                    board.wf(),
                    b == board@,
                    g < 27,
                    i < 9,
                    k <= 9,
                    cnt <= k,
                    pred == dt_pred(b, g as int, i as int),
                    s@ == b[gpos(g as int, i as int)],
                    cnt == icnt(pred, k as int),
                decreases 9 - k,
            {
                proof {
                    lemma_gpos_bounds(g as int, k as int);
                }
                let (rk, ck) = gp(g, k);
                proof {
                    assert(rk * 9 + ck == gpos(g as int, k as int));
                }
                let member = k == i || (k > i && board.cell_at(rk, ck).possiblities().same_as(
                    &s,
                ));
                if member {
                    cnt = cnt + 1;
                    proof {
                        assert(pred(k as int));
                    }
                } else {
                    proof {
                        assert(!pred(k as int));
                    }
                }
                k = k + 1;
            }
            if cnt == s.len() {
                let ghost base = dt_idx(b, dt_groups(b, g as int), g as int, i as int);
                let mut k: usize = 0;
                while k < 9
                    invariant
                        board.wf(),
                        into.wf(),
                        b == board@,
                        g < 27,
                        i < 9,
                        k <= 9,
                        pred == dt_pred(b, g as int, i as int),
                        s@ == b[gpos(g as int, i as int)],
                        icnt(pred, 9) == card(b[gpos(g as int, i as int)]),
                        base == dt_idx(b, dt_groups(b, g as int), g as int, i as int),
                        into@ == dt_rm(b, base, g as int, i as int, k as int),
                    decreases 9 - k,
                {
                    proof {
                        lemma_gpos_bounds(g as int, k as int);
                    }
                    let (rk, ck) = gp(g, k);
                    proof {
                        assert(rk * 9 + ck == gpos(g as int, k as int));
                    }
                    let member = k == i || (k > i && board.cell_at(rk, ck).possiblities()
                        .same_as(&s));
                    if !member {
                        proof {
                            assert(!pred(k as int));
                        }
                        let mut tc = into.cell_at(rk, ck);
                        tc.remove_all(s);
                        into.set_cell(rk, ck, tc);
                    } else {
                        proof {
                            assert(pred(k as int));
                        }
                    }
                    k = k + 1;
                }
                proof {
                    assert(into@ == dt_idx(b, dt_groups(b, g as int), g as int, i as int + 1));
                }
            } else {
                proof {
                    assert(into@ == dt_idx(b, dt_groups(b, g as int), g as int, i as int + 1));
                }
            }
            i = i + 1;
        }
        g = g + 1;
    }
    into
}


// ---------------------------------------------------------------------------
// Indirect Pairs and Triples (hidden subsets): when exactly as many cells
// admit any value of a small value set as the set has values, those cells
// keep only that set.
// ---------------------------------------------------------------------------

/// The unordered pair of two domain values.
pub open spec fn pair_of(v1: int, v2: int) -> Set<int> {
    Set::<int>::empty().insert(v1).insert(v2)
}

/// The unordered triple of three domain values.
pub open spec fn tri_of(v1: int, v2: int, v3: int) -> Set<int> {
    Set::<int>::empty().insert(v1).insert(v2).insert(v3)
}

/// Whether cell `k` of group `g` still admits any value of `pr`.
pub open spec fn ip_pred(b: Seq<Set<int>>, g: int, pr: Set<int>) -> spec_fn(int) -> bool {
    |k: int| !b[gpos(g, k)].disjoint(pr)
}

/// Restrict the first `k` cells that admit a value of `pr` to `pr` itself.
pub open spec fn ip_keep(
    b: Seq<Set<int>>,
    into: Seq<Set<int>>,
    g: int,
    pr: Set<int>,
    k: int,
) -> Seq<Set<int>>
    decreases k,
{
    if k <= 0 {
        into
    } else {
        let prev = ip_keep(b, into, g, pr, k - 1);
        let p = gpos(g, k - 1);
        if (ip_pred(b, g, pr))(k - 1) {
            prev.update(p, prev[p].intersect(pr))
        } else {
            prev
        }
    }
}

/// Indirect Pairs for group `g` and first value `v1`, with second values up
/// to `v2`.
pub open spec fn ip_v2(b: Seq<Set<int>>, into: Seq<Set<int>>, g: int, v1: int, v2: int) -> Seq<
    Set<int>,
>
    decreases v2 - v1,
{
    if v2 <= v1 {
        into
    } else {
        let prev = ip_v2(b, into, g, v1, v2 - 1);
        if icnt(ip_pred(b, g, pair_of(v1, v2)), 9) == 2 {
            ip_keep(b, prev, g, pair_of(v1, v2), 9)
        } else {
            prev
        }
    }
}

/// Indirect Pairs for group `g` over first values 1 through `v1`.
pub open spec fn ip_v1(b: Seq<Set<int>>, into: Seq<Set<int>>, g: int, v1: int) -> Seq<Set<int>>
    decreases v1,
{
    if v1 <= 0 {
        into
    } else {
        ip_v2(b, ip_v1(b, into, g, v1 - 1), g, v1, 9)
    }
}

/// Indirect Pairs applied to the first `g` groups.
pub open spec fn ip_groups(b: Seq<Set<int>>, g: int) -> Seq<Set<int>>
    decreases g,
{
    if g <= 0 {
        b
    } else {
        ip_v1(b, ip_groups(b, g - 1), g - 1, 9)
    }
}

/// What Indirect Pairs leaves of a snapshot.
pub open spec fn spec_indirect_pairs(b: Seq<Set<int>>) -> Seq<Set<int>> {
    ip_groups(b, 27)
}

/// Indirect Triples for group `g` and values `v1 < v2`, with third values up
/// to `v3`.
pub open spec fn it_v3(
    b: Seq<Set<int>>,
    into: Seq<Set<int>>,
    g: int,
    v1: int,
    v2: int,
    v3: int,
) -> Seq<Set<int>>
    decreases v3 - v2,
{
    if v3 <= v2 {
        into
    } else {
        let prev = it_v3(b, into, g, v1, v2, v3 - 1);
        if icnt(ip_pred(b, g, tri_of(v1, v2, v3)), 9) == 3 {
            ip_keep(b, prev, g, tri_of(v1, v2, v3), 9)
        } else {
            prev
        }
    }
}

/// Indirect Triples for group `g` and first value `v1`, with second values up
/// to `v2`.
pub open spec fn it_v2(b: Seq<Set<int>>, into: Seq<Set<int>>, g: int, v1: int, v2: int) -> Seq<
    Set<int>,
>
    decreases v2 - v1,
{
    if v2 <= v1 {
        into
    } else {
        it_v3(b, it_v2(b, into, g, v1, v2 - 1), g, v1, v2, 9)
    }
}

/// Indirect Triples for group `g` over first values 1 through `v1`.
pub open spec fn it_v1(b: Seq<Set<int>>, into: Seq<Set<int>>, g: int, v1: int) -> Seq<Set<int>>
    decreases v1,
{
    if v1 <= 0 {
        into
    } else {
        it_v2(b, it_v1(b, into, g, v1 - 1), g, v1, 9)
    }
}

/// Indirect Triples applied to the first `g` groups.
pub open spec fn it_groups(b: Seq<Set<int>>, g: int) -> Seq<Set<int>>
    decreases g,
{
    if g <= 0 {
        b
    } else {
        it_v1(b, it_groups(b, g - 1), g - 1, 9)
    }
}

/// What Indirect Triples leaves of a snapshot.
pub open spec fn spec_indirect_triples(b: Seq<Set<int>>) -> Seq<Set<int>> {
    it_groups(b, 27)
}

proof fn lemma_ip_keep_narrows(b: Seq<Set<int>>, into: Seq<Set<int>>, g: int, pr: Set<int>, k: int)
    requires
        into.len() == 81,
        0 <= g < 27,
        0 <= k <= 9,
    ensures
        narrows(into, ip_keep(b, into, g, pr, k)),
    decreases k,
{
    if k > 0 {
        lemma_ip_keep_narrows(b, into, g, pr, k - 1);
        lemma_gpos_bounds(g, k - 1);
    }
}

proof fn lemma_ip_v2_narrows(b: Seq<Set<int>>, into: Seq<Set<int>>, g: int, v1: int, v2: int)
    requires
        into.len() == 81,
        0 <= g < 27,
        0 <= v1,
        v2 <= 9,
    ensures
        narrows(into, ip_v2(b, into, g, v1, v2)),
    decreases v2,
{
    if v2 > v1 {
        lemma_ip_v2_narrows(b, into, g, v1, v2 - 1);
        if icnt(ip_pred(b, g, pair_of(v1, v2)), 9) == 2 {
            lemma_ip_keep_narrows(b, ip_v2(b, into, g, v1, v2 - 1), g, pair_of(v1, v2), 9);
            lemma_narrows_trans(
                into,
                ip_v2(b, into, g, v1, v2 - 1),
                ip_keep(b, ip_v2(b, into, g, v1, v2 - 1), g, pair_of(v1, v2), 9),
            );
        }
    }
}

proof fn lemma_ip_v1_narrows(b: Seq<Set<int>>, into: Seq<Set<int>>, g: int, v1: int)
    requires
        into.len() == 81,
        0 <= g < 27,
        v1 <= 9,
    ensures
        narrows(into, ip_v1(b, into, g, v1)),
    decreases v1,
{
    if v1 > 0 {
        lemma_ip_v1_narrows(b, into, g, v1 - 1);
        lemma_ip_v2_narrows(b, ip_v1(b, into, g, v1 - 1), g, v1, 9);
        lemma_narrows_trans(
            into,
            ip_v1(b, into, g, v1 - 1),
            ip_v2(b, ip_v1(b, into, g, v1 - 1), g, v1, 9),
        );
    }
}

/// Indirect Pairs only narrows candidate sets.
pub proof fn lemma_ip_narrows(b: Seq<Set<int>>)
    requires
        b.len() == 81,
    ensures
        narrows(b, spec_indirect_pairs(b)),
{
    lemma_ip_groups_narrows(b, 27);
}

proof fn lemma_ip_groups_narrows(b: Seq<Set<int>>, g: int)
    requires
        b.len() == 81,
        0 <= g <= 27,
    ensures
        narrows(b, ip_groups(b, g)),
    decreases g,
{
    if g > 0 {
        lemma_ip_groups_narrows(b, g - 1);
        lemma_ip_v1_narrows(b, ip_groups(b, g - 1), g - 1, 9);
        lemma_narrows_trans(
            b,
            ip_groups(b, g - 1),
            ip_v1(b, ip_groups(b, g - 1), g - 1, 9),
        );
    }
}

proof fn lemma_it_v3_narrows(
    b: Seq<Set<int>>,
    into: Seq<Set<int>>,
    g: int,
    v1: int,
    v2: int,
    v3: int,
)
    requires
        into.len() == 81,
        0 <= g < 27,
        0 <= v2,
        v3 <= 9,
    ensures
        narrows(into, it_v3(b, into, g, v1, v2, v3)),
    decreases v3,
{
    if v3 > v2 {
        lemma_it_v3_narrows(b, into, g, v1, v2, v3 - 1);
        if icnt(ip_pred(b, g, tri_of(v1, v2, v3)), 9) == 3 {
            lemma_ip_keep_narrows(b, it_v3(b, into, g, v1, v2, v3 - 1), g, tri_of(v1, v2, v3), 9);
            lemma_narrows_trans(
                into,
                it_v3(b, into, g, v1, v2, v3 - 1),
                ip_keep(b, it_v3(b, into, g, v1, v2, v3 - 1), g, tri_of(v1, v2, v3), 9),
            );
        }
    }
}

proof fn lemma_it_v2_narrows(b: Seq<Set<int>>, into: Seq<Set<int>>, g: int, v1: int, v2: int)
    requires
        into.len() == 81,
        0 <= g < 27,
        0 <= v1,
        v2 <= 9,
    ensures
        narrows(into, it_v2(b, into, g, v1, v2)),
    decreases v2,
{
    if v2 > v1 {
        lemma_it_v2_narrows(b, into, g, v1, v2 - 1);
        lemma_it_v3_narrows(b, it_v2(b, into, g, v1, v2 - 1), g, v1, v2, 9);
        lemma_narrows_trans(
            into,
            it_v2(b, into, g, v1, v2 - 1),
            it_v3(b, it_v2(b, into, g, v1, v2 - 1), g, v1, v2, 9),
        );
    }
}

proof fn lemma_it_v1_narrows(b: Seq<Set<int>>, into: Seq<Set<int>>, g: int, v1: int)
    requires
        into.len() == 81,
        0 <= g < 27,
        v1 <= 9,
    ensures
        narrows(into, it_v1(b, into, g, v1)),
    decreases v1,
{
    if v1 > 0 {
        lemma_it_v1_narrows(b, into, g, v1 - 1);
        lemma_it_v2_narrows(b, it_v1(b, into, g, v1 - 1), g, v1, 9);
        lemma_narrows_trans(
            into,
            it_v1(b, into, g, v1 - 1),
            it_v2(b, it_v1(b, into, g, v1 - 1), g, v1, 9),
        );
    }
}

/// Indirect Triples only narrows candidate sets.
pub proof fn lemma_it_narrows(b: Seq<Set<int>>)
    requires
        b.len() == 81,
    ensures
        narrows(b, spec_indirect_triples(b)),
{
    lemma_it_groups_narrows(b, 27);
}

proof fn lemma_it_groups_narrows(b: Seq<Set<int>>, g: int)
    requires
        b.len() == 81,
        0 <= g <= 27,
    ensures
        narrows(b, it_groups(b, g)),
    decreases g,
{
    if g > 0 {
        lemma_it_groups_narrows(b, g - 1);
        lemma_it_v1_narrows(b, it_groups(b, g - 1), g - 1, 9);
        lemma_narrows_trans(
            b,
            it_groups(b, g - 1),
            it_v1(b, it_groups(b, g - 1), g - 1, 9),
        );
    }
}

proof fn lemma_pair_keep_sound(
    b: Seq<Set<int>>,
    into: Seq<Set<int>>,
    g: int,
    v1: int,
    v2: int,
    k: int,
    sol: Seq<int>,
)
    requires
        into.len() == 81,
        0 <= g < 27,
        1 <= v1 < v2 <= 9,
        0 <= k <= 9,
        valid_sol(sol),
        consistent(b, sol),
        consistent(into, sol),
        icnt(ip_pred(b, g, pair_of(v1, v2)), 9) == 2,
    ensures
        consistent(ip_keep(b, into, g, pair_of(v1, v2), k), sol),
    decreases k,
{
    if k > 0 {
        lemma_pair_keep_sound(b, into, g, v1, v2, k - 1, sol);
        lemma_ip_keep_narrows(b, into, g, pair_of(v1, v2), k - 1);
        let pr = pair_of(v1, v2);
        let pred = ip_pred(b, g, pr);
        let p = gpos(g, k - 1);
        lemma_gpos_bounds(g, k - 1);
        if pred(k - 1) {
            assert(pr.contains(sol[p])) by {
                lemma_sol_covers(sol, g, v1);
                let ka = choose|kk: int| 0 <= kk < 9 && sol[#[trigger] gpos(g, kk)] == v1;
                lemma_sol_covers(sol, g, v2);
                let kb = choose|kk: int| 0 <= kk < 9 && sol[#[trigger] gpos(g, kk)] == v2;
                lemma_gpos_bounds(g, ka);
                lemma_gpos_bounds(g, kb);
                assert(pred(ka)) by {
                    assert(b[gpos(g, ka)].contains(v1) && pr.contains(v1));
                }
                assert(pred(kb)) by {
                    assert(b[gpos(g, kb)].contains(v2) && pr.contains(v2));
                }
                assert(ka != kb);
                if k - 1 != ka && k - 1 != kb {
                    lemma_icnt_three(pred, k - 1, ka, kb, 9);
                }
            }
        }
    }
}

proof fn lemma_tri_keep_sound(
    b: Seq<Set<int>>,
    into: Seq<Set<int>>,
    g: int,
    v1: int,
    v2: int,
    v3: int,
    k: int,
    sol: Seq<int>,
)
    requires
        into.len() == 81,
        0 <= g < 27,
        1 <= v1 < v2 < v3 <= 9,
        0 <= k <= 9,
        valid_sol(sol),
        consistent(b, sol),
        consistent(into, sol),
        icnt(ip_pred(b, g, tri_of(v1, v2, v3)), 9) == 3,
    ensures
        consistent(ip_keep(b, into, g, tri_of(v1, v2, v3), k), sol),
    decreases k,
{
    if k > 0 {
        lemma_tri_keep_sound(b, into, g, v1, v2, v3, k - 1, sol);
        lemma_ip_keep_narrows(b, into, g, tri_of(v1, v2, v3), k - 1);
        let pr = tri_of(v1, v2, v3);
        let pred = ip_pred(b, g, pr);
        let p = gpos(g, k - 1);
        lemma_gpos_bounds(g, k - 1);
        if pred(k - 1) {
            assert(pr.contains(sol[p])) by {
                lemma_sol_covers(sol, g, v1);
                let ka = choose|kk: int| 0 <= kk < 9 && sol[#[trigger] gpos(g, kk)] == v1;
                lemma_sol_covers(sol, g, v2);
                let kb = choose|kk: int| 0 <= kk < 9 && sol[#[trigger] gpos(g, kk)] == v2;
                lemma_sol_covers(sol, g, v3);
                let kc = choose|kk: int| 0 <= kk < 9 && sol[#[trigger] gpos(g, kk)] == v3;
                lemma_gpos_bounds(g, ka);
                lemma_gpos_bounds(g, kb);
                lemma_gpos_bounds(g, kc);
                assert(pred(ka)) by {
                    assert(b[gpos(g, ka)].contains(v1) && pr.contains(v1));
                }
                assert(pred(kb)) by {
                    assert(b[gpos(g, kb)].contains(v2) && pr.contains(v2));
                }
                assert(pred(kc)) by {
                    assert(b[gpos(g, kc)].contains(v3) && pr.contains(v3));
                }
                assert(ka != kb && ka != kc && kb != kc);
                if k - 1 != ka && k - 1 != kb && k - 1 != kc {
                    lemma_icnt_four(pred, k - 1, ka, kb, kc, 9);
                }
            }
        }
    }
}

proof fn lemma_ip_v2_sound(
    b: Seq<Set<int>>,
    into: Seq<Set<int>>,
    g: int,
    v1: int,
    v2: int,
    sol: Seq<int>,
)
    requires
        into.len() == 81,
        0 <= g < 27,
        1 <= v1 <= 9,
        v2 <= 9,
        valid_sol(sol),
        consistent(b, sol),
        consistent(into, sol),
    ensures
        consistent(ip_v2(b, into, g, v1, v2), sol),
    decreases v2,
{
    if v2 > v1 {
        lemma_ip_v2_sound(b, into, g, v1, v2 - 1, sol);
        lemma_ip_v2_narrows(b, into, g, v1, v2 - 1);
        if icnt(ip_pred(b, g, pair_of(v1, v2)), 9) == 2 {
            lemma_pair_keep_sound(b, ip_v2(b, into, g, v1, v2 - 1), g, v1, v2, 9, sol);
        }
    }
}

proof fn lemma_ip_v1_sound(
    b: Seq<Set<int>>,
    into: Seq<Set<int>>,
    g: int,
    v1: int,
    sol: Seq<int>,
)
    requires
        into.len() == 81,
        0 <= g < 27,
        v1 <= 9,
        valid_sol(sol),
        consistent(b, sol),
        consistent(into, sol),
    ensures
        consistent(ip_v1(b, into, g, v1), sol),
    decreases v1,
{
    if v1 > 0 {
        lemma_ip_v1_sound(b, into, g, v1 - 1, sol);
        lemma_ip_v1_narrows(b, into, g, v1 - 1);
        lemma_ip_v2_sound(b, ip_v1(b, into, g, v1 - 1), g, v1, 9, sol);
    }
}

/// Indirect Pairs never discards a value a valid completion needs.
pub proof fn lemma_ip_sound(b: Seq<Set<int>>, sol: Seq<int>)
    requires
        b.len() == 81,
        valid_sol(sol),
        consistent(b, sol),
    ensures
        consistent(spec_indirect_pairs(b), sol),
{
    lemma_ip_groups_sound(b, 27, sol);
}

proof fn lemma_ip_groups_sound(b: Seq<Set<int>>, g: int, sol: Seq<int>)
    requires
        b.len() == 81,
        0 <= g <= 27,
        valid_sol(sol),
        consistent(b, sol),
    ensures
        consistent(ip_groups(b, g), sol),
    decreases g,
{
    if g > 0 {
        lemma_ip_groups_sound(b, g - 1, sol);
        lemma_ip_groups_narrows(b, g - 1);
        lemma_ip_v1_sound(b, ip_groups(b, g - 1), g - 1, 9, sol);
    }
}

proof fn lemma_it_v3_sound(
    b: Seq<Set<int>>,
    into: Seq<Set<int>>,
    g: int,
    v1: int,
    v2: int,
    v3: int,
    sol: Seq<int>,
)
    requires
        into.len() == 81,
        0 <= g < 27,
        1 <= v1 < v2 <= 9,
        v3 <= 9,
        valid_sol(sol),
        consistent(b, sol),
        consistent(into, sol),
    ensures
        consistent(it_v3(b, into, g, v1, v2, v3), sol),
    decreases v3,
{
    if v3 > v2 {
        lemma_it_v3_sound(b, into, g, v1, v2, v3 - 1, sol);
        lemma_it_v3_narrows(b, into, g, v1, v2, v3 - 1);
        if icnt(ip_pred(b, g, tri_of(v1, v2, v3)), 9) == 3 {
            lemma_tri_keep_sound(b, it_v3(b, into, g, v1, v2, v3 - 1), g, v1, v2, v3, 9, sol);
        }
    }
}

proof fn lemma_it_v2_sound(
    b: Seq<Set<int>>,
    into: Seq<Set<int>>,
    g: int,
    v1: int,
    v2: int,
    sol: Seq<int>,
)
    requires
        into.len() == 81,
        0 <= g < 27,
        1 <= v1 <= 9,
        v2 <= 9,
        valid_sol(sol),
        consistent(b, sol),
        consistent(into, sol),
    ensures
        consistent(it_v2(b, into, g, v1, v2), sol),
    decreases v2,
{
    if v2 > v1 {
        lemma_it_v2_sound(b, into, g, v1, v2 - 1, sol);
        lemma_it_v2_narrows(b, into, g, v1, v2 - 1);
        lemma_it_v3_sound(b, it_v2(b, into, g, v1, v2 - 1), g, v1, v2, 9, sol);
    }
}

proof fn lemma_it_v1_sound(
    b: Seq<Set<int>>,
    into: Seq<Set<int>>,
    g: int,
    v1: int,
    sol: Seq<int>,
)
    requires
        into.len() == 81,
        0 <= g < 27,
        v1 <= 9,
        valid_sol(sol),
        consistent(b, sol),
        consistent(into, sol),
    ensures
        consistent(it_v1(b, into, g, v1), sol),
    decreases v1,
{
    if v1 > 0 {
        lemma_it_v1_sound(b, into, g, v1 - 1, sol);
        lemma_it_v1_narrows(b, into, g, v1 - 1);
        lemma_it_v2_sound(b, it_v1(b, into, g, v1 - 1), g, v1, 9, sol);
    }
}

/// Indirect Triples never discards a value a valid completion needs.
pub proof fn lemma_it_sound(b: Seq<Set<int>>, sol: Seq<int>)
    requires
        b.len() == 81,
        valid_sol(sol),
        consistent(b, sol),
    ensures
        consistent(spec_indirect_triples(b), sol),
{
    lemma_it_groups_sound(b, 27, sol);
}

proof fn lemma_it_groups_sound(b: Seq<Set<int>>, g: int, sol: Seq<int>)
    requires
        b.len() == 81,
        0 <= g <= 27,
        valid_sol(sol),
        consistent(b, sol),
    ensures
        consistent(it_groups(b, g), sol),
    decreases g,
{
    if g > 0 {
        lemma_it_groups_sound(b, g - 1, sol);
        lemma_it_groups_narrows(b, g - 1);
        lemma_it_v1_sound(b, it_groups(b, g - 1), g - 1, 9, sol);
    }
}

/// Restrict the cells of group `g` that admit a value of `pv` to `pv`, as
/// `ip_keep` describes; shared by the pair and triple strategies.
fn keep_pass(board: &Board, into: &mut Board, g: usize, pv: ValueSet, Ghost(base): Ghost<Seq<Set<int>>>)
    requires
        board.wf(),
        old(into).wf(),
        g < 27,
        old(into)@ == base,
    ensures
        final(into).wf(),
        final(into)@ == ip_keep(board@, base, g as int, pv@, 9),
{
    let ghost b = board@;
    let mut k: usize = 0;
    while k < 9
        invariant
            board.wf(),
            into.wf(),
            b == board@,
            g < 27,
            k <= 9,
            into@ == ip_keep(b, base, g as int, pv@, k as int),
        decreases 9 - k,
    {
        proof {
            lemma_gpos_bounds(g as int, k as int);
        }
        let (rr, cc) = gp(g, k);
        proof {
            assert(rr * 9 + cc == gpos(g as int, k as int));
        }
        if board.cell_at(rr, cc).contains_any(pv) {
            proof {
                assert((ip_pred(b, g as int, pv@))(k as int));
            }
            let mut tc = into.cell_at(rr, cc);
            tc.keep(pv);
            into.set_cell(rr, cc, tc);
        } else {
            proof {
                assert(!(ip_pred(b, g as int, pv@))(k as int));
            }
        }
        k = k + 1;
    }
}

/// Count the cells of group `g` that admit a value of `pv`.
fn count_admitting(board: &Board, g: usize, pv: ValueSet) -> (cnt: usize)
    requires
        board.wf(),
        g < 27,
    ensures
        cnt == icnt(ip_pred(board@, g as int, pv@), 9),
{
    let ghost b = board@;
    let ghost pred = ip_pred(b, g as int, pv@);
    let mut cnt: usize = 0;
    let mut k: usize = 0;
    while k < 9
        invariant
            board.wf(),
            b == board@,
            g < 27,
            k <= 9,
            cnt <= k,
            pred == ip_pred(b, g as int, pv@),
            cnt == icnt(pred, k as int),
        decreases 9 - k,
    {
        proof {
            lemma_gpos_bounds(g as int, k as int);
        }
        let (rr, cc) = gp(g, k);
        proof {
            assert(rr * 9 + cc == gpos(g as int, k as int));
        }
        if board.cell_at(rr, cc).contains_any(pv) {
            cnt = cnt + 1;
            proof {
                assert(pred(k as int));
            }
        } else {
            proof {
                assert(!pred(k as int));
            }
        }
        k = k + 1;
    }
    cnt
}

/// Indirect Pairs: for each group and unordered pair of values, when exactly
/// two cells admit either value, restrict both cells to the pair.
pub fn indirect_pairs(board: &Board) -> (r: Board)
    requires
        board.wf(),
    ensures
        r.wf(),
        r@ == spec_indirect_pairs(board@),
{
    let mut into = board.clone();
    let ghost b = board@;
    let mut g: usize = 0;
    while g < 27
        invariant
            board.wf(),
            into.wf(),
            b == board@,
            g <= 27,
            into@ == ip_groups(b, g as int),
        decreases 27 - g,
    {
        let mut v1: usize = 1;
        while v1 <= 9
            invariant
                board.wf(),
                into.wf(),
                b == board@,
                g < 27,
                1 <= v1 <= 10,
                into@ == ip_v1(b, ip_groups(b, g as int), g as int, v1 as int - 1),
            decreases 10 - v1,
        {
            let ghost prev1 = ip_v1(b, ip_groups(b, g as int), g as int, v1 as int - 1);
            let c1 = CellValue::from_index(v1 - 1);
            let mut v2: usize = v1 + 1;
            while v2 <= 9
                invariant
                    board.wf(),
                    into.wf(),
                    b == board@,
                    g < 27,
                    1 <= v1 <= 9,
                    v1 + 1 <= v2 <= 10,
                    c1.as_int() == v1 as int,
                    prev1 == ip_v1(b, ip_groups(b, g as int), g as int, v1 as int - 1),
                    into@ == ip_v2(b, prev1, g as int, v1 as int, v2 as int - 1),
                decreases 10 - v2,
            {
                let c2 = CellValue::from_index(v2 - 1);
                let pv = ValueSet::only(c1).union(ValueSet::only(c2));
                proof {
                    assert(pv@ =~= pair_of(v1 as int, v2 as int));
                }
                let cnt = count_admitting(board, g, pv);
                if cnt == 2 {
                    let ghost base = ip_v2(b, prev1, g as int, v1 as int, v2 as int);
                    proof {
                        assert(base == ip_keep(
                            b,
                            ip_v2(b, prev1, g as int, v1 as int, v2 as int - 1),
                            g as int,
                            pair_of(v1 as int, v2 as int),
                            9,
                        ));
                    }
                    keep_pass(
                        board,
                        &mut into,
                        g,
                        pv,
                        Ghost(ip_v2(b, prev1, g as int, v1 as int, v2 as int - 1)),
                    );
                }
                v2 = v2 + 1;
            }
            v1 = v1 + 1;
        }
        g = g + 1;
    }
    into
}

/// Indirect Triples: for each group and unordered triple of values, when
/// exactly three cells admit any of them, restrict those cells to the triple.
pub fn indirect_triples(board: &Board) -> (r: Board)
    requires
        board.wf(),
    ensures
        r.wf(),
        r@ == spec_indirect_triples(board@),
{
    let mut into = board.clone();
    let ghost b = board@;
    let mut g: usize = 0;
    while g < 27
        invariant
            board.wf(),
            into.wf(),
            b == board@,
            g <= 27,
            into@ == it_groups(b, g as int),
        decreases 27 - g,
    {
        let mut v1: usize = 1;
        while v1 <= 9
            invariant
                board.wf(),
                into.wf(),
                b == board@,
                g < 27,
                1 <= v1 <= 10,
                into@ == it_v1(b, it_groups(b, g as int), g as int, v1 as int - 1),
            decreases 10 - v1,
        {
            let ghost prev1 = it_v1(b, it_groups(b, g as int), g as int, v1 as int - 1);
            let c1 = CellValue::from_index(v1 - 1);
            let mut v2: usize = v1 + 1;
            while v2 <= 9
                invariant
                    board.wf(),
                    into.wf(),
                    b == board@,
                    g < 27,
                    1 <= v1 <= 9,
                    v1 + 1 <= v2 <= 10,
                    c1.as_int() == v1 as int,
                    prev1 == it_v1(b, it_groups(b, g as int), g as int, v1 as int - 1),
                    into@ == it_v2(b, prev1, g as int, v1 as int, v2 as int - 1),
                decreases 10 - v2,
            {
                let ghost prev2 = it_v2(b, prev1, g as int, v1 as int, v2 as int - 1);
                let c2 = CellValue::from_index(v2 - 1);
                let mut v3: usize = v2 + 1;
                while v3 <= 9
                    invariant
                        board.wf(),
                        into.wf(),
                        b == board@,
                        g < 27,
                        1 <= v1 <= 9,
                        v1 + 1 <= v2 <= 9,
                        v2 + 1 <= v3 <= 10,
                        c1.as_int() == v1 as int,
                        c2.as_int() == v2 as int,
                        prev1 == it_v1(b, it_groups(b, g as int), g as int, v1 as int - 1),
                        prev2 == it_v2(b, prev1, g as int, v1 as int, v2 as int - 1),
                        into@ == it_v3(b, prev2, g as int, v1 as int, v2 as int, v3 as int - 1),
                    decreases 10 - v3,
                {
                    let c3 = CellValue::from_index(v3 - 1);
                    let pv = ValueSet::only(c1).union(ValueSet::only(c2)).union(
                        ValueSet::only(c3),
                    );
                    proof {
                        assert(pv@ =~= tri_of(v1 as int, v2 as int, v3 as int));
                    }
                    let cnt = count_admitting(board, g, pv);
                    if cnt == 3 {
                        keep_pass(
                            board,
                            &mut into,
                            g,
                            pv,
                            Ghost(it_v3(
                                b,
                                prev2,
                                g as int,
                                v1 as int,
                                v2 as int,
                                v3 as int - 1,
                            )),
                        );
                    }
                    v3 = v3 + 1;
                }
                v2 = v2 + 1;
            }
            v1 = v1 + 1;
        }
        g = g + 1;
    }
    into
}

} // verus!
