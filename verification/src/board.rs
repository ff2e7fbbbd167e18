use vstd::prelude::*;
use vstd::pervasive::VecAdditionalExecFns;
use vstd::string::StrSliceExecFns;

use crate::values::{
    all_vals, card, lemma_card_empty, lemma_card_one, lemma_card_singleton, lemma_card_strict,
    lemma_card_all, lemma_card_insert, lemma_vs_bounded, CellValue, ValueSet,
};

verus! {

/// A grid coordinate: row then column, each 0 through 8.
pub type CellPos = (usize, usize);

/// The coordinate of the `k`-th cell of group `g`: groups alternate the nine
/// rows and nine columns, then come the nine 3-by-3 boxes.
pub open spec fn group_cell(g: int, k: int) -> (int, int) {
    if g < 18 {
        if g % 2 == 0 {
            (g / 2, k)
        } else {
            (k, g / 2)
        }
    } else {
        ((g - 18) / 3 * 3 + k % 3, ((g - 18) % 3) * 3 + k / 3)
    }
}

/// The flat row-major index of the `k`-th cell of group `g`.
pub open spec fn gpos(g: int, k: int) -> int {
    group_cell(g, k).0 * 9 + group_cell(g, k).1
}

pub proof fn lemma_gpos_bounds(g: int, k: int)
    requires
        0 <= g < 27,
        0 <= k < 9,
    ensures
        0 <= group_cell(g, k).0 < 9,
        0 <= group_cell(g, k).1 < 9,
        0 <= gpos(g, k) < 81,
{
}

/// A candidate-set snapshot of the whole grid: 81 sets in row-major order.
pub open spec fn rep_wf(b: Seq<Set<int>>) -> bool {
    b.len() == 81 && forall|i: int| 0 <= i < 81 ==> (#[trigger] b[i]).subset_of(all_vals())
}

/// Every cell of `b` is a subset of the matching cell of `a`.
pub open spec fn narrows(a: Seq<Set<int>>, b: Seq<Set<int>>) -> bool {
    a.len() == 81 && b.len() == 81 && forall|i: int|
        0 <= i < 81 ==> (#[trigger] b[i]).subset_of(a[i])
}

/// A cell with exactly one candidate left.
pub open spec fn cell_known(s: Set<int>) -> bool {
    card(s) == 1
}

/// Every cell of the grid is down to a single candidate.
pub open spec fn spec_solved(b: Seq<Set<int>>) -> bool {
    forall|i: int| 0 <= i < 81 ==> cell_known(#[trigger] b[i])
}

/// Some group holds two known cells that agree on their value.
pub open spec fn has_dup(b: Seq<Set<int>>) -> bool {
    exists|g: int, k1: int, k2: int|
        0 <= g < 27 && 0 <= k1 < 9 && 0 <= k2 < 9 && k1 != k2 && cell_known(
            #[trigger] b[gpos(g, k1)],
        ) && b[gpos(g, k1)] == #[trigger] b[gpos(g, k2)]
}

/// A board in a contradictory state: a duplicated known value inside a
/// group, or a cell with no candidate left.
pub open spec fn spec_contradiction(b: Seq<Set<int>>) -> bool {
    has_dup(b) || exists|i: int| 0 <= i < 81 && #[trigger] b[i] == Set::<int>::empty()
}

/// A complete assignment of the grid obeying every group constraint.
pub open spec fn valid_sol(sol: Seq<int>) -> bool {
    sol.len() == 81 && (forall|i: int| 0 <= i < 81 ==> 1 <= #[trigger] sol[i] <= 9) && (forall|
        g: int,
        k1: int,
        k2: int,
    |
        0 <= g < 27 && 0 <= k1 < 9 && 0 <= k2 < 9 && k1 != k2 ==> #[trigger] sol[gpos(g, k1)]
            != #[trigger] sol[gpos(g, k2)])
}

/// The assignment is still admitted by every cell's candidate set.
pub open spec fn consistent(b: Seq<Set<int>>, sol: Seq<int>) -> bool {
    forall|i: int| 0 <= i < 81 ==> (#[trigger] b[i]).contains(sol[i])
}

/// Every valid assignment admitted by `a` is still admitted by `b`.
pub open spec fn keeps_sols(a: Seq<Set<int>>, b: Seq<Set<int>>) -> bool {
    forall|sol: Seq<int>|
        valid_sol(sol) && #[trigger] consistent(a, sol) ==> consistent(b, sol)
}

/// The values a valid assignment places on the first `k` cells of group `g`.
spec fn sol_vals(sol: Seq<int>, g: int, k: int) -> Set<int>
    decreases k,
{
    if k <= 0 {
        Set::<int>::empty()
    } else {
        sol_vals(sol, g, k - 1).insert(sol[gpos(g, k - 1)])
    }
}

proof fn lemma_sol_vals(sol: Seq<int>, g: int, k: int)
    requires
        valid_sol(sol),
        0 <= g < 27,
        0 <= k <= 9,
    ensures
        card(sol_vals(sol, g, k)) == k,
        sol_vals(sol, g, k).subset_of(all_vals()),
        forall|v: int|
            #[trigger] sol_vals(sol, g, k).contains(v) <==> exists|k2: int|
                0 <= k2 < k && sol[#[trigger] gpos(g, k2)] == v,
    decreases k,
{
    if k <= 0 {
        lemma_card_empty();
    } else {
        lemma_sol_vals(sol, g, k - 1);
        let v = sol[gpos(g, k - 1)];
        lemma_gpos_bounds(g, k - 1);
        assert(!sol_vals(sol, g, k - 1).contains(v)) by {
            if sol_vals(sol, g, k - 1).contains(v) {
                let k2 = choose|k2: int| 0 <= k2 < k - 1 && sol[gpos(g, k2)] == v;
                assert(sol[gpos(g, k2)] != sol[gpos(g, k - 1)]);
            }
        }
        lemma_card_insert(sol_vals(sol, g, k - 1), v);
        assert forall|w: int| #[trigger] sol_vals(sol, g, k).contains(w) implies exists|k2: int|
            0 <= k2 < k && sol[#[trigger] gpos(g, k2)] == w by {
            if w == v {
                assert(0 <= k - 1 < k && sol[gpos(g, k - 1)] == w);
            }
        }
    }
}

/// A valid assignment places every domain value somewhere in every group.
pub proof fn lemma_sol_covers(sol: Seq<int>, g: int, v: int)
    requires
        valid_sol(sol),
        0 <= g < 27,
        1 <= v <= 9,
    ensures
        exists|k: int| 0 <= k < 9 && sol[#[trigger] gpos(g, k)] == v,
{
    lemma_sol_vals(sol, g, 9);
    lemma_card_all();
    if sol_vals(sol, g, 9) != all_vals() {
        lemma_card_strict(sol_vals(sol, g, 9), all_vals());
    }
    assert(sol_vals(sol, g, 9).contains(v));
}

/// A contradictory board admits no valid assignment.
pub proof fn lemma_contra_no_sol(b: Seq<Set<int>>, sol: Seq<int>)
    requires
        rep_wf(b),
        spec_contradiction(b),
        valid_sol(sol),
    ensures
        !consistent(b, sol),
{
    if consistent(b, sol) {
        if has_dup(b) {
            let (g, k1, k2) = choose|g: int, k1: int, k2: int|
                0 <= g < 27 && 0 <= k1 < 9 && 0 <= k2 < 9 && k1 != k2 && cell_known(
                    b[gpos(g, k1)],
                ) && b[gpos(g, k1)] == b[gpos(g, k2)];
            lemma_gpos_bounds(g, k1);
            lemma_gpos_bounds(g, k2);
            lemma_card_one(b[gpos(g, k1)]);
            let w = choose|w: int| 1 <= w <= 9 && b[gpos(g, k1)] == set![w];
            assert(sol[gpos(g, k1)] == w && sol[gpos(g, k2)] == w);
        } else {
            let i = choose|i: int| 0 <= i < 81 && b[i] == Set::<int>::empty();
            assert(b[i].contains(sol[i]));
        }
    }
}

/// The tag of a group constraint: all nine cells hold distinct values.
#[derive(Clone, Copy, Debug, PartialEq, Eq, Structural)]
pub enum GroupType {
    OneToNine,
}

/// One of the 27 lines of the grid: nine coordinates plus its constraint tag.
#[derive(Clone, Copy)]
pub struct Group {
    cells: [CellPos; 9],
    pub group_type: GroupType,
}

impl View for Group {
    type V = Seq<CellPos>;

    closed spec fn view(&self) -> Seq<CellPos> {
        self.cells@
    }
}

/// The group's stored coordinates are exactly the layout of group `g`.
pub open spec fn group_wf(gr: Group, g: int) -> bool {
    gr@.len() == 9 && forall|k: int|
        0 <= k < 9 ==> ((#[trigger] gr@[k]).0 as int == group_cell(g, k).0 && gr@[k].1 as int
            == group_cell(g, k).1)
}

impl Group {
    /// The nine coordinates of the group, in layout order.
    pub fn cells(&self) -> (r: &[CellPos; 9])
        ensures
            r@ == self@,
    {
        &self.cells
    }
}

/// One grid position's remaining candidate values.
#[derive(Clone, Copy)]
pub struct Cell {
    candidates: ValueSet,
}

impl View for Cell {
    type V = Set<int>;

    closed spec fn view(&self) -> Set<int> {
        self.candidates@
    }
}

impl Cell {
    /// A fresh cell: all nine values still possible.
    pub fn new() -> (r: Cell)
        ensures
            r@ == all_vals(),
    {
        Cell { candidates: ValueSet::full() }
    }

    /// Whether no candidate is left.
    pub fn is_contradiction(&self) -> (r: bool)
        ensures
            r == (self@ == Set::<int>::empty()),
    {
        self.candidates.is_empty()
    }

    /// The single remaining value, if exactly one candidate is left.
    pub fn known(&self) -> (r: Option<CellValue>)
        ensures
            match r {
                Some(v) => self@ == set![v.as_int()],
                None => card(self@) != 1,
            },
    {
        let mut found: Option<CellValue> = None;
        let mut cnt: usize = 0;
        let mut i: usize = 0;
        while i < 9
            invariant
                i <= 9,
                cnt <= i,
                cnt == crate::values::count_vals(self@, i as int),
                match found {
                    Some(v) => self@.contains(v.as_int()),
                    None => cnt == 0,
                },
            decreases 9 - i,
        {
            let v = CellValue::from_index(i);
            if self.candidates.contains(v) {
                if cnt == 0 {
                    found = Some(v);
                }
                cnt = cnt + 1;
            }
            i = i + 1;
        }
        if cnt == 1 {
            proof {
                lemma_vs_bounded(self.candidates);
                lemma_card_one(self@);
                let w = choose|w: int| 1 <= w <= 9 && self@ == set![w];
                let v = found->Some_0;
                assert(set![w].contains(v.as_int()));
            }
            found
        } else {
            None
        }
    }

    /// Force the cell to the single value `v`.
    pub fn set(&mut self, v: CellValue)
        ensures
            final(self)@ == set![v.as_int()],
    {
        self.candidates = ValueSet::only(v);
    }

    /// Drop the value `v` from the candidates.
    pub fn remove(&mut self, v: CellValue)
        ensures
            final(self)@ == old(self)@.remove(v.as_int()),
    {
        self.candidates = self.candidates.remove(v);
    }

    /// Drop every value of `values` from the candidates.
    pub fn remove_all(&mut self, values: ValueSet)
        ensures
            final(self)@ == old(self)@.difference(values@),
    {
        self.candidates = self.candidates.difference(values);
    }

    /// Keep only the candidates that are also in `values`.
    pub fn keep(&mut self, values: ValueSet)
        ensures
            final(self)@ == old(self)@.intersect(values@),
    {
        self.candidates = self.candidates.intersect(values);
    }

    /// Whether `v` is still a candidate.
    pub fn contains(&self, v: CellValue) -> (r: bool)
        ensures
            r == self@.contains(v.as_int()),
    {
        self.candidates.contains(v)
    }

    /// Whether any value of `values` is still a candidate.
    pub fn contains_any(&self, values: ValueSet) -> (r: bool)
        ensures
            r == !self@.disjoint(values@),
    {
        !self.candidates.is_disjoint(values)
    }

    /// The remaining candidate set itself.
    pub fn possiblities(&self) -> (r: ValueSet)
        ensures
            r@ == self@,
    {
        self.candidates
    }

    /// How many candidates are left.
    pub fn candidate_count(&self) -> (n: usize)
        ensures
            n == card(self@),
    {
        self.candidates.len()
    }
}

/// The grid before anything is known: every cell fully ambiguous.
pub open spec fn blank_rep() -> Seq<Set<int>> {
    Seq::new(81, |i: int| all_vals())
}

/// What loading a text encodes, scanned up to its `n`-th character:
/// the grid so far and the cursor of the next cell to fill.
pub open spec fn load_state(s: Seq<char>, n: int) -> (Seq<Set<int>>, int)
    decreases n,
{
    if n <= 0 {
        (blank_rep(), 0)
    } else {
        let prev = load_state(s, n - 1);
        let c = s[n - 1];
        if prev.1 < 81 && (c == '_' || 1 <= digit_val(c)) {
            if c == '_' {
                (prev.0, prev.1 + 1)
            } else {
                (prev.0.update(prev.1, set![digit_val(c)]), prev.1 + 1)
            }
        } else {
            prev
        }
    }
}

/// The digit a character stands for, or 0 when it is no digit.
pub open spec fn digit_val(c: char) -> int {
    if c == '1' {
        1
    } else if c == '2' {
        2
    } else if c == '3' {
        3
    } else if c == '4' {
        4
    } else if c == '5' {
        5
    } else if c == '6' {
        6
    } else if c == '7' {
        7
    } else if c == '8' {
        8
    } else if c == '9' {
        9
    } else {
        0
    }
}

/// The grid a text encodes: `_` leaves a cell open, a digit forces it, any
/// other character is skipped without moving the cursor, and characters past
/// the 81st meaningful one are never written.
pub open spec fn spec_load(s: Seq<char>) -> Seq<Set<int>> {
    load_state(s, s.len() as int).0
}

/// The 9-by-9 grid of candidate cells together with its 27 groups.
pub struct Board {
    groups: Vec<Group>,
    cells: Vec<Cell>,
}

impl View for Board {
    type V = Seq<Set<int>>;

    closed spec fn view(&self) -> Seq<Set<int>> {
        self.cells@.map_values(|c: Cell| c@)
    }
}

impl Board {
    /// The grid holds its 81 cells and the fixed 27-group layout.
    pub closed spec fn wf(&self) -> bool {
        self.cells@.len() == 81 && self.groups@.len() == 27 && forall|g: int|
            0 <= g < 27 ==> group_wf(#[trigger] self.groups@[g], g)
    }

    /// A well-formed board's snapshot is 81 subsets of the domain.
    pub proof fn lemma_rep_wf(&self)
        requires
            self.wf(),
        ensures
            rep_wf(self@),
    {
        assert forall|i: int| 0 <= i < 81 implies (#[trigger] self@[i]).subset_of(all_vals()) by {
            lemma_vs_bounded(self.cells@[i].candidates);
        }
    }

    /// A board with every cell fully ambiguous.
    pub fn create_blank() -> (b: Board)
        ensures
            b.wf(),
            b@ == blank_rep(),
    {
        let mut cells: Vec<Cell> = Vec::new();
        let mut i: usize = 0;
        while i < 81
            invariant
                i <= 81,
                cells@.len() == i,
                forall|j: int| 0 <= j < i ==> (#[trigger] cells@[j])@ == all_vals(),
            decreases 81 - i,
        {
            cells.push(Cell::new());
            i = i + 1;
        }
        let mut groups: Vec<Group> = Vec::new();
        let mut g: usize = 0;
        while g < 27
            invariant
                g <= 27,
                groups@.len() == g,
                forall|h: int| 0 <= h < g ==> group_wf(#[trigger] groups@[h], h),
            decreases 27 - g,
        {
            let cs: [CellPos; 9] = [
                gp(g, 0),
                gp(g, 1),
                gp(g, 2),
                gp(g, 3),
                gp(g, 4),
                gp(g, 5),
                gp(g, 6),
                gp(g, 7),
                gp(g, 8),
            ];
            let gr = Group { cells: cs, group_type: GroupType::OneToNine };
            proof {
                assert(group_wf(gr, g as int)) by {
                    assert(forall|k: int| 0 <= k < 9 ==> (#[trigger] gr@[k]).0 as int
                        == group_cell(g as int, k).0 && gr@[k].1 as int == group_cell(
                        g as int,
                        k,
                    ).1);
                }
            }
            groups.push(gr);
            g = g + 1;
        }
        let b = Board { cells, groups };
        proof {
            assert(b@ =~= blank_rep());
        }
        b
    }

    /// Load a grid from text, as `spec_load` describes.
    pub fn load(board: &str) -> (b: Board)
        ensures
            b.wf(),
            b@ == spec_load(board@),
    {
        let mut this = Board::create_blank();
        let n = board.unicode_len();
        let mut cur: usize = 0;
        let mut i: usize = 0;
        while i < n
            invariant
                this.wf(),
                i <= n,
                n == board@.len(),
                cur <= 81,
                load_state(board@, i as int) == (this@, cur as int),
            decreases n - i,
        {
            let c = board.get_char(i);
            if cur < 81 {
                if c == '_' {
                    cur = cur + 1;
                } else {
                    let d = digit_value(c);
                    match d {
                        Some(v) => {
                            let mut cell = this.cell_flat(cur);
                            cell.set(v);
                            this.set_flat(cur, cell);
                            cur = cur + 1;
                        },
                        None => {},
                    }
                }
            }
            i = i + 1;
        }
        this
    }

    /// The 27 groups of the board, in layout order.
    pub fn groups(&self) -> (r: &Vec<Group>)
        requires
            self.wf(),
        ensures
            r@.len() == 27,
            forall|g: int| 0 <= g < 27 ==> group_wf(#[trigger] r@[g], g),
    {
        &self.groups
    }

    /// The cell at the given coordinate.
    pub fn cell_at(&self, r: usize, c: usize) -> (cell: Cell)
        requires
            self.wf(),
            r < 9,
            c < 9,
        ensures
            cell@ == self@[r * 9 + c],
    {
        self.cells[r * 9 + c]
    }

    /// The cell at the given flat row-major index.
    pub fn cell_flat(&self, i: usize) -> (cell: Cell)
        requires
            self.wf(),
            i < 81,
        ensures
            cell@ == self@[i as int],
    {
        self.cells[i]
    }

    /// Replace the cell at the given coordinate.
    pub fn set_cell(&mut self, r: usize, c: usize, cell: Cell)
        requires
            old(self).wf(),
            r < 9,
            c < 9,
        ensures
            final(self).wf(),
            final(self)@ == old(self)@.update(r * 9 + c, cell@),
    {
        self.set_flat(r * 9 + c, cell);
    }

    /// Replace the cell at the given flat index.
    pub fn set_flat(&mut self, i: usize, cell: Cell)
        requires
            old(self).wf(),
            i < 81,
        ensures
            final(self).wf(),
            final(self)@ == old(self)@.update(i as int, cell@),
    {
        self.cells.set(i, cell);
        proof {
            assert(final(self)@ =~= old(self)@.update(i as int, cell@));
        }
    }

    /// True iff every cell is known: each holds exactly one candidate.
    pub fn is_solved(&self) -> (r: bool)
        requires
            self.wf(),
        ensures
            r == spec_solved(self@),
    {
        let mut i: usize = 0;
        while i < 81
            invariant
                self.wf(),
                i <= 81,
                forall|j: int| 0 <= j < i ==> cell_known(#[trigger] self@[j]),
            decreases 81 - i,
        {
            let cell = self.cell_flat(i);
            match cell.known() {
                None => {
                    return false;
                },
                Some(v) => {
                    proof {
                        lemma_card_singleton(v.as_int());
                    }
                },
            }
            i = i + 1;
        }
        true
    }

    /// True iff some group holds two known cells with the same value, or
    /// some cell has run out of candidates.
    pub fn is_contradiction(&self) -> (r: bool)
        requires
            self.wf(),
        ensures
            r == spec_contradiction(self@),
    {
        let mut g: usize = 0;
        while g < 27
            invariant
                self.wf(),
                g <= 27,
                forall|h: int, k1: int, k2: int|
                    0 <= h < g && 0 <= k1 < k2 < 9 && cell_known(#[trigger] self@[gpos(h, k1)])
                        ==> self@[gpos(h, k1)] != #[trigger] self@[gpos(h, k2)],
            decreases 27 - g,
        {
            let mut knowns = ValueSet::empty();
            let mut k: usize = 0;
            while k < 9
                invariant
                    self.wf(),
                    g < 27,
                    k <= 9,
                    forall|v: int|
                        1 <= v <= 9 ==> (#[trigger] knowns@.contains(v) <==> exists|k2: int|
                            0 <= k2 < k && self@[#[trigger] gpos(g as int, k2)] == set![v]),
                    forall|k1: int, k2: int|
                        0 <= k1 < k2 < k && cell_known(#[trigger] self@[gpos(g as int, k1)])
                            ==> self@[gpos(g as int, k1)] != #[trigger] self@[gpos(g as int, k2)],
                decreases 9 - k,
            {
                proof {
                    lemma_gpos_bounds(g as int, k as int);
                }
                let (r, c) = gp(g, k);
                let cell = self.cell_at(r, c);
                proof {
                    assert(r * 9 + c == gpos(g as int, k as int));
                }
                match cell.known() {
                    Some(v) => {
                        proof {
                            lemma_card_singleton(v.as_int());
                        }
                        if knowns.contains(v) {
                            proof {
                                let k2 = choose|k2: int|
                                    0 <= k2 < k && self@[gpos(g as int, k2)] == set![v.as_int()];
                                assert(cell_known(self@[gpos(g as int, k2)]));
                                assert(has_dup(self@));
                            }
                            return true;
                        }
                        let ghost knowns0 = knowns@;
                        knowns = knowns.union(ValueSet::only(v));
                        proof {
                            assert(self@[gpos(g as int, k as int)] == set![v.as_int()]);
                            assert forall|w: int| #![trigger knowns@.contains(w)]
                                1 <= w <= 9 implies (knowns@.contains(w) <==> exists|k2: int|
                                0 <= k2 < k + 1 && self@[#[trigger] gpos(g as int, k2)]
                                    == set![w]) by {
                                if knowns@.contains(w) {
                                    if knowns0.contains(w) {
                                        let k2 = choose|k2: int|
                                            0 <= k2 < k && self@[gpos(g as int, k2)] == set![w];
                                        assert(0 <= k2 < k + 1 && self@[gpos(g as int, k2)]
                                            == set![w]);
                                    } else {
                                        assert(set![v.as_int()].contains(w));
                                        assert(self@[gpos(g as int, k as int)] == set![w]);
                                    }
                                } else {
                                    assert forall|k2: int| 0 <= k2 < k + 1 implies self@[#[trigger]
                                        gpos(g as int, k2)] != set![w] by {
                                        if self@[gpos(g as int, k2)] == set![w] {
                                            assert(set![w].contains(w));
                                            if k2 == k {
                                                assert(w == v.as_int());
                                            } else {
                                                assert(knowns0.contains(w));
                                            }
                                            assert(knowns@.contains(w));
                                        }
                                    }
                                }
                            }
                            assert forall|k1: int, k2: int|
                                0 <= k1 < k2 < k + 1 && cell_known(
                                    #[trigger] self@[gpos(g as int, k1)],
                                ) implies self@[gpos(g as int, k1)] != #[trigger] self@[gpos(
                                g as int,
                                k2,
                            )] by {
                                if k2 == k && self@[gpos(g as int, k1)] == self@[gpos(
                                    g as int,
                                    k2,
                                )] {
                                    assert(self@[gpos(g as int, k1)] == set![v.as_int()]);
                                    assert(knowns@.contains(v.as_int()));
                                }
                            }
                        }
                    },
                    None => {
                        proof {
                            assert(!cell_known(self@[gpos(g as int, k as int)]));
                            assert forall|w: int| #![trigger knowns@.contains(w)]
                                1 <= w <= 9 implies (knowns@.contains(w) <==> exists|k2: int|
                                0 <= k2 < k + 1 && self@[#[trigger] gpos(g as int, k2)]
                                    == set![w]) by {
                                if knowns@.contains(w) {
                                    let k2 = choose|k2: int|
                                        0 <= k2 < k && self@[gpos(g as int, k2)] == set![w];
                                    assert(0 <= k2 < k + 1 && self@[gpos(g as int, k2)]
                                        == set![w]);
                                } else {
                                    assert forall|k2: int| 0 <= k2 < k + 1 implies self@[#[trigger]
                                        gpos(g as int, k2)] != set![w] by {
                                        if self@[gpos(g as int, k2)] == set![w] {
                                            if k2 == k {
                                                lemma_card_singleton(w);
                                            } else {
                                                assert(knowns@.contains(w));
                                            }
                                        }
                                    }
                                }
                            }
                            assert forall|k1: int, k2: int|
                                0 <= k1 < k2 < k + 1 && cell_known(
                                    #[trigger] self@[gpos(g as int, k1)],
                                ) implies self@[gpos(g as int, k1)] != #[trigger] self@[gpos(
                                g as int,
                                k2,
                            )] by {
                                if k2 == k && self@[gpos(g as int, k1)] == self@[gpos(
                                    g as int,
                                    k2,
                                )] {
                                    assert(cell_known(self@[gpos(g as int, k as int)]));
                                }
                            }
                        }
                    },
                }
                k = k + 1;
            }
            g = g + 1;
        }
        proof {
            assert(!has_dup(self@)) by {
                if has_dup(self@) {
                    let (h, k1, k2) = choose|h: int, k1: int, k2: int|
                        0 <= h < 27 && 0 <= k1 < 9 && 0 <= k2 < 9 && k1 != k2 && cell_known(
                            #[trigger] self@[gpos(h, k1)],
                        ) && self@[gpos(h, k1)] == #[trigger] self@[gpos(h, k2)];
                    if k1 < k2 {
                        assert(self@[gpos(h, k1)] != self@[gpos(h, k2)]);
                    } else {
                        assert(cell_known(self@[gpos(h, k2)]));
                        assert(self@[gpos(h, k2)] != self@[gpos(h, k1)]);
                    }
                }
            }
        }
        let mut i: usize = 0;
        while i < 81
            invariant
                self.wf(),
                i <= 81,
                !has_dup(self@),
                forall|j: int| 0 <= j < i ==> #[trigger] self@[j] != Set::<int>::empty(),
            decreases 81 - i,
        {
            let cell = self.cell_flat(i);
            if cell.is_contradiction() {
                return true;
            }
            i = i + 1;
        }
        false
    }

    /// Whether the two boards hold the same candidates in every cell.
    pub fn grid_eq(&self, other: &Board) -> (r: bool)
        requires
            self.wf(),
            other.wf(),
        ensures
            r == (self@ == other@),
    {
        let mut i: usize = 0;
        while i < 81
            invariant
                self.wf(),
                other.wf(),
                i <= 81,
                forall|j: int| 0 <= j < i ==> #[trigger] self@[j] == other@[j],
            decreases 81 - i,
        {
            let a = self.cell_flat(i).possiblities();
            let b = other.cell_flat(i).possiblities();
            if !a.same_as(&b) {
                proof {
                    assert(self@[i as int] != other@[i as int]);
                }
                return false;
            }
            i = i + 1;
        }
        proof {
            assert(self@ =~= other@);
        }
        true
    }
}

impl Clone for Board {
    /// A deep copy: same candidates in every cell, same group layout.
    fn clone(&self) -> (r: Self)
        ensures
            r@ == self@,
            self.wf() ==> r.wf(),
    {
        let mut cells: Vec<Cell> = Vec::new();
        let mut i: usize = 0;
        let n = self.cells.len();
        while i < n
            invariant
                i <= n,
                n == self.cells@.len(),
                cells@.len() == i,
                forall|j: int| 0 <= j < i ==> #[trigger] cells@[j] == self.cells@[j],
            decreases n - i,
        {
            cells.push(self.cells[i]);
            i = i + 1;
        }
        let mut groups: Vec<Group> = Vec::new();
        let mut g: usize = 0;
        let m = self.groups.len();
        while g < m
            invariant
                g <= m,
                m == self.groups@.len(),
                groups@.len() == g,
                forall|h: int| 0 <= h < g ==> #[trigger] groups@[h] == self.groups@[h],
            decreases m - g,
        {
            groups.push(self.groups[g]);
            g = g + 1;
        }
        let r = Board { cells, groups };
        proof {
            assert(r.cells@ =~= self.cells@);
            assert(r.groups@ =~= self.groups@);
            assert(r@ =~= self@);
        }
        r
    }
}

/// The coordinate of the `k`-th cell of group `g`, computed.
pub fn gp(g: usize, k: usize) -> (rc: CellPos)
    requires
        g < 27,
        k < 9,
    ensures
        rc.0 < 9,
        rc.1 < 9,
        rc.0 as int == group_cell(g as int, k as int).0,
        rc.1 as int == group_cell(g as int, k as int).1,
{
    if g < 18 {
        if g % 2 == 0 {
            (g / 2, k)
        } else {
            (k, g / 2)
        }
    } else {
        let b = g - 18;
        (b / 3 * 3 + k % 3, (b % 3) * 3 + k / 3)
    }
}

/// The value a digit character stands for, if any.
pub fn digit_value(c: char) -> (r: Option<CellValue>)
    ensures
        match r {
            Some(v) => v.as_int() == digit_val(c) && 1 <= digit_val(c),
            None => digit_val(c) == 0,
        },
{
    if c == '1' {
        Some(CellValue::One)
    } else if c == '2' {
        Some(CellValue::Two)
    } else if c == '3' {
        Some(CellValue::Three)
    } else if c == '4' {
        Some(CellValue::Four)
    } else if c == '5' {
        Some(CellValue::Five)
    } else if c == '6' {
        Some(CellValue::Six)
    } else if c == '7' {
        Some(CellValue::Seven)
    } else if c == '8' {
        Some(CellValue::Eight)
    } else if c == '9' {
        Some(CellValue::Nine)
    } else {
        None
    }
}

} // verus!
