use vstd::prelude::*;

use crate::board::{spec_contradiction, spec_solved};
use crate::strategies::{
    spec_direct_tuples, spec_group_intersection, spec_indirect_pairs, spec_indirect_triples,
    spec_peephole, spec_trivial_eliminate,
};

verus! {

/// A board is solved exactly when every cell holds one candidate and the
/// board is not contradictory. The equivalence holds on every board except
/// one whose cells are all known while a group still repeats a value (such as
/// a complete grid with one row holding the same digit twice): there the
/// solved test, which inspects cells alone, still answers yes.
pub proof fn lemma_solved_iff(b: Seq<Set<int>>)
    requires
        !(spec_solved(b) && spec_contradiction(b)),
    ensures
        spec_solved(b) <==> (spec_solved(b) && !spec_contradiction(b)),
{
}

/// Re-applying Trivial Elimination to a board it leaves unchanged is a no-op.
pub proof fn lemma_te_idempotent(b: Seq<Set<int>>)
    requires
        spec_trivial_eliminate(b) == b,
    ensures
        spec_trivial_eliminate(spec_trivial_eliminate(b)) == spec_trivial_eliminate(b),
{
}

/// Re-applying Peephole to a board it leaves unchanged is a no-op.
pub proof fn lemma_ph_idempotent(b: Seq<Set<int>>)
    requires
        spec_peephole(b) == b,
    ensures
        spec_peephole(spec_peephole(b)) == spec_peephole(b),
{
}

/// Re-applying Group Intersection to a board it leaves unchanged is a no-op.
pub proof fn lemma_gi_idempotent(b: Seq<Set<int>>)
    requires
        spec_group_intersection(b) == b,
    ensures
        spec_group_intersection(spec_group_intersection(b)) == spec_group_intersection(b),
{
}

/// Re-applying Direct Tuples to a board it leaves unchanged is a no-op.
pub proof fn lemma_dt_idempotent(b: Seq<Set<int>>)
    requires
        spec_direct_tuples(b) == b,
    ensures
        spec_direct_tuples(spec_direct_tuples(b)) == spec_direct_tuples(b),
{
}

/// Re-applying Indirect Pairs to a board it leaves unchanged is a no-op.
pub proof fn lemma_ip_idempotent(b: Seq<Set<int>>)
    requires
        spec_indirect_pairs(b) == b,
    ensures
        spec_indirect_pairs(spec_indirect_pairs(b)) == spec_indirect_pairs(b),
{
}

/// Re-applying Indirect Triples to a board it leaves unchanged is a no-op.
pub proof fn lemma_it_idempotent(b: Seq<Set<int>>)
    requires
        spec_indirect_triples(b) == b,
    ensures
        spec_indirect_triples(spec_indirect_triples(b)) == spec_indirect_triples(b),
{
}

} // verus!
