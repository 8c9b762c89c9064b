//! Random choices of the scenario set-up: uniform integers and weighted
//! indices (Walker's alias method), drawn from a seeded generator.
use vstd::prelude::*;
use rand::rngs::StdRng;
use rand::Rng;
use weighted_rand::builder::{NewBuilder, WalkerTableBuilder};
use weighted_rand::table::WalkerTable;
use crate::map::internal::seq_sum;

verus! {

#[verifier::external_type_specification]
#[verifier::external_body]
pub struct ExStdRng(StdRng);

#[verifier::external_type_specification]
#[verifier::external_body]
pub struct ExWalkerTableBuilder(WalkerTableBuilder);

#[verifier::external_type_specification]
#[verifier::external_body]
pub struct ExWalkerTable(WalkerTable);

/// The index weights that a table builder was made with.
pub uninterp spec fn walker_builder_weights(b: WalkerTableBuilder) -> Seq<u32>;

/// The number of indices of a table.
pub uninterp spec fn walker_table_len(t: WalkerTable) -> nat;

/// The indices a table can return: those whose own entry or an alias entry
/// leads to them.
pub uninterp spec fn walker_table_picks(t: WalkerTable) -> Set<int>;

/// Table `t` draws indices of `weights`: it has one index per weight, and
/// returns only indices of positive weight unless all weights are 0.
pub open spec fn table_draws_from(t: WalkerTable, weights: Seq<u32>) -> bool {
    &&& walker_table_len(t) == weights.len()
    &&& forall|i: int|
        #[trigger] walker_table_picks(t).contains(i) ==> 0 <= i < weights.len() && (seq_sum(weights) > 0
            ==> weights[i] > 0)
}

/// A uniformly random index in `0..hi`.
///
/// Calls `rand::Rng::gen_range` on `usize`, which panics on an empty range
/// and otherwise returns a value of the range; which one is left to chance.
#[verifier::external_body]
pub(crate) fn gen_index(rng: &mut StdRng, hi: usize) -> (r: usize)
    requires
        hi > 0,
    ensures
        r < hi,
{
    rng.gen_range(0..hi)
}

/// A table builder for the index weights `weights`.
///
/// Calls `WalkerTableBuilder::new` (for `u32` weights), which multiplies
/// every weight by the number of weights; the claim is that the builder
/// keeps the weights it was given, and that no multiplication overflows.
#[verifier::external_body]
pub(crate) fn walker_builder_new(weights: &[u32]) -> (b: WalkerTableBuilder)
    requires
        forall|i: int| 0 <= i < weights@.len() ==> #[trigger] weights@[i] * weights@.len() <= u32::MAX,
    ensures
        walker_builder_weights(b) == weights@,
{
    WalkerTableBuilder::new(weights)
}

/// The alias table of a builder.
///
/// Calls `WalkerTableBuilder::build`, which sums the (scaled) weights. The
/// claim is that the table has one index per weight, and can return only
/// indices of positive weight when some weight is positive: an index of
/// weight 0 gets probability 1 of going to its alias, which has positive
/// weight. With all weights 0 it samples every index (unweighted). How
/// likely each index is is not stated (the table holds `f32`
/// probabilities).
#[verifier::external_body]
pub(crate) fn walker_builder_build(b: &WalkerTableBuilder) -> (t: WalkerTable)
    requires
        seq_sum(walker_builder_weights(*b)) * walker_builder_weights(*b).len() <= u32::MAX,
    ensures
        table_draws_from(t, walker_builder_weights(*b)),
{
    b.build()
}

/// A random index of the table.
///
/// Calls `WalkerTable::next_rng`, which panics on an empty table, and
/// otherwise returns one of the indices the table can return; which one is
/// left to chance.
#[verifier::external_body]
pub(crate) fn walker_table_next(t: &WalkerTable, rng: &mut StdRng) -> (i: usize)
    requires
        walker_table_len(*t) > 0,
    ensures
        i < walker_table_len(*t),
        walker_table_picks(*t).contains(i as int),
{
    t.next_rng(rng)
}

} // verus!
