//! The random source of the generators: rand's seedable standard generator.

use vstd::prelude::*;
use rand::rngs::StdRng;
use rand::seq::SliceRandom;

verus! {

/// rand's standard generator, carried through the generators as it is.
#[verifier::external_type_specification]
#[verifier::external_body]
pub struct ExStdRng(StdRng);

/// Relies on rand's `SliceRandom::shuffle` for slices, which only swaps
/// elements: the result is a permutation of the input.
#[verifier::external_body]
pub(crate) fn shuffle<T>(values: &mut Vec<T>, rng: &mut StdRng)
    ensures
        final(values)@.to_multiset() == old(values)@.to_multiset(),
{
    values.shuffle(rng);
}

/// A shuffled sequence holds the same values as before.
pub proof fn lemma_permutation_contains<T>(s: Seq<T>, t: Seq<T>)
    requires
        s.to_multiset() == t.to_multiset(),
    ensures
        forall|v: T| s.contains(v) <==> t.contains(v),
        s.len() == t.len(),
{
    broadcast use vstd::seq_lib::group_to_multiset_ensures;
    assert(s.len() == s.to_multiset().len() && t.len() == t.to_multiset().len());
    assert forall|v: T| s.contains(v) <==> t.contains(v) by {
        assert(s.contains(v) <==> s.to_multiset().count(v) > 0);
        assert(t.contains(v) <==> t.to_multiset().count(v) > 0);
    }
}

/// A shuffle of a sequence without duplicates has none either.
pub proof fn lemma_permutation_no_duplicates<T>(s: Seq<T>, t: Seq<T>)
    requires
        s.to_multiset() == t.to_multiset(),
        s.no_duplicates(),
    ensures
        t.no_duplicates(),
{
    s.lemma_multiset_has_no_duplicates();
    t.lemma_multiset_has_no_duplicates_conv();
}

} // verus!
