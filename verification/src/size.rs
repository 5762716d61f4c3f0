//! Proof sizes.

use vstd::prelude::*;

verus! {

/// The bytes that a verifier needs beyond the public inputs.
#[derive(Debug)]
pub struct Size {
    pub proof_bytes: usize,
    pub components: Vec<(&'static str, usize)>,
}

/// The sum of the components' sizes.
pub open spec fn total(components: Seq<(&'static str, usize)>) -> nat
    decreases components.len(),
{
    if components.len() == 0 {
        0
    } else {
        total(components.drop_last()) + (components.last().1 as nat)
    }
}

proof fn lemma_total_grows(components: Seq<(&'static str, usize)>, k: int)
    requires
        0 <= k <= components.len(),
    ensures
        total(components.take(k)) <= total(components),
    decreases components.len(),
{
    if k == components.len() {
        assert(components.take(k) =~= components);
    } else {
        lemma_total_grows(components.drop_last(), k);
        assert(components.drop_last().take(k) =~= components.take(k));
    }
}

/// The sum of three components.
pub proof fn lemma_total_of_three(components: Seq<(&'static str, usize)>)
    requires
        components.len() == 3,
    ensures
        total(components) == components[0].1 + components[1].1 + components[2].1,
{
    reveal_with_fuel(total, 4);
    assert(components.drop_last().drop_last().drop_last() =~= Seq::<(
        &'static str,
        usize,
    )>::empty());
}

impl Size {
    /// The proof size that components make up.
    pub fn of(components: Vec<(&'static str, usize)>) -> (r: Size)
        requires
            total(components@) <= usize::MAX,
        ensures
            r.components@ == components@,
            r.proof_bytes == total(components@),
    {
        let mut proof_bytes: usize = 0;
        let mut i: usize = 0;
        assert(components@.take(0) =~= Seq::<(&'static str, usize)>::empty());
        while i < components.len()
            invariant
                i <= components@.len(),
                total(components@) <= usize::MAX,
                proof_bytes == total(components@.take(i as int)),
            decreases components@.len() - i,
        {
            proof {
                lemma_total_grows(components@, i + 1);
                assert(components@.take(i + 1).drop_last() =~= components@.take(i as int));
            }
            proof_bytes = proof_bytes + components[i].1;
            i += 1;
        }
        assert(components@.take(i as int) =~= components@);
        Size { proof_bytes, components }
    }
}

/// A proof's size grows by that of each component, whatever its name.
pub proof fn law_total_grows(
    components: Seq<(&'static str, usize)>,
    name: &'static str,
    bytes: usize,
)
    ensures
        total(components.push((name, bytes))) == total(components) + bytes,
        total(Seq::<(&'static str, usize)>::empty()) == 0,
{
    assert(components.push((name, bytes)).drop_last() =~= components);
}

} // verus!
