//! Operation count of succinct-receipt verification.
//!
//! A hash suite that counts stands in for the stock one. Permutation buckets
//! are named after the hash and generator methods through which they are
//! reached. Base-field operations are snapshots of global counters, taken
//! around every call of the suite, so that the operations spent inside it are
//! separated from the rest of the verifier.
//!
//! Field elements are raw Montgomery words, digests are eight of them.

use std::collections::BTreeMap;

use vstd::prelude::*;

use crate::field::BABYBEAR_P;
use crate::poseidon2_babybear::{CELLS, ROUNDS_HALF_FULL, ROUNDS_PARTIAL};

verus! {

/// How many elements the sponge absorbs or squeezes for each permutation.
pub const CELLS_RATE: usize = 16;

/// How many base elements make an extension element.
pub const EXT_SIZE: usize = 4;

/// Permutations that hashing `n` elements takes.
pub open spec fn perms_of(n: nat) -> nat {
    n / 16 + (if n % 16 != 0 || n == 0 {
        1nat
    } else {
        0
    })
}

/// Permutations performed by `unpadded_hash` on `n` elements: one per full
/// rate block, plus one for a partial block or for the empty input.
pub fn unpadded_hash_perms(n: usize) -> (r: usize)
    ensures
        r == perms_of(n as nat),
{
    n / CELLS_RATE + (if n % CELLS_RATE != 0 || n == 0 {
        1
    } else {
        0
    })
}

/// The number of blocks of `n` elements, a partial one included, is the number
/// of permutations, except that the empty input takes one.
pub proof fn law_perms(n: nat)
    ensures
        n > 0 ==> perms_of(n) == (n + 15) / 16,
        perms_of(0) == 1,
        perms_of(n) <= perms_of(n + 1) <= perms_of(n) + 1,
{
}

/// Snapshot of the field-operation counters.
#[derive(Clone, Copy, Debug, PartialEq, Eq, Structural)]
pub struct Ops {
    pub mul: u64,
    pub add: u64,
    pub sub: u64,
    pub pow_calls: u64,
    pub pow_mul: u64,
    pub inv_calls: u64,
}

impl Default for Ops {
    fn default() -> (r: Ops)
        ensures
            r == Ops::none(),
    {
        Ops { mul: 0, add: 0, sub: 0, pow_calls: 0, pow_mul: 0, inv_calls: 0 }
    }
}

impl Ops {
    /// No operations.
    pub open spec fn none() -> Ops {
        Ops { mul: 0, add: 0, sub: 0, pow_calls: 0, pow_mul: 0, inv_calls: 0 }
    }

    /// No counter is behind `start`.
    pub open spec fn follows(self, start: Ops) -> bool {
        &&& start.mul <= self.mul
        &&& start.add <= self.add
        &&& start.sub <= self.sub
        &&& start.pow_calls <= self.pow_calls
        &&& start.pow_mul <= self.pow_mul
        &&& start.inv_calls <= self.inv_calls
    }

    /// Whether no counter is behind `start`.
    pub fn is_after(self, start: Ops) -> (r: bool)
        ensures
            r == self.follows(start),
    {
        start.mul <= self.mul && start.add <= self.add && start.sub <= self.sub && start.pow_calls
            <= self.pow_calls && start.pow_mul <= self.pow_mul && start.inv_calls <= self.inv_calls
    }

    /// The operations between the snapshot `start` and this one.
    pub fn since(self, start: Ops) -> (r: Ops)
        requires
            self.follows(start),
        ensures
            r == self.minus(start),
    {
        Ops {
            mul: self.mul - start.mul,
            add: self.add - start.add,
            sub: self.sub - start.sub,
            pow_calls: self.pow_calls - start.pow_calls,
            pow_mul: self.pow_mul - start.pow_mul,
            inv_calls: self.inv_calls - start.inv_calls,
        }
    }

    /// The counters of `start` taken from these.
    pub open spec fn minus(self, start: Ops) -> Ops {
        Ops {
            mul: (self.mul - start.mul) as u64,
            add: (self.add - start.add) as u64,
            sub: (self.sub - start.sub) as u64,
            pow_calls: (self.pow_calls - start.pow_calls) as u64,
            pow_mul: (self.pow_mul - start.pow_mul) as u64,
            inv_calls: (self.inv_calls - start.inv_calls) as u64,
        }
    }
}

/// Operations over two adjacent stretches add up to those over both.
pub proof fn law_since_chains(start: Ops, middle: Ops, end: Ops)
    requires
        middle.follows(start),
        end.follows(middle),
    ensures
        end.follows(start),
        end.minus(start).mul == middle.minus(start).mul + end.minus(middle).mul,
        end.minus(start).add == middle.minus(start).add + end.minus(middle).add,
        end.minus(start).sub == middle.minus(start).sub + end.minus(middle).sub,
        end.minus(start).pow_calls == middle.minus(start).pow_calls + end.minus(middle).pow_calls,
        end.minus(start).pow_mul == middle.minus(start).pow_mul + end.minus(middle).pow_mul,
        end.minus(start).inv_calls == middle.minus(start).inv_calls + end.minus(middle).inv_calls,
{
}

/// What the counting suite has counted. Counters wrap around.
#[derive(Debug)]
pub struct Counters {
    pub suite_mul: u64,
    pub suite_add: u64,
    pub suite_sub: u64,
    pub pair_calls: usize,
    pub elem_calls: usize,
    pub elem_perms: usize,
    pub elem_hist: BTreeMap<usize, usize>,
    pub ext_calls: usize,
    pub ext_perms: usize,
    pub ext_hist: BTreeMap<usize, usize>,
    pub rng_mixes: usize,
    pub rng_squeezed: usize,
    pub rng_perms: usize,
}

/// `a + n` for an `n` that fits `usize`, wrapping around at its width.
pub open spec fn wrapped(a: usize, n: nat) -> usize {
    if a + n <= usize::MAX {
        (a + n) as usize
    } else {
        (a + n - usize::MAX - 1) as usize
    }
}

/// `a + n`, wrapping around at 64 bits.
pub open spec fn charged(a: u64, n: nat) -> u64 {
    ((a + n) % 0x1_0000_0000_0000_0000) as u64
}

/// How often `n` is counted in a histogram.
pub open spec fn seen(hist: Map<usize, usize>, n: usize) -> nat {
    if hist.dom().contains(n) {
        hist[n] as nat
    } else {
        0
    }
}

/// The sum over the lengths below `k` of how often each is counted, times what
/// it weighs.
pub open spec fn weighted(hist: Map<usize, usize>, weight: spec_fn(nat) -> nat, k: nat) -> nat
    decreases k,
{
    if k == 0 {
        0
    } else {
        weighted(hist, weight, (k - 1) as nat) + seen(hist, (k - 1) as usize) * weight(
            (k - 1) as nat,
        )
    }
}

/// The calls that a histogram counts.
pub open spec fn hist_calls(hist: Map<usize, usize>) -> nat {
    weighted(hist, |n: nat| 1, (usize::MAX + 1) as nat)
}

/// The permutations of the calls that a histogram counts, where each slice of
/// `n` has `size * n` base elements.
pub open spec fn hist_perms(hist: Map<usize, usize>, size: nat) -> nat {
    weighted(hist, |n: nat| perms_of(size * n), (usize::MAX + 1) as nat)
}

/// Counting a length once more adds its weight.
proof fn lemma_weighted_tally(
    hist: Map<usize, usize>,
    n: usize,
    weight: spec_fn(nat) -> nat,
    k: nat,
)
    requires
        k <= usize::MAX + 1,
        seen(hist, n) < usize::MAX,
    ensures
        weighted(hist.insert(n, (seen(hist, n) + 1) as usize), weight, k) == weighted(
            hist,
            weight,
            k,
        ) + (if n < k {
            weight(n as nat)
        } else {
            0
        }),
    decreases k,
{
    if k > 0 {
        lemma_weighted_tally(hist, n, weight, (k - 1) as nat);
        if n == k - 1 {
            vstd::arithmetic::mul::lemma_mul_is_distributive_add_other_way(
                weight(n as nat) as int,
                seen(hist, n) as int,
                1,
            );
        }
    }
}

/// An empty histogram counts nothing.
proof fn lemma_weighted_none(weight: spec_fn(nat) -> nat, k: nat)
    ensures
        weighted(Map::empty(), weight, k) == 0,
    decreases k,
{
    if k > 0 {
        lemma_weighted_none(weight, (k - 1) as nat);
    }
}

/// A counter that wraps around keeps the remainder of what it counts.
proof fn lemma_wrapped_counts(a: usize, sum: nat, n: nat)
    requires
        a == sum % ((usize::MAX + 1) as nat),
        n <= usize::MAX,
    ensures
        wrapped(a, n) == (sum + n) % ((usize::MAX + 1) as nat),
{
    let m = usize::MAX + 1;
    vstd::arithmetic::div_mod::lemma_add_mod_noop(sum as int, n as int, m);
    vstd::arithmetic::div_mod::lemma_small_mod(n, m as nat);
    if a + n <= usize::MAX {
        vstd::arithmetic::div_mod::lemma_small_mod((a + n) as nat, m as nat);
    } else {
        vstd::arithmetic::div_mod::lemma_small_mod((a + n - m) as nat, m as nat);
        vstd::arithmetic::div_mod::lemma_mod_add_multiples_vanish(a + n - m, m);
    }
}

/// Counters that agree with a histogram agree with it after one more call.
proof fn lemma_tally_agrees(
    hist: Map<usize, usize>,
    n: usize,
    size: nat,
    calls: usize,
    perms: usize,
)
    requires
        seen(hist, n) < usize::MAX,
        size * (n as nat) <= usize::MAX,
    ensures
        ({
            let m = (usize::MAX + 1) as nat;
            let more = hist.insert(n, (seen(hist, n) + 1) as usize);
            &&& calls == hist_calls(hist) % m ==> wrapped(calls, 1) == hist_calls(more) % m
            &&& perms == hist_perms(hist, size) % m ==> wrapped(perms, perms_of(size * (n as nat)))
                == hist_perms(more, size) % m
        }),
{
    let m = (usize::MAX + 1) as nat;
    lemma_weighted_tally(hist, n, |n: nat| 1, m);
    lemma_weighted_tally(hist, n, |n: nat| perms_of(size * n), m);
    if calls == hist_calls(hist) % m {
        lemma_wrapped_counts(calls, hist_calls(hist), 1);
    }
    if perms == hist_perms(hist, size) % m {
        lemma_wrapped_counts(perms, hist_perms(hist, size), perms_of(size * (n as nat)));
    }
}

/// Counts `n` once more in a histogram.
fn tally(hist: &mut BTreeMap<usize, usize>, n: usize)
    requires
        seen(old(hist)@, n) < usize::MAX,
    ensures
        final(hist)@ == old(hist)@.insert(n, (seen(old(hist)@, n) + 1) as usize),
{
    broadcast use vstd::std_specs::btree::group_btree_axioms;

    let count: usize = match hist.get(&n) {
        Some(k) => *k,
        None => 0,
    };
    hist.insert(n, count + 1);
}

/// The first eight words of the Poseidon2 sponge after absorbing a message of
/// Montgomery words.
pub uninterp spec fn unpadded_hash_words(words: Seq<u32>) -> Seq<u32>;

/// `risc0_zkp`'s `unpadded_hash` on raw Montgomery words: eight words, a
/// function of the words absorbed. Where those are reduced, so are the eight,
/// as sums of the last linear layer are. On the word that stands for no
/// element a debug assertion of the outside code fails.
#[verifier::external_body]
fn unpadded_hash(words: &Vec<u32>) -> (r: [u32; 8])
    requires
        all_valid(words@),
    ensures
        r@ == unpadded_hash_words(words@),
        all_reduced(words@) ==> all_reduced(r@),
{
    let elems: Vec<risc0_core::field::baby_bear::Elem> =
        words.iter().map(|w| risc0_core::field::baby_bear::Elem::new_raw(*w)).collect();
    risc0_zkp::core::hash::poseidon2::unpadded_hash(elems.iter()).map(|e| e.as_u32_montgomery())
}

/// Whether no word is the one that stands for no element.
pub open spec fn all_valid(words: Seq<u32>) -> bool {
    forall|i: int| 0 <= i < words.len() ==> #[trigger] words[i] != 0xffff_ffff
}

/// Whether every word is below the BabyBear prime.
pub open spec fn all_reduced(words: Seq<u32>) -> bool {
    forall|i: int| 0 <= i < words.len() ==> #[trigger] words[i] < BABYBEAR_P
}

/// The words of extension elements, one after the other.
pub open spec fn flattened(slice: Seq<[u32; 4]>) -> Seq<u32> {
    Seq::new(4 * slice.len(), |i: int| slice[i / 4]@[i % 4])
}

impl Default for Counters {
    fn default() -> (c: Counters)
        ensures
            c.is_empty(),
            c.agrees(),
    {
        proof {
            let m = (usize::MAX + 1) as nat;
            lemma_weighted_none(|n: nat| 1, m);
            lemma_weighted_none(|n: nat| perms_of(1 * n), m);
            lemma_weighted_none(|n: nat| perms_of(4 * n), m);
        }
        Counters {
            suite_mul: 0,
            suite_add: 0,
            suite_sub: 0,
            pair_calls: 0,
            elem_calls: 0,
            elem_perms: 0,
            elem_hist: BTreeMap::new(),
            ext_calls: 0,
            ext_perms: 0,
            ext_hist: BTreeMap::new(),
            rng_mixes: 0,
            rng_squeezed: 0,
            rng_perms: 0,
        }
    }
}

impl Counters {
    /// Nothing has been counted.
    pub open spec fn is_empty(self) -> bool {
        &&& self.suite_mul == 0 && self.suite_add == 0 && self.suite_sub == 0
        &&& self.pair_calls == 0 && self.elem_calls == 0 && self.elem_perms == 0
        &&& self.ext_calls == 0 && self.ext_perms == 0
        &&& self.elem_hist@ == Map::<usize, usize>::empty()
        &&& self.ext_hist@ == Map::<usize, usize>::empty()
        &&& self.rng_mixes == 0 && self.rng_squeezed == 0 && self.rng_perms == 0
    }

    /// The histograms agree with the counters: they count the calls and their
    /// permutations, up to the wrapping of the counters.
    pub open spec fn agrees(self) -> bool {
        let m = (usize::MAX + 1) as nat;
        &&& self.elem_calls == hist_calls(self.elem_hist@) % m
        &&& self.elem_perms == hist_perms(self.elem_hist@, 1) % m
        &&& self.ext_calls == hist_calls(self.ext_hist@) % m
        &&& self.ext_perms == hist_perms(self.ext_hist@, 4) % m
    }

    /// Everything but the counts of field operations inside the suite is as in `other`.
    pub open spec fn same_calls(self, other: Counters) -> bool {
        &&& self.pair_calls == other.pair_calls
        &&& self.elem_calls == other.elem_calls
        &&& self.elem_perms == other.elem_perms
        &&& self.elem_hist@ == other.elem_hist@
        &&& self.ext_calls == other.ext_calls
        &&& self.ext_perms == other.ext_perms
        &&& self.ext_hist@ == other.ext_hist@
        &&& self.rng_mixes == other.rng_mixes
        &&& self.rng_squeezed == other.rng_squeezed
        &&& self.rng_perms == other.rng_perms
    }

    /// The field operations inside the suite are as in `other`.
    pub open spec fn same_suite(self, other: Counters) -> bool {
        &&& self.suite_mul == other.suite_mul
        &&& self.suite_add == other.suite_add
        &&& self.suite_sub == other.suite_sub
    }

    /// The counts of the generator are as in `other`.
    pub open spec fn same_rng(self, other: Counters) -> bool {
        &&& self.rng_mixes == other.rng_mixes
        &&& self.rng_squeezed == other.rng_squeezed
        &&& self.rng_perms == other.rng_perms
    }

    /// The counts of hashing slices of base elements are as in `other`.
    pub open spec fn same_elem(self, other: Counters) -> bool {
        &&& self.elem_calls == other.elem_calls
        &&& self.elem_perms == other.elem_perms
        &&& self.elem_hist@ == other.elem_hist@
    }

    /// The counts of hashing slices of extension elements are as in `other`.
    pub open spec fn same_ext(self, other: Counters) -> bool {
        &&& self.ext_calls == other.ext_calls
        &&& self.ext_perms == other.ext_perms
        &&& self.ext_hist@ == other.ext_hist@
    }

    /// Charges the field operations between two snapshots to the hash suite.
    pub fn charge(&mut self, start: Ops, end: Ops)
        requires
            end.follows(start),
        ensures
            final(self).suite_mul == (old(self).suite_mul + (end.mul - start.mul))
                % 0x1_0000_0000_0000_0000,
            final(self).suite_add == (old(self).suite_add + (end.add - start.add))
                % 0x1_0000_0000_0000_0000,
            final(self).suite_sub == (old(self).suite_sub + (end.sub - start.sub))
                % 0x1_0000_0000_0000_0000,
            final(self).suite_mul == charged(old(self).suite_mul, (end.mul - start.mul) as nat),
            final(self).suite_add == charged(old(self).suite_add, (end.add - start.add) as nat),
            final(self).suite_sub == charged(old(self).suite_sub, (end.sub - start.sub) as nat),
            final(self).same_calls(*old(self)),
            old(self).agrees() ==> final(self).agrees(),
    {
        let d = end.since(start);
        self.suite_mul = self.suite_mul.wrapping_add(d.mul);
        self.suite_add = self.suite_add.wrapping_add(d.add);
        self.suite_sub = self.suite_sub.wrapping_add(d.sub);
    }

    /// The digest of two digests, counted as one permutation.
    pub fn hash_pair(&mut self, a: &[u32; 8], b: &[u32; 8]) -> (r: [u32; 8])
        requires
            all_reduced(a@),
            all_reduced(b@),
        ensures
            r@ == unpadded_hash_words(a@ + b@),
            all_reduced(r@),
            final(self).pair_calls == wrapped(old(self).pair_calls, 1),
            final(self).same_suite(*old(self)),
            final(self).same_elem(*old(self)),
            final(self).same_ext(*old(self)),
            final(self).same_rng(*old(self)),
            old(self).agrees() ==> final(self).agrees(),
    {
        self.pair_calls = self.pair_calls.wrapping_add(1);
        let mut both: Vec<u32> = Vec::new();
        let mut i: usize = 0;
        while i < 16
            invariant
                i <= 16,
                both@ =~= (a@ + b@).take(i as int),
            decreases 16 - i,
        {
            both.push(
                if i < 8 {
                    a[i]
                } else {
                    b[i - 8]
                },
            );
            i += 1;
        }
        assert(both@ =~= a@ + b@);
        unpadded_hash(&both)
    }

    /// The digest of a slice of base elements.
    pub fn hash_elem_slice(&mut self, slice: &Vec<u32>) -> (r: [u32; 8])
        requires
            all_valid(slice@),
            seen(old(self).elem_hist@, slice@.len() as usize) < usize::MAX,
        ensures
            r@ == unpadded_hash_words(slice@),
            all_reduced(slice@) ==> all_reduced(r@),
            final(self).elem_calls == wrapped(old(self).elem_calls, 1),
            final(self).elem_perms == wrapped(old(self).elem_perms, perms_of(slice@.len())),
            final(self).elem_hist@ == old(self).elem_hist@.insert(
                slice@.len() as usize,
                (seen(old(self).elem_hist@, slice@.len() as usize) + 1) as usize,
            ),
            final(self).pair_calls == old(self).pair_calls,
            final(self).same_suite(*old(self)),
            final(self).same_ext(*old(self)),
            final(self).same_rng(*old(self)),
            old(self).agrees() ==> final(self).agrees(),
    {
        proof {
            lemma_tally_agrees(
                self.elem_hist@,
                slice@.len() as usize,
                1,
                self.elem_calls,
                self.elem_perms,
            );
        }
        self.elem_calls = self.elem_calls.wrapping_add(1);
        self.elem_perms = self.elem_perms.wrapping_add(unpadded_hash_perms(slice.len()));
        tally(&mut self.elem_hist, slice.len());
        unpadded_hash(slice)
    }

    /// The digest of a slice of extension elements.
    pub fn hash_ext_elem_slice(&mut self, slice: &Vec<[u32; 4]>) -> (r: [u32; 8])
        requires
            all_valid(flattened(slice@)),
            4 * slice@.len() <= usize::MAX,
            seen(old(self).ext_hist@, slice@.len() as usize) < usize::MAX,
        ensures
            r@ == unpadded_hash_words(flattened(slice@)),
            all_reduced(flattened(slice@)) ==> all_reduced(r@),
            final(self).ext_calls == wrapped(old(self).ext_calls, 1),
            final(self).ext_perms == wrapped(old(self).ext_perms, perms_of(4 * slice@.len())),
            final(self).ext_hist@ == old(self).ext_hist@.insert(
                slice@.len() as usize,
                (seen(old(self).ext_hist@, slice@.len() as usize) + 1) as usize,
            ),
            final(self).pair_calls == old(self).pair_calls,
            final(self).same_suite(*old(self)),
            final(self).same_elem(*old(self)),
            final(self).same_rng(*old(self)),
            old(self).agrees() ==> final(self).agrees(),
    {
        let n: usize = slice.len() * EXT_SIZE;
        proof {
            lemma_tally_agrees(
                self.ext_hist@,
                slice@.len() as usize,
                4,
                self.ext_calls,
                self.ext_perms,
            );
        }
        self.ext_calls = self.ext_calls.wrapping_add(1);
        self.ext_perms = self.ext_perms.wrapping_add(unpadded_hash_perms(n));
        tally(&mut self.ext_hist, slice.len());
        let mut words: Vec<u32> = Vec::new();
        while words.len() < n
            invariant
                words@.len() <= n == 4 * slice@.len(),
                words@ =~= flattened(slice@).take(words@.len() as int),
            decreases n - words@.len(),
        {
            let i = words.len();
            words.push(slice[i / 4][i % 4]);
        }
        assert(words@ =~= flattened(slice@));
        unpadded_hash(&words)
    }
}

/// Whether every word of a digest is below the BabyBear prime.
pub fn is_digest_valid(digest: &[u32; 8]) -> (r: bool)
    ensures
        r == all_reduced(digest@),
{
    let mut i: usize = 0;
    while i < 8
        invariant
            i <= 8,
            forall|k: int| 0 <= k < i ==> #[trigger] digest@[k] < BABYBEAR_P,
        decreases 8 - i,
    {
        if digest[i] >= BABYBEAR_P {
            return false;
        }
        i += 1;
    }
    true
}

/// The accounting of a generator whose sponge hands out `CELLS_RATE` elements
/// for each permutation.
#[derive(Debug)]
pub struct CountingRng {
    pub pool_used: usize,
}

/// Permutations while `n` elements are drawn from a pool of which `used` are gone.
pub open spec fn squeeze_perms(used: nat, n: nat) -> nat {
    if n == 0 {
        0
    } else {
        ((used + n - 1) / 16) as nat
    }
}

/// How much of the pool is gone after `n` elements were drawn from it.
pub open spec fn squeeze_pool(used: nat, n: nat) -> nat {
    if n == 0 {
        used
    } else {
        ((used + n - 1) % 16 + 1) as nat
    }
}

/// Permutations while a digest is mixed into a pool of which `used` are gone.
pub open spec fn mix_perms(used: nat) -> nat {
    if used != 0 {
        2
    } else {
        1
    }
}

impl CountingRng {
    /// The pool never holds more than `CELLS_RATE` elements.
    pub open spec fn wf(self) -> bool {
        self.pool_used <= CELLS_RATE
    }

    /// A generator from whose pool nothing was drawn.
    pub fn new() -> (r: CountingRng)
        ensures
            r.wf(),
            r.pool_used == 0,
    {
        CountingRng { pool_used: 0 }
    }

    /// Draws `n` elements: an exhausted pool costs a permutation.
    pub fn squeeze(&mut self, c: &mut Counters, n: usize)
        requires
            old(self).wf(),
        ensures
            final(self).wf(),
            final(self).pool_used == squeeze_pool(old(self).pool_used as nat, n as nat),
            final(c).rng_perms == wrapped(
                old(c).rng_perms,
                squeeze_perms(old(self).pool_used as nat, n as nat),
            ),
            final(c).rng_squeezed == wrapped(old(c).rng_squeezed, n as nat),
            final(c).rng_mixes == old(c).rng_mixes,
            final(c).pair_calls == old(c).pair_calls,
            final(c).same_suite(*old(c)),
            final(c).same_elem(*old(c)),
            final(c).same_ext(*old(c)),
            old(c).agrees() ==> final(c).agrees(),
    {
        let ghost c0 = *c;
        let ghost used = self.pool_used as nat;
        let mut i: usize = 0;
        while i < n
            invariant
                i <= n,
                used <= 16,
                self.pool_used <= 16,
                self.pool_used == squeeze_pool(used, i as nat),
                c.rng_perms == wrapped(c0.rng_perms, squeeze_perms(used, i as nat)),
                c.rng_squeezed == c0.rng_squeezed,
                c.rng_mixes == c0.rng_mixes,
                c.pair_calls == c0.pair_calls,
                c.same_suite(c0),
                c.same_elem(c0),
                c.same_ext(c0),
            decreases n - i,
        {
            if self.pool_used == CELLS_RATE {
                c.rng_perms = c.rng_perms.wrapping_add(1);
                self.pool_used = 0;
            }
            self.pool_used += 1;
            i += 1;
        }
        c.rng_squeezed = c.rng_squeezed.wrapping_add(n);
    }

    /// Mixes in a digest: a partly used pool is flushed by one permutation,
    /// and one more follows.
    pub fn mix(&mut self, c: &mut Counters)
        requires
            old(self).wf(),
        ensures
            final(self).pool_used == 0,
            final(self).wf(),
            final(c).rng_mixes == wrapped(old(c).rng_mixes, 1),
            final(c).rng_perms == wrapped(
                old(c).rng_perms,
                if old(self).pool_used != 0 {
                    2
                } else {
                    1
                },
            ),
            final(c).rng_perms == wrapped(old(c).rng_perms, mix_perms(old(self).pool_used as nat)),
            final(c).rng_squeezed == old(c).rng_squeezed,
            final(c).pair_calls == old(c).pair_calls,
            final(c).same_suite(*old(c)),
            final(c).same_elem(*old(c)),
            final(c).same_ext(*old(c)),
            old(c).agrees() ==> final(c).agrees(),
    {
        c.rng_mixes = c.rng_mixes.wrapping_add(1);
        let flush: usize = if self.pool_used != 0 {
            1
        } else {
            0
        };
        c.rng_perms = c.rng_perms.wrapping_add(1 + flush);
        self.pool_used = 0;
    }

    /// Random bits are taken from four elements.
    pub fn random_bits(&mut self, c: &mut Counters)
        requires
            old(self).wf(),
        ensures
            final(self).wf(),
            final(self).pool_used == squeeze_pool(old(self).pool_used as nat, 4),
            final(c).rng_perms == wrapped(
                old(c).rng_perms,
                squeeze_perms(old(self).pool_used as nat, 4),
            ),
            final(c).rng_squeezed == wrapped(old(c).rng_squeezed, 4),
            final(c).rng_mixes == old(c).rng_mixes,
            final(c).pair_calls == old(c).pair_calls,
            final(c).same_suite(*old(c)),
            final(c).same_elem(*old(c)),
            final(c).same_ext(*old(c)),
            old(c).agrees() ==> final(c).agrees(),
    {
        self.squeeze(c, 4)
    }

    /// One element.
    pub fn random_elem(&mut self, c: &mut Counters)
        requires
            old(self).wf(),
        ensures
            final(self).wf(),
            final(self).pool_used == squeeze_pool(old(self).pool_used as nat, 1),
            final(c).rng_perms == wrapped(
                old(c).rng_perms,
                squeeze_perms(old(self).pool_used as nat, 1),
            ),
            final(c).rng_squeezed == wrapped(old(c).rng_squeezed, 1),
            final(c).rng_mixes == old(c).rng_mixes,
            final(c).pair_calls == old(c).pair_calls,
            final(c).same_suite(*old(c)),
            final(c).same_elem(*old(c)),
            final(c).same_ext(*old(c)),
            old(c).agrees() ==> final(c).agrees(),
    {
        self.squeeze(c, 1)
    }

    /// One extension element.
    pub fn random_ext_elem(&mut self, c: &mut Counters)
        requires
            old(self).wf(),
        ensures
            final(self).wf(),
            final(self).pool_used == squeeze_pool(old(self).pool_used as nat, 4),
            final(c).rng_perms == wrapped(
                old(c).rng_perms,
                squeeze_perms(old(self).pool_used as nat, 4),
            ),
            final(c).rng_squeezed == wrapped(old(c).rng_squeezed, 4),
            final(c).rng_mixes == old(c).rng_mixes,
            final(c).pair_calls == old(c).pair_calls,
            final(c).same_suite(*old(c)),
            final(c).same_elem(*old(c)),
            final(c).same_ext(*old(c)),
            old(c).agrees() ==> final(c).agrees(),
    {
        self.squeeze(c, EXT_SIZE)
    }
}

/// Drawing elements in two steps costs what drawing them in one costs.
pub proof fn law_squeeze_adds(used: nat, m: nat, n: nat)
    requires
        used <= 16,
    ensures
        squeeze_pool(squeeze_pool(used, m), n) == squeeze_pool(used, m + n),
        squeeze_perms(used, m) + squeeze_perms(squeeze_pool(used, m), n) == squeeze_perms(
            used,
            m + n,
        ),
{
}

/// Counters that agree with their histograms, and have not wrapped around, are
/// what the histograms count: as many calls as there are entries, and the
/// permutations that slices of those lengths take.
pub proof fn law_histograms(c: Counters)
    requires
        c.agrees(),
    ensures
        hist_calls(c.elem_hist@) <= usize::MAX ==> c.elem_calls == hist_calls(c.elem_hist@),
        hist_perms(c.elem_hist@, 1) <= usize::MAX ==> c.elem_perms == hist_perms(c.elem_hist@, 1),
        hist_calls(c.ext_hist@) <= usize::MAX ==> c.ext_calls == hist_calls(c.ext_hist@),
        hist_perms(c.ext_hist@, 4) <= usize::MAX ==> c.ext_perms == hist_perms(c.ext_hist@, 4),
{
    let m = (usize::MAX + 1) as nat;
    if hist_calls(c.elem_hist@) <= usize::MAX {
        vstd::arithmetic::div_mod::lemma_small_mod(hist_calls(c.elem_hist@), m);
    }
    if hist_perms(c.elem_hist@, 1) <= usize::MAX {
        vstd::arithmetic::div_mod::lemma_small_mod(hist_perms(c.elem_hist@, 1), m);
    }
    if hist_calls(c.ext_hist@) <= usize::MAX {
        vstd::arithmetic::div_mod::lemma_small_mod(hist_calls(c.ext_hist@), m);
    }
    if hist_perms(c.ext_hist@, 4) <= usize::MAX {
        vstd::arithmetic::div_mod::lemma_small_mod(hist_perms(c.ext_hist@, 4), m);
    }
}

/// Permutations by the method that performed them.
#[derive(Clone, Copy, Debug, PartialEq, Eq, Structural)]
pub struct Perms {
    pub hash_pair: usize,
    pub hash_elem_slice: usize,
    pub hash_ext_elem_slice: usize,
    pub rng: usize,
    pub total: usize,
}

/// Calls by method.
#[derive(Debug)]
pub struct Calls {
    pub hash_pair: usize,
    pub hash_elem_slice: usize,
    /// Slice length in base elements to number of calls.
    pub hash_elem_slice_len_histogram: BTreeMap<usize, usize>,
    pub hash_ext_elem_slice: usize,
    /// Slice length in extension elements to number of calls.
    pub hash_ext_elem_slice_len_histogram: BTreeMap<usize, usize>,
    pub rng_mix: usize,
    pub rng_elems_squeezed: usize,
}

/// The hash part of an operation ledger.
#[derive(Debug)]
pub struct Hash {
    pub function: &'static str,
    pub state_cells: usize,
    pub rate: usize,
    pub rounds_full: usize,
    pub rounds_partial: usize,
    pub permutations: Perms,
    pub calls: Calls,
}

/// Exponentiations.
#[derive(Clone, Copy, Debug, PartialEq, Eq, Structural)]
pub struct Pow {
    /// Exponentiations, inversions included. Each is square-and-multiply, so
    /// its multiplication count depends on the exponent bits.
    pub calls: u64,
    /// Inversions; each raises to `p - 2`, a fixed 61 multiplications.
    pub inv_calls: u64,
    /// Multiplications performed inside those exponentiations. Kept out of
    /// `residual` because the count varies with the seal.
    pub mul: u64,
}

/// The field part of an operation ledger.
#[derive(Clone, Copy, Debug)]
pub struct Field {
    pub base: &'static str,
    pub counted_at: &'static str,
    /// Spent inside the hash suite: the permutations and the absorption of
    /// digests. Charged to the hash, not to the verifier.
    pub in_hash_suite: Ops,
    /// The verifier's own arithmetic, without the hash suite and without the
    /// multiplications inside exponentiations.
    pub residual: Ops,
    pub pow: Pow,
    /// `in_hash_suite.mul / permutations`; exact, since only permutations multiply.
    pub mul_per_permutation: u64,
}

/// The hash function's name in a ledger.
pub const FUNCTION: &'static str = "poseidon2-babybear";

/// The field's name in a ledger.
pub const BASE: &'static str = "babybear";

/// Where field operations are counted.
pub const COUNTED_AT: &'static str =
    "Elem Add/Sub/Mul operator impls; extension-field ops decompose into these";

impl Counters {
    /// All permutations.
    pub open spec fn total_perms(self) -> nat {
        (self.pair_calls + self.elem_perms + self.ext_perms + self.rng_perms) as nat
    }

    /// The permutations by the method that performed them.
    pub open spec fn perms(self) -> Perms {
        Perms {
            hash_pair: self.pair_calls,
            hash_elem_slice: self.elem_perms,
            hash_ext_elem_slice: self.ext_perms,
            rng: self.rng_perms,
            total: self.total_perms() as usize,
        }
    }

    /// Whether `calls` are the calls that were counted.
    pub open spec fn made(self, calls: Calls) -> bool {
        &&& calls.hash_pair == self.pair_calls
        &&& calls.hash_elem_slice == self.elem_calls
        &&& calls.hash_elem_slice_len_histogram@ == self.elem_hist@
        &&& calls.hash_ext_elem_slice == self.ext_calls
        &&& calls.hash_ext_elem_slice_len_histogram@ == self.ext_hist@
        &&& calls.rng_mix == self.rng_mixes
        &&& calls.rng_elems_squeezed == self.rng_squeezed
    }

    /// The field operations charged to the suite.
    pub open spec fn suite_ops(self) -> Ops {
        Ops {
            mul: self.suite_mul,
            add: self.suite_add,
            sub: self.suite_sub,
            pow_calls: 0,
            pow_mul: 0,
            inv_calls: 0,
        }
    }

    /// Whether the totals of a verification fit what the suite was charged:
    /// there is a permutation, each takes the same number of multiplications,
    /// and what the suite and the exponentiations took is part of the whole.
    pub open spec fn accounts_for(self, total: Ops) -> bool {
        &&& 0 < self.total_perms() <= usize::MAX
        &&& (self.suite_mul as nat) % self.total_perms() == 0
        &&& total.follows(self.suite_ops())
        &&& self.suite_mul + total.pow_mul <= total.mul
    }

    /// The field part of the ledger for these totals.
    pub open spec fn field_of(self, total: Ops) -> Field {
        Field {
            base: BASE,
            counted_at: COUNTED_AT,
            in_hash_suite: self.suite_ops(),
            residual: Ops {
                mul: (total.mul - self.suite_mul - total.pow_mul) as u64,
                ..total.minus(self.suite_ops())
            },
            pow: Pow { calls: total.pow_calls, inv_calls: total.inv_calls, mul: total.pow_mul },
            mul_per_permutation: ((self.suite_mul as nat) / self.total_perms()) as u64,
        }
    }

    /// Whether [`Counters::field`] can be asked for these totals.
    pub fn fits(&self, total: Ops) -> (r: bool)
        ensures
            r == self.accounts_for(total),
    {
        let sum: u128 = self.pair_calls as u128 + self.elem_perms as u128 + self.ext_perms as u128
            + self.rng_perms as u128;
        if sum == 0 || sum > usize::MAX as u128 {
            return false;
        }
        let suite = Ops {
            mul: self.suite_mul,
            add: self.suite_add,
            sub: self.suite_sub,
            pow_calls: 0,
            pow_mul: 0,
            inv_calls: 0,
        };
        (self.suite_mul as u128) % sum == 0 && total.is_after(suite) && self.suite_mul as u128
            + total.pow_mul as u128 <= total.mul as u128
    }

    /// The hash part of the ledger.
    pub fn report(&self) -> (h: Hash)
        requires
            self.total_perms() <= usize::MAX,
        ensures
            h.function == FUNCTION,
            h.state_cells == 24,
            h.rate == 16,
            h.rounds_full == 8,
            h.rounds_partial == 21,
            h.permutations == (Perms {
                hash_pair: self.pair_calls,
                hash_elem_slice: self.elem_perms,
                hash_ext_elem_slice: self.ext_perms,
                rng: self.rng_perms,
                total: self.total_perms() as usize,
            }),
            h.permutations == self.perms(),
            self.made(h.calls),
            h.calls.hash_pair == self.pair_calls,
            h.calls.hash_elem_slice == self.elem_calls,
            h.calls.hash_elem_slice_len_histogram@ == self.elem_hist@,
            h.calls.hash_ext_elem_slice == self.ext_calls,
            h.calls.hash_ext_elem_slice_len_histogram@ == self.ext_hist@,
            h.calls.rng_mix == self.rng_mixes,
            h.calls.rng_elems_squeezed == self.rng_squeezed,
    {
        Hash {
            function: FUNCTION,
            state_cells: CELLS,
            rate: CELLS_RATE,
            rounds_full: 2 * ROUNDS_HALF_FULL,
            rounds_partial: ROUNDS_PARTIAL,
            permutations: Perms {
                hash_pair: self.pair_calls,
                hash_elem_slice: self.elem_perms,
                hash_ext_elem_slice: self.ext_perms,
                rng: self.rng_perms,
                total: self.pair_calls + self.elem_perms + self.ext_perms + self.rng_perms,
            },
            calls: Calls {
                hash_pair: self.pair_calls,
                hash_elem_slice: self.elem_calls,
                hash_elem_slice_len_histogram: self.elem_hist.clone(),
                hash_ext_elem_slice: self.ext_calls,
                hash_ext_elem_slice_len_histogram: self.ext_hist.clone(),
                rng_mix: self.rng_mixes,
                rng_elems_squeezed: self.rng_squeezed,
            },
        }
    }

    /// The field part of the ledger; `total` is the counter delta over the
    /// whole verification.
    pub fn field(&self, total: Ops) -> (f: Field)
        requires
            self.accounts_for(total),
        ensures
            f == self.field_of(total),
            f.pow.calls == total.pow_calls,
            f.pow.inv_calls == total.inv_calls,
            f.pow.mul == total.pow_mul,
            f.in_hash_suite.mul == self.suite_mul,
            f.in_hash_suite.add == self.suite_add,
            f.in_hash_suite.sub == self.suite_sub,
            f.residual.mul == total.mul - self.suite_mul - total.pow_mul,
            f.residual.add == total.add - self.suite_add,
            f.residual.sub == total.sub - self.suite_sub,
    {
        let in_hash_suite = Ops {
            mul: self.suite_mul,
            add: self.suite_add,
            sub: self.suite_sub,
            pow_calls: 0,
            pow_mul: 0,
            inv_calls: 0,
        };
        let perms: u64 = self.report().permutations.total as u64;
        let mut residual = total.since(in_hash_suite);
        residual.mul = residual.mul - total.pow_mul;
        Field {
            base: BASE,
            counted_at: COUNTED_AT,
            in_hash_suite,
            residual,
            pow: Pow { calls: total.pow_calls, inv_calls: total.inv_calls, mul: total.pow_mul },
            mul_per_permutation: in_hash_suite.mul / perms,
        }
    }
}

/// Nothing is lost or counted twice: the suite's share, the exponentiations
/// and the residual make up the measured totals, and the permutations times
/// their multiplications are the suite's.
pub proof fn law_field_adds_up(c: Counters, total: Ops)
    requires
        c.accounts_for(total),
    ensures
        ({
            let f = c.field_of(total);
            &&& f.in_hash_suite.mul + f.residual.mul + f.pow.mul == total.mul
            &&& f.in_hash_suite.add + f.residual.add == total.add
            &&& f.in_hash_suite.sub + f.residual.sub == total.sub
            &&& f.mul_per_permutation * c.total_perms() == f.in_hash_suite.mul
        }),
{
    let (m, n) = (c.suite_mul as int, c.total_perms() as int);
    vstd::arithmetic::div_mod::lemma_fundamental_div_mod(m, n);
    vstd::arithmetic::div_mod::lemma_div_is_ordered_by_denominator(m, 1, n);
    vstd::arithmetic::div_mod::lemma_div_basics(m);
    vstd::arithmetic::mul::lemma_mul_is_commutative(n, m / n);
}

/// Only the multiplications inside exponentiations set apart the ledgers of
/// verifications that otherwise perform the same operations.
pub proof fn law_only_pow_varies(c: Counters, a: Ops, b: Ops)
    requires
        c.accounts_for(a),
        c.accounts_for(b),
        a.mul - a.pow_mul == b.mul - b.pow_mul,
        a.add == b.add,
        a.sub == b.sub,
        a.pow_calls == b.pow_calls,
        a.inv_calls == b.inv_calls,
    ensures
        ({
            let (f, g) = (c.field_of(a), c.field_of(b));
            &&& f.base == g.base
            &&& f.counted_at == g.counted_at
            &&& f.in_hash_suite == g.in_hash_suite
            &&& f.residual.mul == g.residual.mul
            &&& f.residual.add == g.residual.add
            &&& f.residual.sub == g.residual.sub
            &&& f.pow.calls == g.pow.calls
            &&& f.pow.inv_calls == g.pow.inv_calls
            &&& f.mul_per_permutation == g.mul_per_permutation
            &&& f.pow.mul == a.pow_mul
            &&& g.pow.mul == b.pow_mul
        }),
{
}

/// A later snapshot is one with no counter behind, and what was counted since
/// the earlier one is what each counter has to be raised by.
pub proof fn law_counted_since(start: Ops, end: Ops)
    ensures
        end.follows(start) <==> ({
            &&& start.mul <= end.mul
            &&& start.add <= end.add
            &&& start.sub <= end.sub
            &&& start.pow_calls <= end.pow_calls
            &&& start.pow_mul <= end.pow_mul
            &&& start.inv_calls <= end.inv_calls
        }),
        end.follows(start) ==> ({
            let d = end.minus(start);
            &&& start.mul + d.mul == end.mul
            &&& start.add + d.add == end.add
            &&& start.sub + d.sub == end.sub
            &&& start.pow_calls + d.pow_calls == end.pow_calls
            &&& start.pow_mul + d.pow_mul == end.pow_mul
            &&& start.inv_calls + d.inv_calls == end.inv_calls
        }),
{
}

/// A counter that wraps around loses nothing but whole turns.
pub proof fn law_wrapped(a: usize, n: nat)
    requires
        n <= usize::MAX,
    ensures
        wrapped(a, n) == a + n || wrapped(a, n) + usize::MAX + 1 == a + n,
        wrapped(a, 0) == a,
{
}

/// One drawn element costs a permutation exactly where the pool is used up,
/// and takes one place of it.
pub proof fn law_squeeze_one(used: nat)
    requires
        used <= 16,
    ensures
        squeeze_perms(used, 0) == 0,
        squeeze_pool(used, 0) == used,
        used < 16 ==> squeeze_perms(used, 1) == 0 && squeeze_pool(used, 1) == used + 1,
        used == 16 ==> squeeze_perms(used, 1) == 1 && squeeze_pool(used, 1) == 1,
{
}

/// A histogram's calls and permutations grow with each slice that it counts:
/// by one call, and by the permutations of a slice of that length.
pub proof fn law_histogram_counts(hist: Map<usize, usize>, n: usize, size: nat)
    requires
        seen(hist, n) < usize::MAX,
    ensures
        ({
            let more = hist.insert(n, (seen(hist, n) + 1) as usize);
            &&& hist_calls(more) == hist_calls(hist) + 1
            &&& hist_perms(more, size) == hist_perms(hist, size) + perms_of(size * (n as nat))
            &&& seen(more, n) == seen(hist, n) + 1
            &&& forall|k: usize| k != n ==> #[trigger] seen(more, k) == seen(hist, k)
        }),
        hist_calls(Map::empty()) == 0,
        hist_perms(Map::empty(), size) == 0,
        seen(Map::empty(), n) == 0,
        hist.dom().contains(n) ==> seen(hist, n) == hist[n],
{
    let m = (usize::MAX + 1) as nat;
    lemma_weighted_tally(hist, n, |n: nat| 1, m);
    lemma_weighted_tally(hist, n, |n: nat| perms_of(size * n), m);
    lemma_weighted_none(|n: nat| 1, m);
    lemma_weighted_none(|n: nat| perms_of(size * n), m);
}

/// Extension elements are hashed as their four words each, in order.
pub proof fn law_flattened(slice: Seq<[u32; 4]>, e: [u32; 4])
    ensures
        flattened(slice.push(e)) == flattened(slice) + e@,
        flattened(Seq::<[u32; 4]>::empty()).len() == 0,
{
    assert(flattened(slice.push(e)) =~= flattened(slice) + e@);
}

/// Words are fit for a digest exactly where each is below the prime, and for
/// hashing where none is the word that stands for no element.
pub proof fn law_words_are_judged(words: Seq<u32>, w: u32)
    ensures
        all_reduced(words.push(w)) <==> all_reduced(words) && w < 0x8000_0000 - 0x800_0000 + 1,
        all_valid(words.push(w)) <==> all_valid(words) && w != u32::MAX,
        all_reduced(Seq::<u32>::empty()) && all_valid(Seq::<u32>::empty()),
        all_reduced(words) ==> all_valid(words),
{
    let more = words.push(w);
    assert(more[words.len() as int] == w);
    assert forall|i: int| 0 <= i < words.len() implies #[trigger] words[i] == more[i] by {}
    if all_reduced(more) {
        assert forall|i: int| 0 <= i < words.len() implies #[trigger] words[i] < BABYBEAR_P by {
            assert(more[i] < BABYBEAR_P);
        }
    }
    if all_valid(more) {
        assert forall|i: int| 0 <= i < words.len() implies #[trigger] words[i] != 0xffff_ffff by {
            assert(more[i] != 0xffff_ffff);
        }
    }
}

/// Counters that agree in every group agree throughout.
pub proof fn law_counter_groups(a: Counters, b: Counters)
    ensures
        a.same_calls(b) <==> a.pair_calls == b.pair_calls && a.same_elem(b) && a.same_ext(b)
            && a.same_rng(b),
        a.same_suite(b) <==> a.suite_mul == b.suite_mul && a.suite_add == b.suite_add && a.suite_sub
            == b.suite_sub,
        a.same_elem(b) <==> a.elem_calls == b.elem_calls && a.elem_perms == b.elem_perms
            && a.elem_hist@ == b.elem_hist@,
        a.same_ext(b) <==> a.ext_calls == b.ext_calls && a.ext_perms == b.ext_perms && a.ext_hist@
            == b.ext_hist@,
        a.same_rng(b) <==> a.rng_mixes == b.rng_mixes && a.rng_squeezed == b.rng_squeezed
            && a.rng_perms == b.rng_perms,
        a.is_empty() && b.is_empty() ==> a.same_suite(b) && a.same_calls(b),
        a.is_empty() ==> a.suite_mul == 0 && a.suite_add == 0 && a.suite_sub == 0 && a.pair_calls
            == 0 && a.elem_calls == 0 && a.elem_perms == 0 && a.ext_calls == 0 && a.ext_perms == 0
            && a.rng_mixes == 0 && a.rng_squeezed == 0 && a.rng_perms == 0,
        a.is_empty() ==> hist_calls(a.elem_hist@) == 0 && hist_calls(a.ext_hist@) == 0,
{
    lemma_weighted_none(|n: nat| 1, (usize::MAX + 1) as nat);
}

/// Each part of a ledger is its own counter: exponentiations and inversions
/// by their calls, the suite's share as it was charged, and the residual what
/// the suite and the multiplications inside exponentiations leave.
pub proof fn law_ledger_parts(c: Counters, total: Ops)
    requires
        c.accounts_for(total),
    ensures
        ({
            let f = c.field_of(total);
            &&& f.pow.calls == total.pow_calls
            &&& f.pow.inv_calls == total.inv_calls
            &&& f.pow.mul == total.pow_mul
            &&& f.in_hash_suite.mul == c.suite_mul
            &&& f.in_hash_suite.add == c.suite_add
            &&& f.in_hash_suite.sub == c.suite_sub
            &&& f.in_hash_suite.pow_calls == 0
            &&& f.in_hash_suite.pow_mul == 0
            &&& f.in_hash_suite.inv_calls == 0
            &&& f.residual.mul == total.mul - c.suite_mul - total.pow_mul
            &&& f.residual.add == total.add - c.suite_add
            &&& f.residual.sub == total.sub - c.suite_sub
            &&& f.residual.pow_calls == total.pow_calls
            &&& f.residual.pow_mul == total.pow_mul
            &&& f.residual.inv_calls == total.inv_calls
            &&& f.base@ == "babybear"@
            &&& f.counted_at@
                == "Elem Add/Sub/Mul operator impls; extension-field ops decompose into these"@
        }),
        c.total_perms() == c.pair_calls + c.elem_perms + c.ext_perms + c.rng_perms,
        FUNCTION@ == "poseidon2-babybear"@,
{
}

/// Counts fit together exactly where the permutations divide the suite's
/// multiplications evenly, and neither these nor those inside exponentiations
/// exceed the whole.
pub proof fn law_counts_fit(c: Counters, total: Ops, each: nat)
    ensures
        c.accounts_for(total) ==> ({
            &&& 0 < c.pair_calls + c.elem_perms + c.ext_perms + c.rng_perms <= usize::MAX
            &&& c.suite_add <= total.add
            &&& c.suite_sub <= total.sub
            &&& c.suite_mul + total.pow_mul <= total.mul
            &&& c.field_of(total).mul_per_permutation * (c.pair_calls + c.elem_perms + c.ext_perms
                + c.rng_perms) == c.suite_mul
        }),
        ({
            &&& 0 < c.pair_calls + c.elem_perms + c.ext_perms + c.rng_perms <= usize::MAX
            &&& c.suite_mul == each * (c.pair_calls + c.elem_perms + c.ext_perms + c.rng_perms)
            &&& c.suite_add <= total.add
            &&& c.suite_sub <= total.sub
            &&& c.suite_mul + total.pow_mul <= total.mul
        }) ==> c.accounts_for(total) && c.field_of(total).mul_per_permutation == each,
{
    let n = c.pair_calls + c.elem_perms + c.ext_perms + c.rng_perms;
    if c.accounts_for(total) {
        law_field_adds_up(c, total);
    }
    if n > 0 && c.suite_mul == each * n {
        vstd::arithmetic::div_mod::lemma_mod_multiples_basic(each as int, n);
        vstd::arithmetic::div_mod::lemma_div_multiples_vanish(each as int, n);
        vstd::arithmetic::mul::lemma_mul_is_commutative(each as int, n);
        vstd::arithmetic::div_mod::lemma_div_is_ordered_by_denominator(
            c.suite_mul as int,
            1,
            n,
        );
        vstd::arithmetic::div_mod::lemma_div_basics(c.suite_mul as int);
    }
}

/// Mixing costs a permutation, and one more exactly where something was drawn
/// from the pool.
pub proof fn law_mix(used: nat)
    requires
        used <= 16,
    ensures
        mix_perms(0) == 1,
        used > 0 ==> mix_perms(used) == mix_perms(0) + 1,
{
}

/// What is charged adds up, but for whole turns of the counter.
pub proof fn law_charged(a: u64, n: nat)
    requires
        n <= u64::MAX,
    ensures
        charged(a, n) == a + n || charged(a, n) + 0x1_0000_0000_0000_0000 == a + n,
        charged(a, 0) == a,
{
}

/// Permutations and calls are reported each under the method they were
/// counted for, and the total is the sum.
pub proof fn law_reported(c: Counters, calls: Calls)
    requires
        c.total_perms() <= usize::MAX,
        c.made(calls),
    ensures
        c.perms().hash_pair == c.pair_calls,
        c.perms().hash_elem_slice == c.elem_perms,
        c.perms().hash_ext_elem_slice == c.ext_perms,
        c.perms().rng == c.rng_perms,
        c.perms().total == c.pair_calls + c.elem_perms + c.ext_perms + c.rng_perms,
        calls.hash_pair == c.pair_calls,
        calls.hash_elem_slice == c.elem_calls,
        calls.hash_elem_slice_len_histogram@ == c.elem_hist@,
        calls.hash_ext_elem_slice == c.ext_calls,
        calls.hash_ext_elem_slice_len_histogram@ == c.ext_hist@,
        calls.rng_mix == c.rng_mixes,
        calls.rng_elems_squeezed == c.rng_squeezed,
{
}

} // verus!
