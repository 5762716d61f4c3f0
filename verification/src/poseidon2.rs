//! Two Poseidon2 permutations as gadgets over the Montgomery-form field
//! gadgets, one over BabyBear and one over KoalaBear, and their measurement.

use vstd::arithmetic::power2::*;
use vstd::prelude::*;

use crate::bits;
use crate::circuit;
use crate::circuit::{BigIntWires, Circuit, Shape, WireId};
use crate::field;
use crate::field::{pack_output, word, BABYBEAR_P, KOALABEAR_MU, KOALABEAR_P};
use crate::gadget;
use crate::gadget::{Gadget, MeasureError};
use crate::montgomery;
use crate::plan;
use crate::plan::{InputMessageWires, Outcome, Plan};
use crate::poseidon2_babybear;
use crate::poseidon2_koalabear;

verus! {

broadcast use {
    circuit::lemma_shapes_grouped,
    circuit::lemma_shapes_then_none,
    circuit::lemma_none_then_shapes,
};

/// A row of words stays one, and carries what it carried, when a circuit grows.
pub proof fn lemma_row_kept(c0: Circuit, c1: Circuit, xs: Seq<BigIntWires>, n: nat)
    requires
        c1.extends(c0),
        c0.is_row(xs, n),
    ensures
        c1.is_row(xs, n),
        forall|env: Seq<bool>| #[trigger] c1.words(env, xs) == c0.words(env, xs),
{
    assert forall|i: int| 0 <= i < xs.len() implies c1.is_word(#[trigger] xs[i], n) by {
        assert(c0.is_word(xs[i], n));
    }
    assert forall|env: Seq<bool>| #[trigger] c1.words(env, xs) == c0.words(env, xs) by {
        assert forall|i: int| 0 <= i < xs.len() implies c1.words(env, xs)[i] == c0.words(
            env,
            xs,
        )[i] by {
            assert(c0.is_word(xs[i], n));
        }
        assert(c1.words(env, xs) =~= c0.words(env, xs));
    }
}

/// The numbers that four words carry.
pub open spec fn words4(
    c: Circuit,
    env: Seq<bool>,
    x: (BigIntWires, BigIntWires, BigIntWires, BigIntWires),
) -> Seq<nat> {
    seq![c.word(env, x.0), c.word(env, x.1), c.word(env, x.2), c.word(env, x.3)]
}

/// The same words again.
pub(crate) fn dup_row(cells: &Vec<BigIntWires>) -> (r: Vec<BigIntWires>)
    ensures
        r@.len() == cells@.len(),
        forall|i: int| 0 <= i < r@.len() ==> (#[trigger] r@[i]).bits@ == cells@[i].bits@,
{
    let mut r: Vec<BigIntWires> = Vec::new();
    while r.len() < cells.len()
        invariant
            r@.len() <= cells@.len(),
            forall|i: int| 0 <= i < r@.len() ==> (#[trigger] r@[i]).bits@ == cells@[i].bits@,
        decreases cells@.len() - r@.len(),
    {
        let k = r.len();
        r.push(cells[k].dup());
    }
    r
}

/// A copied row carries what the row carries.
pub proof fn lemma_dup_row(c: Circuit, cells: Seq<BigIntWires>, r: Seq<BigIntWires>, n: nat)
    requires
        c.is_row(cells, n),
        r.len() == cells.len(),
        forall|i: int| 0 <= i < r.len() ==> (#[trigger] r[i]).bits@ == cells[i].bits@,
    ensures
        c.is_row(r, n),
        forall|env: Seq<bool>| #[trigger] c.words(env, r) == c.words(env, cells),
{
    assert forall|i: int| 0 <= i < r.len() implies c.is_word(#[trigger] r[i], n) by {
        assert(c.is_word(cells[i], n));
        c.lemma_same_wires(cells[i], r[i]);
    }
    assert forall|env: Seq<bool>| #[trigger] c.words(env, r) == c.words(env, cells) by {
        assert forall|i: int| 0 <= i < r.len() implies c.words(env, r)[i] == c.words(
            env,
            cells,
        )[i] by {
            c.lemma_same_wires(cells[i], r[i]);
        }
        assert(c.words(env, r) =~= c.words(env, cells));
    }
}

/// Round constant `i` of the BabyBear permutation, in Montgomery form.
pub uninterp spec fn babybear_round_constant(i: nat) -> u32;

/// `risc0_zkp`'s `ROUND_CONSTANTS[i].as_u32_montgomery()`: a fixed word for
/// each index, reduced because the table is built with `BabyBearElem::new`.
#[verifier::external_body]
fn round_constant(i: usize) -> (r: u32)
    requires
        i < 696,
    ensures
        r == babybear_round_constant(i as nat),
        r < BABYBEAR_P,
{
    risc0_zkp::core::hash::poseidon2::ROUND_CONSTANTS[i].as_u32_montgomery()
}

/// Entry `i` of the BabyBear permutation's internal diagonal, in Montgomery form.
pub uninterp spec fn babybear_diagonal(i: nat) -> u32;

/// `risc0_zkp`'s `M_INT_DIAG_HZN[i].as_u32_montgomery()`: a fixed word for
/// each index, reduced because the table is built with `BabyBearElem::new`.
#[verifier::external_body]
fn diagonal(i: usize) -> (r: u32)
    requires
        i < 24,
    ensures
        r == babybear_diagonal(i as nat),
        r < BABYBEAR_P,
{
    risc0_zkp::core::hash::poseidon2::M_INT_DIAG_HZN[i].as_u32_montgomery()
}

/// Constant `i` of external round `round` in the first half of the KoalaBear
/// permutation.
pub uninterp spec fn koalabear_begin_constant(round: nat, i: nat) -> u32;

/// `slop_koala_bear`'s `KoalaBear_BEGIN_EXT_CONSTS[round][i].as_canonical_u32()`:
/// a fixed canonical element for each index.
#[verifier::external_body]
fn begin_constant(round: usize, i: usize) -> (r: u32)
    requires
        round < 4,
        i < 16,
    ensures
        r == koalabear_begin_constant(round as nat, i as nat),
        r < KOALABEAR_P,
{
    p3_field::PrimeField32::as_canonical_u32(&slop_koala_bear::KoalaBear_BEGIN_EXT_CONSTS[round][i])
}

/// Constant `i` of external round `round` in the second half of the KoalaBear
/// permutation.
pub uninterp spec fn koalabear_end_constant(round: nat, i: nat) -> u32;

/// `slop_koala_bear`'s `KoalaBear_END_EXT_CONSTS[round][i].as_canonical_u32()`:
/// a fixed canonical element for each index.
#[verifier::external_body]
fn end_constant(round: usize, i: usize) -> (r: u32)
    requires
        round < 4,
        i < 16,
    ensures
        r == koalabear_end_constant(round as nat, i as nat),
        r < KOALABEAR_P,
{
    p3_field::PrimeField32::as_canonical_u32(&slop_koala_bear::KoalaBear_END_EXT_CONSTS[round][i])
}

/// The constant of internal round `i` of the KoalaBear permutation.
pub uninterp spec fn koalabear_partial_constant(i: nat) -> u32;

/// `slop_koala_bear`'s `KoalaBear_PARTIAL_CONSTS[i].as_canonical_u32()`: a
/// fixed canonical element for each index.
#[verifier::external_body]
fn partial_constant(i: usize) -> (r: u32)
    requires
        i < 20,
    ensures
        r == koalabear_partial_constant(i as nat),
        r < KOALABEAR_P,
{
    p3_field::PrimeField32::as_canonical_u32(&slop_koala_bear::KoalaBear_PARTIAL_CONSTS[i])
}

/// `risc0_core`'s `Elem::new(x).as_u32_montgomery()`: the Montgomery word of `x`.
#[verifier::external_body]
fn babybear_word(x: u32) -> (r: u32)
    ensures
        r == montgomery::encode(x as nat, BABYBEAR_P as nat),
{
    risc0_core::field::baby_bear::Elem::new(x).as_u32_montgomery()
}

/// The Montgomery words after the BabyBear permutation.
pub uninterp spec fn poseidon2_mix_words(state: Seq<u32>) -> Seq<u32>;

/// `risc0_zkp`'s `poseidon2_mix` on raw Montgomery words: the 24 words after
/// the permutation, a function of the 24 words before it.
#[verifier::external_body]
fn native_mix(state: &Vec<u32>) -> (r: Vec<u32>)
    requires
        state@.len() == 24,
        forall|i: int| 0 <= i < 24 ==> #[trigger] state@[i] < BABYBEAR_P,
    ensures
        r@.len() == 24,
        r@ == poseidon2_mix_words(state@),
{
    let mut cells: [risc0_core::field::baby_bear::Elem; 24] =
        core::array::from_fn(|i| risc0_core::field::baby_bear::Elem::new_raw(state[i]));
    risc0_zkp::core::hash::poseidon2::poseidon2_mix(&mut cells);
    cells.iter().map(|e| e.as_u32_montgomery()).collect()
}

/// The canonical elements after the KoalaBear permutation.
pub uninterp spec fn my_kb_16_perm_elements(state: Seq<u32>) -> Seq<u32>;

/// `slop_koala_bear`'s `my_kb_16_perm().permute` on canonical elements: the 16
/// canonical elements after the permutation, a function of the 16 before it.
#[verifier::external_body]
fn native_permute(state: &Vec<u32>) -> (r: Vec<u32>)
    requires
        state@.len() == 16,
        forall|i: int| 0 <= i < 16 ==> #[trigger] state@[i] < KOALABEAR_P,
    ensures
        r@.len() == 16,
        r@ == my_kb_16_perm_elements(state@),
        forall|i: int| 0 <= i < 16 ==> #[trigger] r@[i] < KOALABEAR_P,
{
    let native: [slop_koala_bear::KoalaBear; 16] =
        core::array::from_fn(|i| p3_field::AbstractField::from_canonical_u32(state[i]));
    let perm = slop_koala_bear::my_kb_16_perm();
    let out = p3_symmetric::Permutation::permute(&perm, native);
    out.iter().map(|e| p3_field::PrimeField32::as_canonical_u32(e)).collect()
}

/// The Montgomery word of a KoalaBear element.
pub fn kb_monty(x: u32) -> (r: u32)
    ensures
        r == montgomery::encode(x as nat, KOALABEAR_P as nat),
{
    (((x as u64) * 0x1_0000_0000) % (KOALABEAR_P as u64)) as u32
}

/// The Montgomery words of KoalaBear elements are reduced, keep products, and
/// give the elements back; that of 1 is `2^32` modulo the prime.
pub proof fn law_kb_monty(a: u32, b: u32)
    requires
        a < KOALABEAR_P,
        b < KOALABEAR_P,
    ensures
        ({
            let (p, mu) = (KOALABEAR_P as nat, KOALABEAR_MU as nat);
            let (x, y) = (montgomery::encode(a as nat, p), montgomery::encode(b as nat, p));
            &&& x < p
            &&& x == (a as nat * 0x1_0000_0000) % p
            &&& montgomery::encode(((a as nat) * (b as nat)) % p, p) == field::redc_word(
                x * y,
                p,
                mu,
            )
            &&& field::redc_word(x * 1, p, mu) == a
            &&& montgomery::encode(1, p) == 0x01ff_fffe
        }),
{
    let (p, mu) = (KOALABEAR_P as nat, KOALABEAR_MU as nat);
    montgomery::law_parameters();
    montgomery::law_encode(a as nat, p, mu);
    montgomery::law_encode_multiplies(a as nat, b as nat, p, mu);
    montgomery::law_encoded_one();
    vstd::arithmetic::div_mod::lemma_small_mod(a as nat, p);
}

/// All round constants of the BabyBear permutation.
pub open spec fn babybear_constants() -> Seq<u32> {
    Seq::new(696, |i: int| babybear_round_constant(i as nat))
}

/// The internal diagonal of the BabyBear permutation.
pub open spec fn babybear_diagonals() -> Seq<u32> {
    Seq::new(24, |i: int| babybear_diagonal(i as nat))
}

/// The Montgomery words of the KoalaBear permutation's external constants.
pub open spec fn koalabear_external_constants() -> Seq<u32> {
    Seq::new(
        128,
        |i: int|
            montgomery::encode(
                if i < 64 {
                    koalabear_begin_constant((i / 16) as nat, (i % 16) as nat)
                } else {
                    koalabear_end_constant((i / 16 - 4) as nat, (i % 16) as nat)
                } as nat,
                KOALABEAR_P as nat,
            ) as u32,
    )
}

/// The Montgomery words of the KoalaBear permutation's internal constants.
pub open spec fn koalabear_internal_constants() -> Seq<u32> {
    Seq::new(
        20,
        |i: int|
            montgomery::encode(
                koalabear_partial_constant(i as nat) as nat,
                KOALABEAR_P as nat,
            ) as u32,
    )
}

/// The BabyBear permutation of 24 Montgomery words. On reduced words it is the
/// Poseidon2 permutation of the field elements that they stand for.
#[verifier::rlimit(30)]
pub fn risc0_permutation(c: &mut Circuit, cells: &Vec<BigIntWires>) -> (r: Vec<BigIntWires>)
    requires
        old(c).wf(),
        cells@.len() == 24,
        old(c).is_row(cells@, 32),
    ensures
        final(c).grows(*old(c), 17544, 852),
        final(c).adds(*old(c), Perm::BabyBear.shapes()),
        r@.len() == 24,
        final(c).is_row(r@, 32),
        forall|env: Seq<bool>| #[trigger]
            final(c).words(env, r@) == poseidon2_babybear::bb_permutation_words(
                old(c).words(env, cells@),
                babybear_constants(),
                babybear_diagonals(),
            ),
        forall|env: Seq<bool>|
            montgomery::all_reduced(old(c).words(env, cells@), BABYBEAR_P as nat)
                ==> montgomery::canon_all(
                #[trigger] final(c).words(env, r@),
                BABYBEAR_P as nat,
            ) == poseidon2_babybear::permutation_values(
                montgomery::canon_all(old(c).words(env, cells@), BABYBEAR_P as nat),
                montgomery::canon_all(
                    poseidon2_babybear::constants(babybear_constants()),
                    BABYBEAR_P as nat,
                ),
                montgomery::canon_all(
                    poseidon2_babybear::constants(babybear_diagonals()),
                    BABYBEAR_P as nat,
                ),
            ),
        forall|env: Seq<bool>|
            montgomery::all_reduced(old(c).words(env, cells@), BABYBEAR_P as nat)
                ==> montgomery::all_reduced(#[trigger] final(c).words(env, r@), BABYBEAR_P as nat),
{
    let ghost c0 = *c;
    let mut rc: Vec<u32> = Vec::new();
    while rc.len() < 696
        invariant
            rc@.len() <= 696,
            forall|i: int|
                0 <= i < rc@.len() ==> #[trigger] rc@[i] == babybear_round_constant(i as nat)
                    && rc@[i] < BABYBEAR_P,
        decreases 696 - rc@.len(),
    {
        let i = rc.len();
        rc.push(round_constant(i));
    }
    let mut diag: Vec<u32> = Vec::new();
    while diag.len() < 24
        invariant
            diag@.len() <= 24,
            forall|i: int|
                0 <= i < diag@.len() ==> #[trigger] diag@[i] == babybear_diagonal(i as nat)
                    && diag@[i] < BABYBEAR_P,
        decreases 24 - diag@.len(),
    {
        let i = diag.len();
        diag.push(diagonal(i));
    }
    assert(rc@ =~= babybear_constants());
    assert(diag@ =~= babybear_diagonals());
    let r = poseidon2_babybear::bb_permutation(c, cells, &rc, &diag);
    proof {
        let p = BABYBEAR_P as nat;
        assert forall|env: Seq<bool>| montgomery::all_reduced(
            c0.words(env, cells@),
            p,
        ) implies montgomery::canon_all(#[trigger] c.words(env, r@), p)
            == poseidon2_babybear::permutation_values(
            montgomery::canon_all(c0.words(env, cells@), p),
            montgomery::canon_all(poseidon2_babybear::constants(rc@), p),
            montgomery::canon_all(poseidon2_babybear::constants(diag@), p),
        ) by {
            poseidon2_babybear::law_permutation(c0.words(env, cells@), rc@, diag@);
        }
        assert forall|env: Seq<bool>| montgomery::all_reduced(
            c0.words(env, cells@),
            p,
        ) implies montgomery::all_reduced(#[trigger] c.words(env, r@), p) by {
            poseidon2_babybear::law_permutation(c0.words(env, cells@), rc@, diag@);
        }
    }
    r
}

/// The KoalaBear permutation of 16 Montgomery words. On reduced words it is
/// the Poseidon2 permutation of the field elements that they stand for.
#[verifier::rlimit(30)]
pub fn sp1_permutation(c: &mut Circuit, state: &Vec<BigIntWires>) -> (r: Vec<BigIntWires>)
    requires
        old(c).wf(),
        state@.len() == 16,
        old(c).is_row(state@, 32),
    ensures
        final(c).grows(*old(c), 7200, 296),
        final(c).adds(*old(c), Perm::KoalaBear.shapes()),
        r@.len() == 16,
        final(c).is_row(r@, 32),
        forall|env: Seq<bool>| #[trigger]
            final(c).words(env, r@) == poseidon2_koalabear::kb_permutation_words(
                old(c).words(env, state@),
                koalabear_external_constants(),
                koalabear_internal_constants(),
            ),
        forall|env: Seq<bool>|
            montgomery::all_reduced(old(c).words(env, state@), KOALABEAR_P as nat)
                ==> montgomery::canon_all(
                #[trigger] final(c).words(env, r@),
                KOALABEAR_P as nat,
            ) == poseidon2_koalabear::permutation_values(
                montgomery::canon_all(old(c).words(env, state@), KOALABEAR_P as nat),
                montgomery::canon_all(
                    poseidon2_koalabear::constants(koalabear_external_constants()),
                    KOALABEAR_P as nat,
                ),
                montgomery::canon_all(
                    poseidon2_koalabear::constants(koalabear_internal_constants()),
                    KOALABEAR_P as nat,
                ),
            ),
        forall|env: Seq<bool>|
            montgomery::all_reduced(old(c).words(env, state@), KOALABEAR_P as nat)
                ==> montgomery::all_reduced(#[trigger] final(c).words(env, r@), KOALABEAR_P as nat),
{
    let ghost c0 = *c;
    let mut external: Vec<u32> = Vec::new();
    while external.len() < 128
        invariant
            external@.len() <= 128,
            forall|i: int|
                0 <= i < external@.len() ==> #[trigger] external@[i]
                    == koalabear_external_constants()[i] && external@[i] < KOALABEAR_P,
        decreases 128 - external@.len(),
    {
        let i = external.len();
        let v = if i < 64 {
            begin_constant(i / 16, i % 16)
        } else {
            end_constant(i / 16 - 4, i % 16)
        };
        external.push(kb_monty(v));
    }
    let mut internal: Vec<u32> = Vec::new();
    while internal.len() < 20
        invariant
            internal@.len() <= 20,
            forall|i: int|
                0 <= i < internal@.len() ==> #[trigger] internal@[i]
                    == koalabear_internal_constants()[i] && internal@[i] < KOALABEAR_P,
        decreases 20 - internal@.len(),
    {
        let i = internal.len();
        internal.push(kb_monty(partial_constant(i)));
    }
    assert(external@ =~= koalabear_external_constants());
    assert(internal@ =~= koalabear_internal_constants());
    let r = poseidon2_koalabear::kb_permutation(c, state, &external, &internal);
    proof {
        let p = KOALABEAR_P as nat;
        assert forall|env: Seq<bool>| montgomery::all_reduced(
            c0.words(env, state@),
            p,
        ) implies montgomery::canon_all(#[trigger] c.words(env, r@), p)
            == poseidon2_koalabear::permutation_values(
            montgomery::canon_all(c0.words(env, state@), p),
            montgomery::canon_all(poseidon2_koalabear::constants(external@), p),
            montgomery::canon_all(poseidon2_koalabear::constants(internal@), p),
        ) by {
            poseidon2_koalabear::law_permutation(c0.words(env, state@), external@, internal@);
        }
        assert forall|env: Seq<bool>| montgomery::all_reduced(
            c0.words(env, state@),
            p,
        ) implies montgomery::all_reduced(#[trigger] c.words(env, r@), p) by {
            poseidon2_koalabear::law_permutation(c0.words(env, state@), external@, internal@);
        }
    }
    r
}

/// The permutations that are measured, in the order of their names.
#[derive(Clone, Copy, Debug, PartialEq, Eq, Structural)]
pub enum Perm {
    BabyBear,
    KoalaBear,
}

impl Perm {
    /// The name under which the permutation's count is recorded.
    pub open spec fn label(self) -> &'static str {
        match self {
            Perm::BabyBear => "poseidon2_babybear_w24_permutation",
            Perm::KoalaBear => "poseidon2_koalabear_w16_permutation",
        }
    }

    /// The name under which the permutation's count is recorded.
    pub fn name(self) -> (r: &'static str)
        ensures
            r == self.label(),
    {
        match self {
            Perm::BabyBear => "poseidon2_babybear_w24_permutation",
            Perm::KoalaBear => "poseidon2_koalabear_w16_permutation",
        }
    }

    /// What the permutation's output is checked against.
    pub open spec fn checked_against(self) -> &'static str {
        match self {
            Perm::BabyBear => "risc0-zkp poseidon2_mix",
            Perm::KoalaBear => "slop-koala-bear my_kb_16_perm (sp1-primitives poseidon2_init)",
        }
    }

    fn validated_against(self) -> (r: &'static str)
        ensures
            r == self.checked_against(),
    {
        match self {
            Perm::BabyBear => "risc0-zkp poseidon2_mix",
            Perm::KoalaBear => "slop-koala-bear my_kb_16_perm (sp1-primitives poseidon2_init)",
        }
    }

    /// How many words the permutation works on.
    pub open spec fn cells(self) -> nat {
        match self {
            Perm::BabyBear => 24,
            Perm::KoalaBear => 16,
        }
    }

    /// How many words the permutation works on.
    pub fn width(self) -> (r: usize)
        ensures
            r == self.cells(),
    {
        match self {
            Perm::BabyBear => poseidon2_babybear::CELLS,
            Perm::KoalaBear => poseidon2_koalabear::KW,
        }
    }

    /// The words that the permutation gives.
    pub open spec fn result(self, x: Seq<nat>) -> Seq<nat> {
        match self {
            Perm::BabyBear => poseidon2_babybear::bb_permutation_words(
                x,
                babybear_constants(),
                babybear_diagonals(),
            ),
            Perm::KoalaBear => poseidon2_koalabear::kb_permutation_words(
                x,
                koalabear_external_constants(),
                koalabear_internal_constants(),
            ),
        }
    }

    /// The shapes of the circuit's operations.
    pub open spec fn shapes(self) -> Seq<Shape> {
        match self {
            Perm::BabyBear => poseidon2_babybear::bb_rounds_shapes(babybear_diagonals(), 29),
            Perm::KoalaBear => poseidon2_koalabear::kb_rounds_shapes(28),
        }
    }

    /// The word operations of the circuit.
    pub open spec fn ops(self) -> nat {
        match self {
            Perm::BabyBear => 17544,
            Perm::KoalaBear => 7200,
        }
    }

    /// The products of two words among them.
    pub open spec fn products(self) -> nat {
        match self {
            Perm::BabyBear => 852,
            Perm::KoalaBear => 296,
        }
    }

    /// Appends the permutation to a circuit.
    pub fn build(self, c: &mut Circuit, state: &Vec<BigIntWires>) -> (r: Vec<BigIntWires>)
        requires
            old(c).wf(),
            state@.len() == self.cells(),
            old(c).is_row(state@, 32),
        ensures
            final(c).grows(*old(c), self.ops(), self.products()),
            final(c).adds(*old(c), self.shapes()),
            r@.len() == self.cells(),
            final(c).is_row(r@, 32),
            forall|env: Seq<bool>| #[trigger]
                final(c).words(env, r@) == self.result(old(c).words(env, state@)),
    {
        match self {
            Perm::BabyBear => risc0_permutation(c, state),
            Perm::KoalaBear => sp1_permutation(c, state),
        }
    }

    /// The permutation over a message of its words, with the first eight
    /// words after it, the digest that the hash functions read, as output.
    pub fn plan(self) -> (r: Plan)
        ensures
            r.wf(),
            r.circuit.n_inputs == 32 * self.cells(),
            r.circuit.ops@.len() == self.ops(),
            circuit::products_of(r.circuit.ops@) == self.products(),
            circuit::shapes_of(r.circuit.ops@) == self.shapes(),
            forall|env: Seq<bool>, j: int|
                env.len() == 32 * self.cells() && 0 <= j < 8 ==> #[trigger] r.output_word(env, j)
                    == self.result(input_words(env))[j],
    {
        let n = self.width();
        let mut c = Circuit::new(32 * n);
        let message = InputMessageWires::new(4 * n);
        let ghost c0 = c;
        let state = input_row(&c, &message, n);
        let out = self.build(&mut c, &state);
        let wires = first_words(&out);
        let output = pack_output(&wires);
        let r = Plan { circuit: c, output };
        proof {
            assert(output.wires() =~= wires@);
            assert forall|i: int| 0 <= i < 256 implies c.has(#[trigger] output.wires()[i]) by {
                let j = i / 32;
                assert(wires@[i] == wires@.subrange(32 * j, 32 * j + 32)[i % 32]);
                assert(c.is_word(out@[j], 32));
            }
            assert forall|env: Seq<bool>, j: int|
                env.len() == 32 * self.cells() && 0 <= j < 8 implies #[trigger] r.output_word(
                env,
                j,
            ) == self.result(input_words(env))[j] by {
                r.lemma_output_at(out@[j].bits@, j);
                assert(r.output_word(env, j) == c.row(env, out@[j].bits@));
                assert(c.words(env, out@)[j] == c.word(env, out@[j]));
                assert(c.words(env, out@) == self.result(c0.words(env, state@)));
                assert(c0.words(env, state@) =~= input_words(env));
            }
        }
        r
    }
}

/// The words of a message of input bits.
pub open spec fn input_words(env: Seq<bool>) -> Seq<nat> {
    Seq::new(env.len() / 32, |i: int| bits::bits_value(env.subrange(32 * i, 32 * i + 32)))
}

/// The words of a message.
fn input_row(c: &Circuit, message: &InputMessageWires, n: usize) -> (r: Vec<BigIntWires>)
    requires
        message.is_input(),
        message.byte_arr@.len() == 4 * n,
        c.n_inputs == 32 * n,
    ensures
        r@.len() == n,
        c.is_row(r@, 32),
        forall|env: Seq<bool>, i: int|
            env.len() == 32 * n && 0 <= i < n ==> #[trigger] c.words(env, r@)[i]
                == bits::bits_value(env.subrange(32 * i, 32 * i + 32)),
{
    let mut r: Vec<BigIntWires> = Vec::new();
    while r.len() < n
        invariant
            r@.len() <= n,
            message.is_input(),
            message.byte_arr@.len() == 4 * n,
            c.n_inputs == 32 * n,
            c.is_row(r@, 32),
            forall|env: Seq<bool>, i: int|
                env.len() == 32 * n && 0 <= i < r@.len() ==> #[trigger] c.word(env, r@[i])
                    == bits::bits_value(env.subrange(32 * i, 32 * i + 32)),
        decreases n - r@.len(),
    {
        let k = r.len();
        let w = word(&message.byte_arr, 4 * k, 32);
        proof {
            plan::lemma_input_word(*c, *message, w, 4 * k as int, 32);
            assert(8 * (4 * k) == 32 * k);
        }
        r.push(w);
    }
    r
}

/// The wires of the first eight words.
fn first_words(x: &Vec<BigIntWires>) -> (r: Vec<WireId>)
    requires
        x@.len() >= 8,
        forall|i: int| 0 <= i < x@.len() ==> (#[trigger] x@[i]).bits@.len() == 32,
    ensures
        r@.len() == 256,
        forall|j: int|
            0 <= j < 8 ==> r@.subrange(32 * j, 32 * j + 32) == (#[trigger] x@[j]).bits@,
{
    let mut r: Vec<WireId> = Vec::new();
    let mut k: usize = 0;
    while k < 8
        invariant
            k <= 8,
            x@.len() >= 8,
            forall|i: int| 0 <= i < x@.len() ==> (#[trigger] x@[i]).bits@.len() == 32,
            r@.len() == 32 * k,
            forall|j: int|
                0 <= j < k ==> r@.subrange(32 * j, 32 * j + 32) == (#[trigger] x@[j]).bits@,
        decreases 8 - k,
    {
        let ghost before = r@;
        assert(x@[k as int].bits@.len() == 32);
        r.extend_from_slice(&x[k].bits);
        proof {
            assert(r@ =~= before + x@[k as int].bits@);
            assert forall|j: int| 0 <= j < k + 1 implies r@.subrange(32 * j, 32 * j + 32) == (
            #[trigger] x@[j]).bits@ by {
                if j < k {
                    assert(r@.subrange(32 * j, 32 * j + 32) =~= before.subrange(
                        32 * j,
                        32 * j + 32,
                    ));
                } else {
                    assert(r@.subrange(32 * j, 32 * j + 32) =~= x@[j].bits@);
                }
            }
        }
        k += 1;
    }
    r
}

/// The message that holds a state.
pub fn message(state: &Vec<u32>) -> (r: Vec<u8>)
    requires
        4 * state@.len() <= usize::MAX,
    ensures
        r@.len() == 4 * state@.len(),
        forall|i: int|
            0 <= i < state@.len() ==> #[trigger] plan::le_word(r@, 4 * i) == state@[i],
{
    let mut r: Vec<u8> = Vec::new();
    let mut k: usize = 0;
    while k < state.len()
        invariant
            k <= state@.len(),
            r@.len() == 4 * k,
            forall|i: int| 0 <= i < k ==> #[trigger] plan::le_word(r@, 4 * i) == state@[i],
        decreases state@.len() - k,
    {
        let ghost before = r@;
        plan::push_word(&mut r, state[k]);
        proof {
            assert forall|i: int| 0 <= i < k + 1 implies #[trigger] plan::le_word(r@, 4 * i)
                == state@[i] by {
                if i < k {
                    assert(forall|j: int|
                        0 <= j < before.len() ==> r@[j] == r@.take(before.len() as int)[j]);
                    assert(plan::le_word(before, 4 * i) == state@[i]);
                }
            }
        }
        k += 1;
    }
    r
}

/// The words of a state as numbers.
pub open spec fn numbers(state: Seq<u32>) -> Seq<nat> {
    state.map_values(|w: u32| w as nat)
}

/// The first eight words of an output.
pub open spec fn output_words(out: Seq<u8>) -> Seq<nat> {
    Seq::new(8, |j: int| plan::le_word(out, 4 * j))
}

/// Evaluates a permutation's circuit on a state of words and returns the
/// first eight words after it.
pub fn run(perm: Perm, state: &Vec<u32>) -> (r: Vec<u32>)
    requires
        state@.len() == perm.cells(),
    ensures
        r@.len() == 8,
        numbers(r@) == perm.result(numbers(state@)).take(8),
{
    let p = perm.plan();
    let m = message(state);
    let out = p.evaluate(&m);
    let mut r: Vec<u32> = Vec::new();
    while r.len() < 8
        invariant
            r@.len() <= 8,
            forall|j: int| 0 <= j < r@.len() ==> #[trigger] r@[j] == plan::le_word(out@, 4 * j),
        decreases 8 - r@.len(),
    {
        let j = r.len();
        r.push(plan::read_le_word(&out, 4 * j));
    }
    proof {
        let env = plan::byte_bits(m@);
        bits::lemma_word_powers();
        assert forall|i: int| 0 <= i < state@.len() implies input_words(env)[i] == numbers(
            state@,
        )[i] by {
            plan::lemma_le_word(m@, 4 * i);
            assert(plan::le_word(m@, 4 * i) == state@[i]);
            assert(8 * (4 * i) == 32 * i);
        }
        assert(input_words(env) =~= numbers(state@));
        lemma_result_len(perm, numbers(state@));
        assert forall|j: int| 0 <= j < 8 implies numbers(r@)[j] == perm.result(
            numbers(state@),
        )[j] by {
            assert(r@[j] == plan::le_word(out@, 4 * j));
            assert(p.output_word(env, j) == perm.result(input_words(env))[j]);
        }
        assert(numbers(r@) =~= perm.result(numbers(state@)).take(8));
    }
    r
}

/// A permutation keeps the number of words.
proof fn lemma_result_len(perm: Perm, x: Seq<nat>)
    ensures
        perm.result(x).len() == perm.cells(),
{
    match perm {
        Perm::BabyBear => {
            poseidon2_babybear::lemma_rounds_len(
                x,
                babybear_constants(),
                babybear_diagonals(),
                29,
            );
        },
        Perm::KoalaBear => {
            poseidon2_koalabear::lemma_rounds_len(
                x,
                koalabear_external_constants(),
                koalabear_internal_constants(),
                28,
            );
        },
    }
}

/// Cell `i` of checked state `k`: all zero, counting up, and spread over 31 bits.
pub open spec fn state_cell(k: int, i: int) -> u32 {
    if k == 0 {
        0
    } else if k == 1 {
        i as u32
    } else {
        ((i * 0x9e37_79b9) % 0x8000_0000) as u32
    }
}

/// Checked state `k` of a given width.
pub open spec fn checked_state(width: nat, k: int) -> Seq<u32> {
    Seq::new(width, |i: int| state_cell(k, i))
}

/// The states that a permutation is checked on.
pub fn states(width: usize) -> (r: Vec<Vec<u32>>)
    requires
        width <= u32::MAX,
    ensures
        r@.len() == 3,
        forall|k: int| 0 <= k < 3 ==> (#[trigger] r@[k])@ == checked_state(width as nat, k),
{
    let mut r: Vec<Vec<u32>> = Vec::new();
    while r.len() < 3
        invariant
            r@.len() <= 3,
            width <= u32::MAX,
            forall|k: int|
                0 <= k < r@.len() ==> (#[trigger] r@[k])@ == checked_state(width as nat, k),
        decreases 3 - r@.len(),
    {
        let k = r.len();
        let mut state: Vec<u32> = Vec::new();
        while state.len() < width
            invariant
                state@.len() <= width <= u32::MAX,
                k < 3,
                forall|i: int|
                    0 <= i < state@.len() ==> #[trigger] state@[i] == state_cell(k as int, i),
            decreases width - state@.len(),
        {
            let i: u64 = state.len() as u64;
            let v: u32 = if k == 0 {
                0
            } else if k == 1 {
                i as u32
            } else {
                proof {
                    circuit::lemma_product_bound(i as nat, 0x1_0000_0000, 0x9e37_79b9, 0x9e37_79ba);
                }
                ((i * 0x9e37_79b9) % 0x8000_0000) as u32
            };
            state.push(v);
        }
        assert(state@ =~= checked_state(width as nat, k as int));
        r.push(state);
    }
    r
}

impl Perm {
    /// The prime of the permutation's field.
    pub open spec fn p(self) -> u32 {
        match self {
            Perm::BabyBear => BABYBEAR_P,
            Perm::KoalaBear => KOALABEAR_P,
        }
    }

    /// The Montgomery words of checked state `k`.
    pub open spec fn input_state(self, k: int) -> Seq<u32> {
        Seq::new(
            self.cells(),
            |i: int| montgomery::encode(state_cell(k, i) as nat, self.p() as nat) as u32,
        )
    }

    /// The first eight Montgomery words that the native permutation gives on
    /// checked state `k`.
    pub open spec fn native_words(self, k: int) -> Seq<nat> {
        match self {
            Perm::BabyBear => numbers(poseidon2_mix_words(self.input_state(k))).take(8),
            Perm::KoalaBear => Seq::new(
                8,
                |j: int|
                    montgomery::encode(
                        my_kb_16_perm_elements(checked_state(16, k))[j] as nat,
                        KOALABEAR_P as nat,
                    ),
            ),
        }
    }

    /// The Montgomery words of the states that the permutation is checked on.
    pub fn inputs(self) -> (r: Vec<Vec<u32>>)
        ensures
            r@.len() == 3,
            forall|k: int| 0 <= k < 3 ==> (#[trigger] r@[k])@ == self.input_state(k),
    {
        let n = self.width();
        let given = states(n);
        let mut r: Vec<Vec<u32>> = Vec::new();
        while r.len() < 3
            invariant
                r@.len() <= 3,
                n == self.cells(),
                given@.len() == 3,
                forall|k: int| 0 <= k < 3 ==> (#[trigger] given@[k])@ == checked_state(n as nat, k),
                forall|k: int| 0 <= k < r@.len() ==> (#[trigger] r@[k])@ == self.input_state(k),
            decreases 3 - r@.len(),
        {
            let k = r.len();
            assert(given@[k as int]@ == checked_state(n as nat, k as int));
            let mut state: Vec<u32> = Vec::new();
            while state.len() < n
                invariant
                    state@.len() <= n == self.cells(),
                    k < 3,
                    given@.len() == 3,
                    given@[k as int]@ == checked_state(n as nat, k as int),
                    forall|i: int|
                        0 <= i < state@.len() ==> #[trigger] state@[i] == self.input_state(
                            k as int,
                        )[i],
                decreases n - state@.len(),
            {
                let v = given[k][state.len()];
                state.push(
                    match self {
                        Perm::BabyBear => babybear_word(v),
                        Perm::KoalaBear => kb_monty(v),
                    },
                );
            }
            assert(state@ =~= self.input_state(k as int));
            r.push(state);
        }
        r
    }

    /// What the native permutation gives on the checked states.
    fn expected(self) -> (r: Vec<Vec<u32>>)
        ensures
            r@.len() == 3,
            forall|k: int| 0 <= k < 3 ==> numbers((#[trigger] r@[k])@) == self.native_words(k),
    {
        let given = states(16);
        let raw = self.inputs();
        let mut r: Vec<Vec<u32>> = Vec::new();
        while r.len() < 3
            invariant
                r@.len() <= 3,
                given@.len() == 3,
                forall|k: int| 0 <= k < 3 ==> (#[trigger] given@[k])@ == checked_state(16, k),
                raw@.len() == 3,
                forall|k: int| 0 <= k < 3 ==> (#[trigger] raw@[k])@ == self.input_state(k),
                forall|k: int|
                    0 <= k < r@.len() ==> numbers((#[trigger] r@[k])@) == self.native_words(k),
            decreases 3 - r@.len(),
        {
            let k = r.len();
            assert(given@[k as int]@ == checked_state(16, k as int));
            assert(raw@[k as int]@ == self.input_state(k as int));
            let mut words: Vec<u32> = Vec::new();
            match self {
                Perm::BabyBear => {
                    let out = native_mix(&raw[k]);
                    while words.len() < 8
                        invariant
                            words@.len() <= 8,
                            out@.len() == 24,
                            forall|j: int| 0 <= j < words@.len() ==> words@[j] == out@[j],
                        decreases 8 - words@.len(),
                    {
                        let j = words.len();
                        words.push(out[j]);
                    }
                    assert(numbers(words@) =~= self.native_words(k as int));
                },
                Perm::KoalaBear => {
                    proof {
                        assert forall|i: int| 0 <= i < 16 implies #[trigger] given@[k as int]@[i]
                            < KOALABEAR_P by {
                            lemma_checked_cell(k as int, i);
                        }
                    }
                    let out = native_permute(&given[k]);
                    while words.len() < 8
                        invariant
                            words@.len() <= 8,
                            out@.len() == 16,
                            forall|j: int|
                                0 <= j < words@.len() ==> #[trigger] words@[j]
                                    == montgomery::encode(out@[j] as nat, KOALABEAR_P as nat),
                        decreases 8 - words@.len(),
                    {
                        let j = words.len();
                        words.push(kb_monty(out[j]));
                    }
                    assert(numbers(words@) =~= self.native_words(k as int));
                },
            }
            r.push(words);
        }
        r
    }
}

/// The cells of the checked states are KoalaBear elements.
proof fn lemma_checked_cell(k: int, i: int)
    requires
        0 <= k < 3,
        0 <= i < 16,
    ensures
        state_cell(k, i) < KOALABEAR_P,
{
    assert(i == 0 || i == 1 || i == 2 || i == 3 || i == 4 || i == 5 || i == 6 || i == 7 || i == 8
        || i == 9 || i == 10 || i == 11 || i == 12 || i == 13 || i == 14 || i == 15);
}

/// Which outcomes carry the expected words.
pub open spec fn words_match(outcomes: Seq<Outcome>, expected: Seq<Vec<u32>>) -> Seq<bool> {
    Seq::new(
        outcomes.len(),
        |k: int| output_words(outcomes[k].output@) == numbers(expected[k]@),
    )
}

/// Whether an output carries the expected words.
fn same_words(out: &[u8; 32], expected: &Vec<u32>) -> (r: bool)
    ensures
        r == (output_words(out@) == numbers(expected@)),
{
    if expected.len() != 8 {
        assert(numbers(expected@).len() != 8);
        return false;
    }
    let mut j: usize = 0;
    while j < 8
        invariant
            j <= 8,
            expected@.len() == 8,
            forall|i: int|
                0 <= i < j ==> #[trigger] output_words(out@)[i] == numbers(expected@)[i],
        decreases 8 - j,
    {
        if plan::read_le_word(out, 4 * j) != expected[j] {
            assert(output_words(out@)[j as int] != numbers(expected@)[j as int]);
            return false;
        }
        j += 1;
    }
    assert(output_words(out@) =~= numbers(expected@));
    true
}

/// The gadget of a permutation from the outcomes of its plan and the eight
/// words that each should have put out.
pub fn check_words(perm: Perm, outcomes: &Vec<Outcome>, expected: &Vec<Vec<u32>>) -> (r: Result<
    Gadget,
    MeasureError,
>)
    requires
        outcomes@.len() == expected@.len() > 0,
    ensures
        gadget::checked(
            outcomes@,
            words_match(outcomes@, expected@),
            perm.label(),
            perm.checked_against(),
            r,
        ),
{
    let mut ok: Vec<bool> = Vec::new();
    let mut k: usize = 0;
    while k < outcomes.len()
        invariant
            k <= outcomes@.len() == expected@.len(),
            ok@ =~= words_match(outcomes@, expected@).take(k as int),
        decreases outcomes@.len() - k,
    {
        ok.push(same_words(&outcomes[k].output, &expected[k]));
        k += 1;
    }
    assert(ok@ =~= words_match(outcomes@, expected@));
    gadget::check(perm.name(), perm.validated_against(), outcomes, &ok)
}

/// Which outcomes carry what the native permutation gives.
pub open spec fn matches(perm: Perm, outcomes: Seq<Outcome>) -> Seq<bool> {
    Seq::new(
        outcomes.len(),
        |k: int| output_words(outcomes[k].output@) == perm.native_words(k),
    )
}

/// The gadget of a permutation from the outcomes of its plan, one for each
/// state of [`Perm::inputs`].
pub fn measure_perm(perm: Perm, outcomes: &Vec<Outcome>) -> (r: Result<Gadget, MeasureError>)
    requires
        outcomes@.len() == 3,
    ensures
        gadget::checked(
            outcomes@,
            matches(perm, outcomes@),
            perm.label(),
            perm.checked_against(),
            r,
        ),
{
    let expected = perm.expected();
    assert(words_match(outcomes@, expected@) =~= matches(perm, outcomes@));
    check_words(perm, outcomes, &expected)
}

/// The named gadgets of both permutations, or the first fault.
pub fn measure(babybear: &Vec<Outcome>, koalabear: &Vec<Outcome>) -> (r: Result<
    [(&'static str, Gadget); 2],
    MeasureError,
>)
    requires
        babybear@.len() == 3,
        koalabear@.len() == 3,
    ensures
        match r {
            Ok(v) => {
                &&& v@[0].0 == Perm::BabyBear.label()
                &&& v@[1].0 == Perm::KoalaBear.label()
                &&& perm_checked(Perm::BabyBear, babybear@, Ok(v@[0].1))
                &&& perm_checked(Perm::KoalaBear, koalabear@, Ok(v@[1].1))
            },
            Err(e) => perm_checked(Perm::BabyBear, babybear@, Err(e)) || ((exists|g: Gadget|
                #[trigger] perm_checked(Perm::BabyBear, babybear@, Ok(g))) && perm_checked(
                Perm::KoalaBear,
                koalabear@,
                Err(e),
            )),
        },
{
    let first = match measure_perm(Perm::BabyBear, babybear) {
        Ok(g) => g,
        Err(e) => {
            return Err(e);
        },
    };
    assert(perm_checked(Perm::BabyBear, babybear@, Ok(first)));
    let second = match measure_perm(Perm::KoalaBear, koalabear) {
        Ok(g) => g,
        Err(e) => {
            return Err(e);
        },
    };
    Ok([(Perm::BabyBear.name(), first), (Perm::KoalaBear.name(), second)])
}

/// Whether `r` is the check of a permutation on its outcomes.
pub open spec fn perm_checked(
    perm: Perm,
    outcomes: Seq<Outcome>,
    r: Result<Gadget, MeasureError>,
) -> bool {
    gadget::checked(outcomes, matches(perm, outcomes), perm.label(), perm.checked_against(), r)
}

/// Each permutation goes by its own name, over its own prime, width and
/// reference.
pub proof fn law_permutations(perm: Perm)
    ensures
        match perm {
            Perm::BabyBear => perm.label()@ == "poseidon2_babybear_w24_permutation"@ && perm.cells()
                == 24 && perm.p() == 0x7800_0001 && perm.checked_against()@
                == "risc0-zkp poseidon2_mix"@,
            Perm::KoalaBear => perm.label()@ == "poseidon2_koalabear_w16_permutation"@
                && perm.cells() == 16 && perm.p() == 0x7f00_0001 && perm.checked_against()@
                == "slop-koala-bear my_kb_16_perm (sp1-primitives poseidon2_init)"@,
        },
{
}

/// The S-boxes of a permutation take all its products of two words: four for
/// each of the 24 elements in a full round and for the one in a partial round,
/// and two for each of 16 elements, or one, in the other permutation.
pub proof fn law_products()
    ensures
        Perm::BabyBear.products() == 4 * (8 * 24 + 21),
        Perm::KoalaBear.products() == 2 * (8 * 16 + 20),
        Perm::BabyBear.ops() == 17544,
        Perm::KoalaBear.ops() == 7200,
{
}

/// The constants stand in the order of their tables: 24 for each round of the
/// first permutation; 16 for each of the four rounds before and the four
/// behind the internal ones of the second, as Montgomery words.
pub proof fn law_constants(round: nat, i: nat)
    ensures
        babybear_constants().len() == 29 * 24,
        babybear_diagonals().len() == 24,
        koalabear_external_constants().len() == 8 * 16,
        koalabear_internal_constants().len() == 20,
        round < 29 && i < 24 ==> babybear_constants()[(24 * round + i) as int]
            == babybear_round_constant(24 * round + i),
        i < 24 ==> babybear_diagonals()[i as int] == babybear_diagonal(i),
        round < 4 && i < 16 ==> koalabear_external_constants()[(16 * round + i) as int] == (
        koalabear_begin_constant(round, i) * 0x1_0000_0000) % 0x7f00_0001,
        round < 4 && i < 16 ==> koalabear_external_constants()[(64 + 16 * round + i) as int] == (
        koalabear_end_constant(round, i) * 0x1_0000_0000) % 0x7f00_0001,
        i < 20 ==> koalabear_internal_constants()[i as int] == (koalabear_partial_constant(i)
            * 0x1_0000_0000) % 0x7f00_0001,
{
    if round < 4 && i < 16 {
        let (a, b) = (16 * round + i, 64 + 16 * round + i);
        assert((a as int) / 16 == round && (a as int) % 16 == i);
        assert((b as int) / 16 == round + 4 && (b as int) % 16 == i);
    }
}

/// The checked states: all zero, counting up from zero, and the multiples of a
/// constant cut to 31 bits.
pub proof fn law_checked_states(perm: Perm, width: nat, i: int)
    requires
        0 <= i < width <= u32::MAX,
        width == perm.cells(),
    ensures
        checked_state(width, 0).len() == width && checked_state(width, 0)[i] == 0,
        checked_state(width, 1).len() == width && checked_state(width, 1)[i] == i,
        checked_state(width, 2).len() == width && checked_state(width, 2)[i] == (i * 0x9e37_79b9)
            % 0x8000_0000,
        perm.input_state(0).len() == width && perm.input_state(0)[i] == 0,
        perm.input_state(1).len() == width && perm.input_state(1)[i] == (i * 0x1_0000_0000) % (
        perm.p() as int),
        perm.input_state(2).len() == width && perm.input_state(2)[i] == (((i * 0x9e37_79b9)
            % 0x8000_0000) * 0x1_0000_0000) % (perm.p() as int),
{
}

/// What the native permutation gives: its first eight words as they are, or
/// its first eight elements as Montgomery words.
pub proof fn law_native_words(k: int, j: int)
    requires
        0 <= j < 8,
    ensures
        poseidon2_mix_words(Perm::BabyBear.input_state(k)).len() == 24 ==> ({
            &&& Perm::BabyBear.native_words(k).len() == 8
            &&& Perm::BabyBear.native_words(k)[j] == poseidon2_mix_words(
                Perm::BabyBear.input_state(k),
            )[j]
        }),
        Perm::KoalaBear.native_words(k).len() == 8,
        Perm::KoalaBear.native_words(k)[j] == (my_kb_16_perm_elements(checked_state(16, k))[j]
            * 0x1_0000_0000) % 0x7f00_0001,
{
}

/// A state's words are the numbers of its input bits, and an output's words
/// are those that its bytes spell.
pub proof fn law_words(state: Seq<u32>, m: Seq<u8>, out: Seq<u8>, i: int)
    requires
        0 <= i < state.len(),
        m.len() == 4 * state.len(),
        plan::le_word(m, 4 * i) == state[i],
        out.len() == 32,
    ensures
        numbers(state).len() == state.len(),
        numbers(state)[i] == state[i],
        input_words(plan::byte_bits(m)).len() == state.len(),
        input_words(plan::byte_bits(m))[i] == state[i],
        output_words(out).len() == 8,
        forall|j: int|
            0 <= j < 8 ==> #[trigger] output_words(out)[j] == out[4 * j] + 0x100 * out[4 * j + 1]
                + 0x1_0000 * out[4 * j + 2] + 0x100_0000 * out[4 * j + 3],
{
    plan::lemma_le_word(m, 4 * i);
    assert(8 * (4 * i) == 32 * i);
}

/// An outcome passes exactly where its eight words are the expected ones.
pub proof fn law_outcomes_are_compared(
    perm: Perm,
    outcomes: Seq<Outcome>,
    expected: Seq<Vec<u32>>,
    k: int,
)
    requires
        0 <= k < outcomes.len() == expected.len(),
        expected[k]@.len() == 8,
    ensures
        words_match(outcomes, expected).len() == outcomes.len(),
        words_match(outcomes, expected)[k] <==> forall|j: int|
            0 <= j < 8 ==> plan::le_word(outcomes[k].output@, 4 * j) == #[trigger] expected[k]@[j],
        matches(perm, outcomes).len() == outcomes.len(),
        matches(perm, outcomes)[k] <==> output_words(outcomes[k].output@) == perm.native_words(k),
{
    let (o, e) = (output_words(outcomes[k].output@), numbers(expected[k]@));
    if forall|j: int|
        0 <= j < 8 ==> plan::le_word(outcomes[k].output@, 4 * j) == #[trigger] expected[k]@[j] {
        assert forall|j: int| 0 <= j < 8 implies o[j] == e[j] by {
            assert(plan::le_word(outcomes[k].output@, 4 * j) == expected[k]@[j]);
        }
        assert(o =~= e);
    }
    if o == e {
        assert forall|j: int| 0 <= j < 8 implies plan::le_word(outcomes[k].output@, 4 * j)
            == #[trigger] expected[k]@[j] by {
            assert(o[j] == e[j]);
        }
    }
}

/// A permutation is checked under its own name and reference.
pub proof fn law_permutation_is_checked(
    perm: Perm,
    outcomes: Seq<Outcome>,
    r: Result<Gadget, MeasureError>,
)
    requires
        perm_checked(perm, outcomes, r),
    ensures
        gadget::checked(
            outcomes,
            matches(perm, outcomes),
            perm.label(),
            perm.checked_against(),
            r,
        ),
{
}

} // verus!
