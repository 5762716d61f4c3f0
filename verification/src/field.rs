//! Modular arithmetic gadgets for three 31-bit primes: Montgomery form with
//! REDC for BabyBear and KoalaBear, Mersenne reduction for M31.
//!
//! Each gadget's contract gives the number that its result word carries for
//! every value of its operand words. On reduced operands that number is the
//! field operation's result.

use vstd::arithmetic::div_mod::*;
use vstd::arithmetic::mul::*;
use vstd::arithmetic::power2::*;
use vstd::prelude::*;

use crate::bits;
use crate::circuit;
use crate::circuit::{BigIntWires, Circuit, Shape, WireId, FALSE_WIRE};
use crate::gadget;
use crate::gadget::{Gadget, MeasureError};
use crate::plan;
use crate::plan::{HashOutputWires, InputMessageWires, Outcome, Plan, U8};

verus! {

/// The width of a word.
pub const W: usize = 32;

/// `2^31 - 2^27 + 1`.
pub const BABYBEAR_P: u32 = 0x7800_0001;

/// The inverse of [`BABYBEAR_P`] modulo `2^32`.
pub const BABYBEAR_MU: u32 = 0x8800_0001;

/// `2^31 - 2^24 + 1`.
pub const KOALABEAR_P: u32 = 0x7f00_0001;

/// The inverse of [`KOALABEAR_P`] modulo `2^32`.
pub const KOALABEAR_MU: u32 = 0x8100_0001;

/// `2^31 - 1`.
pub const M31_P: u32 = 0x7fff_ffff;

/// What the BabyBear gadgets are checked against.
pub const BABYBEAR_REFERENCE: &'static str =
    "risc0-core baby_bear::mul/add/sub (u32 reference restated here)";

/// What the KoalaBear gadgets are checked against.
pub const KOALABEAR_REFERENCE: &'static str =
    "p3-koala-bear monty_reduce/add/sub (u32 reference restated here)";

/// What the M31 gadgets are checked against.
pub const M31_REFERENCE: &'static str =
    "stwo M31::reduce / partial_reduce (u64 reference restated here)";

/// What the product gadget is checked against.
pub const PRODUCT_REFERENCE: &'static str = "low 32 bits of the native product";

/// `x` minus `p` if that does not borrow, else `x`.
pub open spec fn reduce_word(x: nat, p: nat) -> nat {
    if x >= p {
        (x - p) as nat
    } else {
        x
    }
}

/// The word that REDC computes from a double word `x`.
pub open spec fn redc_word(x: nat, p: nat, mu: nat) -> nat {
    let t = ((x % 0x1_0000_0000) * mu) % 0x1_0000_0000;
    if x >= t * p {
        ((x - t * p) as nat) / 0x1_0000_0000
    } else {
        (((0x1_0000_0000_0000_0000 + x - t * p) as nat) / 0x1_0000_0000 + p) % 0x1_0000_0000
    }
}

/// The sum of two words, cut to a word and reduced once.
pub open spec fn mod_add_word(a: nat, b: nat, p: nat) -> nat {
    reduce_word((a + b) % 0x1_0000_0000, p)
}

/// The difference of two words, with `p` added back if it borrowed.
pub open spec fn mod_sub_word(a: nat, b: nat, p: nat) -> nat {
    if a >= b {
        (a - b) as nat
    } else {
        ((0x1_0000_0000 + a - b + p) as nat) % 0x1_0000_0000
    }
}

/// The product of two 31-bit words modulo [`M31_P`].
pub open spec fn m31_mul_word(a: nat, b: nat) -> nat {
    (a * b) % (M31_P as nat)
}

/// The sum of two 31-bit words, reduced once.
pub open spec fn m31_add_word(a: nat, b: nat) -> nat {
    reduce_word(a + b, M31_P as nat)
}

/// The difference of two 31-bit words, lifted by [`M31_P`] and reduced once.
pub open spec fn m31_sub_word(a: nat, b: nat) -> nat {
    reduce_word((a + M31_P - b) as nat, M31_P as nat)
}

/// The low `bits` wires of the message from byte `off` on.
pub fn word(bytes: &[U8], off: usize, bits: usize) -> (r: BigIntWires)
    requires
        8 * off + bits <= 8 * bytes@.len() <= usize::MAX,
    ensures
        r.bits@ == plan::byte_wires(bytes@).subrange(8 * off, 8 * off + bits),
{
    let mut wires: Vec<WireId> = Vec::new();
    let mut i: usize = 0;
    while i < bits
        invariant
            i <= bits,
            8 * off + bits <= 8 * bytes@.len() <= usize::MAX,
            wires@ =~= plan::byte_wires(bytes@).subrange(8 * off, 8 * off + i),
        decreases bits - i,
    {
        proof {
            assert((8 * off + i) / 8 == off + i / 8 && (8 * off + i) % 8 == i % 8);
        }
        wires.push(bytes[off + i / 8].0[i % 8]);
        i += 1;
    }
    BigIntWires { bits: wires }
}

/// Up to 256 wires as the output, constant zero wires above them.
pub fn pack_output(bits: &[WireId]) -> (r: HashOutputWires)
    requires
        bits@.len() <= 256,
    ensures
        r.wires() == bits@ + circuit::zero_wires((256 - bits@.len()) as nat),
{
    let mut value: [U8; 32] = [U8([FALSE_WIRE; 8]); 32];
    let ghost all = bits@ + circuit::zero_wires((256 - bits@.len()) as nat);
    let mut k: usize = 0;
    while k < 32
        invariant
            k <= 32,
            bits@.len() <= 256,
            all == bits@ + circuit::zero_wires((256 - bits@.len()) as nat),
            forall|i: int, j: int|
                0 <= i < k && 0 <= j < 8 ==> #[trigger] value@[i].0@[j] == all[8 * i + j],
        decreases 32 - k,
    {
        let mut b: [WireId; 8] = [FALSE_WIRE; 8];
        let mut j: usize = 0;
        while j < 8
            invariant
                j <= 8,
                k < 32,
                bits@.len() <= 256,
                all == bits@ + circuit::zero_wires((256 - bits@.len()) as nat),
                forall|l: int| 0 <= l < j ==> b@[l] == all[8 * k + l],
            decreases 8 - j,
        {
            if 8 * k + j < bits.len() {
                b[j] = bits[8 * k + j];
            } else {
                b[j] = FALSE_WIRE;
            }
            j += 1;
        }
        value[k] = U8(b);
        k += 1;
    }
    let r = HashOutputWires { value };
    proof {
        assert forall|i: int| 0 <= i < 256 implies r.wires()[i] == all[i] by {
            assert(value@[i / 8].0@[i % 8] == all[8 * (i / 8) + i % 8]);
        }
        assert(r.wires() =~= all);
    }
    r
}

/// A word of constant wires.
pub fn constant(n: u32) -> (r: BigIntWires)
    ensures
        r.bits@ == circuit::constant_wires(n as nat, 32),
{
    BigIntWires::new_constant(W, n)
}

/// The operations of a conditional subtraction.
#[verifier::opaque]
pub open spec fn reduce_shapes() -> Seq<Shape> {
    seq![Shape::Sub(32)] + seq![Shape::SelfOrZero(32)] + seq![Shape::AddWithoutCarry(32)]
}

/// `x` minus `p` if that does not borrow, else `x`.
#[verifier::rlimit(30)]
fn reduce_once(circuit: &mut Circuit, x: &BigIntWires, p: u32) -> (r: BigIntWires)
    requires
        old(circuit).wf(),
        old(circuit).is_word(*x, 32),
    ensures
        final(circuit).grows(*old(circuit), 3, 0),
        final(circuit).adds(*old(circuit), reduce_shapes()),
        final(circuit).is_word(r, 32),
        forall|env: Seq<bool>| #[trigger]
            final(circuit).word(env, r) == reduce_word(old(circuit).word(env, *x), p as nat),
{
    let ghost c0 = *circuit;
    let modulus = constant(p);
    proof {
        bits::lemma_word_powers();
        c0.lemma_constant(modulus, p as nat, 32);
        c0.lemma_bound(*x);
    }
    let d = circuit.sub(x, &modulus);
    let ghost c1 = *circuit;
    let borrow = d.bits[W];
    proof {
        c1.lemma_constant(modulus, p as nat, 32);
    }
    let corr = circuit.self_or_zero(&modulus, borrow);
    let ghost c2 = *circuit;
    let reduced = d.slice(0, W);
    proof {
        c2.lemma_low(d, reduced, 32);
    }
    let r = circuit.add_without_carry(&reduced, &corr);
    proof {
        assert forall|env: Seq<bool>| #[trigger] circuit.word(env, r) == reduce_word(
            c0.word(env, *x),
            p as nat,
        ) by {
            assert(c0.word(env, modulus) == p);
            assert(c1.word(env, modulus) == p);
            assert(c1.wire(env, borrow) == (c0.word(env, *x) < p));
            assert(c2.word(env, d) == c1.word(env, d));
            assert(c2.word(env, reduced) == c2.word(env, d) % 0x1_0000_0000);
            assert(c2.word(env, corr) == (if c0.word(env, *x) < p {
                p as nat
            } else {
                0
            }));
        }
    }
    assert(circuit.adds(c0, reduce_shapes())) by {
        broadcast use circuit::lemma_shapes_grouped;

        reveal(reduce_shapes);
    }
    r
}

/// The operations of a Montgomery reduction.
#[verifier::opaque]
pub open spec fn redc_shapes(p: u32, mu: u32) -> Seq<Shape> {
    seq![Shape::MulByConstantModuloPowerTwo(32, mu, 32)] + seq![Shape::MulByConstant(32, p)]
        + seq![Shape::Sub(64)] + seq![Shape::SelfOrZero(32)] + seq![Shape::AddWithoutCarry(32)]
}

/// Montgomery reduction of a double word: `x * 2^-32 mod p`, for `x < p * 2^32`.
#[verifier::rlimit(30)]
pub fn redc(circuit: &mut Circuit, x: &BigIntWires, p: u32, mu: u32) -> (r: BigIntWires)
    requires
        old(circuit).wf(),
        old(circuit).is_word(*x, 64),
    ensures
        final(circuit).grows(*old(circuit), 5, 0),
        final(circuit).adds(*old(circuit), redc_shapes(p, mu)),
        final(circuit).is_word(r, 32),
        forall|env: Seq<bool>| #[trigger]
            final(circuit).word(env, r) == redc_word(
                old(circuit).word(env, *x),
                p as nat,
                mu as nat,
            ),
{
    let ghost c0 = *circuit;
    let x_lo = x.slice(0, W);
    proof {
        bits::lemma_word_powers();
        c0.lemma_low(*x, x_lo, 32);
        c0.lemma_bound(*x);
    }
    let t = circuit.mul_by_constant_modulo_power_two(&x_lo, mu, W);
    let ghost c1 = *circuit;
    let u = circuit.mul_by_constant(&t, p);
    let ghost c2 = *circuit;
    let d = circuit.sub(x, &u);
    let ghost c3 = *circuit;
    let over = d.bits[2 * W];
    let hi = d.slice(W, 2 * W);
    let modulus = constant(p);
    proof {
        c3.lemma_constant(modulus, p as nat, 32);
    }
    let corr = circuit.self_or_zero(&modulus, over);
    let ghost c4 = *circuit;
    proof {
        c4.lemma_slice(d, hi, 32, 64);
        c2.lemma_bound(u);
    }
    let r = circuit.add_without_carry(&hi, &corr);
    proof {
        assert forall|env: Seq<bool>| #[trigger] circuit.word(env, r) == redc_word(
            c0.word(env, *x),
            p as nat,
            mu as nat,
        ) by {
            let v = c0.word(env, *x);
            let tv = ((v % 0x1_0000_0000) * (mu as nat)) % 0x1_0000_0000;
            assert(c0.word(env, x_lo) == v % 0x1_0000_0000);
            assert(c1.word(env, t) == tv);
            assert(c2.word(env, u) == tv * (p as nat));
            assert(c2.word(env, *x) == v);
            assert(c3.wire(env, over) == (v < tv * (p as nat)));
            assert(c4.word(env, d) == c3.word(env, d));
            assert(c4.word(env, hi) == (c4.word(env, d) / 0x1_0000_0000) % 0x1_0000_0000);
            assert(c3.word(env, modulus) == p);
            assert(c4.word(env, corr) == (if v < tv * (p as nat) {
                p as nat
            } else {
                0
            }));
        }
    }
    assert(circuit.adds(c0, redc_shapes(p, mu))) by {
        broadcast use circuit::lemma_shapes_grouped;

        reveal(redc_shapes);
    }
    r
}

/// The operations of a Montgomery multiplication.
#[verifier::opaque]
pub open spec fn monty_mul_shapes(p: u32, mu: u32) -> Seq<Shape> {
    seq![Shape::MulKaratsuba(32)] + redc_shapes(p, mu)
}

/// Montgomery multiplication: `a * b * 2^-32 mod p` for reduced operands.
pub fn monty_mul(
    circuit: &mut Circuit,
    a: &BigIntWires,
    b: &BigIntWires,
    p: u32,
    mu: u32,
) -> (r: BigIntWires)
    requires
        old(circuit).wf(),
        old(circuit).is_word(*a, 32),
        old(circuit).is_word(*b, 32),
    ensures
        final(circuit).grows(*old(circuit), 6, 1),
        final(circuit).adds(*old(circuit), monty_mul_shapes(p, mu)),
        final(circuit).is_word(r, 32),
        forall|env: Seq<bool>| #[trigger]
            final(circuit).word(env, r) == redc_word(
                old(circuit).word(env, *a) * old(circuit).word(env, *b),
                p as nat,
                mu as nat,
            ),
{
    let ghost c0 = *circuit;
    let x = circuit.mul_karatsuba(a, b);
    let ghost c1 = *circuit;
    let r = redc(circuit, &x, p, mu);
    proof {
        assert forall|env: Seq<bool>| #[trigger] circuit.word(env, r) == redc_word(
            c0.word(env, *a) * c0.word(env, *b),
            p as nat,
            mu as nat,
        ) by {
            assert(c1.word(env, x) == c0.word(env, *a) * c0.word(env, *b));
        }
    }
    assert(circuit.adds(c0, monty_mul_shapes(p, mu))) by {
        broadcast use circuit::lemma_shapes_grouped;

        reveal(monty_mul_shapes);
    }
    r
}

/// The operations of a Montgomery multiplication by a constant.
#[verifier::opaque]
pub open spec fn monty_mul_const_shapes(c: u32, p: u32, mu: u32) -> Seq<Shape> {
    seq![Shape::MulByConstant(32, c)] + redc_shapes(p, mu)
}

/// Montgomery multiplication by a constant that is already in Montgomery form.
pub fn monty_mul_const(
    circuit: &mut Circuit,
    a: &BigIntWires,
    c: u32,
    p: u32,
    mu: u32,
) -> (r: BigIntWires)
    requires
        old(circuit).wf(),
        old(circuit).is_word(*a, 32),
    ensures
        final(circuit).grows(*old(circuit), 6, 0),
        final(circuit).adds(*old(circuit), monty_mul_const_shapes(c, p, mu)),
        final(circuit).is_word(r, 32),
        forall|env: Seq<bool>| #[trigger]
            final(circuit).word(env, r) == redc_word(
                old(circuit).word(env, *a) * (c as nat),
                p as nat,
                mu as nat,
            ),
{
    let ghost c0 = *circuit;
    proof {
        bits::lemma_word_powers();
    }
    let x = circuit.mul_by_constant(a, c);
    let ghost c1 = *circuit;
    let r = redc(circuit, &x, p, mu);
    proof {
        assert forall|env: Seq<bool>| #[trigger] circuit.word(env, r) == redc_word(
            c0.word(env, *a) * (c as nat),
            p as nat,
            mu as nat,
        ) by {
            assert(c1.word(env, x) == c0.word(env, *a) * (c as nat));
        }
    }
    assert(circuit.adds(c0, monty_mul_const_shapes(c, p, mu))) by {
        broadcast use circuit::lemma_shapes_grouped;

        reveal(monty_mul_const_shapes);
    }
    r
}

/// The operations of a modular addition.
#[verifier::opaque]
pub open spec fn mod_add_shapes() -> Seq<Shape> {
    seq![Shape::Add(32)] + reduce_shapes()
}

/// `a + b mod p`: add, then subtract `p` unless that borrows.
pub fn mod_add(circuit: &mut Circuit, a: &BigIntWires, b: &BigIntWires, p: u32) -> (r: BigIntWires)
    requires
        old(circuit).wf(),
        old(circuit).is_word(*a, 32),
        old(circuit).is_word(*b, 32),
    ensures
        final(circuit).grows(*old(circuit), 4, 0),
        final(circuit).adds(*old(circuit), mod_add_shapes()),
        final(circuit).is_word(r, 32),
        forall|env: Seq<bool>| #[trigger]
            final(circuit).word(env, r) == mod_add_word(
                old(circuit).word(env, *a),
                old(circuit).word(env, *b),
                p as nat,
            ),
{
    let ghost c0 = *circuit;
    let sum = circuit.add(a, b);
    let ghost c1 = *circuit;
    let s = sum.slice(0, W);
    proof {
        bits::lemma_word_powers();
        c1.lemma_low(sum, s, 32);
    }
    let r = reduce_once(circuit, &s, p);
    proof {
        assert forall|env: Seq<bool>| #[trigger] circuit.word(env, r) == mod_add_word(
            c0.word(env, *a),
            c0.word(env, *b),
            p as nat,
        ) by {
            assert(c1.word(env, s) == c1.word(env, sum) % 0x1_0000_0000);
        }
    }
    assert(circuit.adds(c0, mod_add_shapes())) by {
        broadcast use circuit::lemma_shapes_grouped;

        reveal(mod_add_shapes);
    }
    r
}

/// The operations of a modular subtraction.
#[verifier::opaque]
pub open spec fn mod_sub_shapes() -> Seq<Shape> {
    seq![Shape::Sub(32)] + seq![Shape::SelfOrZero(32)] + seq![Shape::AddWithoutCarry(32)]
}

/// `a - b mod p`: subtract, add back `p` if that borrowed.
#[verifier::rlimit(30)]
pub fn mod_sub(circuit: &mut Circuit, a: &BigIntWires, b: &BigIntWires, p: u32) -> (r: BigIntWires)
    requires
        old(circuit).wf(),
        old(circuit).is_word(*a, 32),
        old(circuit).is_word(*b, 32),
    ensures
        final(circuit).grows(*old(circuit), 3, 0),
        final(circuit).adds(*old(circuit), mod_sub_shapes()),
        final(circuit).is_word(r, 32),
        forall|env: Seq<bool>| #[trigger]
            final(circuit).word(env, r) == mod_sub_word(
                old(circuit).word(env, *a),
                old(circuit).word(env, *b),
                p as nat,
            ),
{
    let ghost c0 = *circuit;
    proof {
        bits::lemma_word_powers();
        c0.lemma_bound(*a);
        c0.lemma_bound(*b);
    }
    let d = circuit.sub(a, b);
    let ghost c1 = *circuit;
    let borrow = d.bits[W];
    let modulus = constant(p);
    proof {
        c1.lemma_constant(modulus, p as nat, 32);
    }
    let corr = circuit.self_or_zero(&modulus, borrow);
    let ghost c2 = *circuit;
    let low = d.slice(0, W);
    proof {
        c2.lemma_low(d, low, 32);
    }
    let r = circuit.add_without_carry(&low, &corr);
    proof {
        assert forall|env: Seq<bool>| #[trigger] circuit.word(env, r) == mod_sub_word(
            c0.word(env, *a),
            c0.word(env, *b),
            p as nat,
        ) by {
            assert(c1.word(env, modulus) == p);
            assert(c1.wire(env, borrow) == (c0.word(env, *a) < c0.word(env, *b)));
            assert(c2.word(env, d) == c1.word(env, d));
            assert(c2.word(env, low) == c2.word(env, d) % 0x1_0000_0000);
            assert(c2.word(env, corr) == (if c0.word(env, *a) < c0.word(env, *b) {
                p as nat
            } else {
                0
            }));
        }
    }
    assert(circuit.adds(c0, mod_sub_shapes())) by {
        broadcast use circuit::lemma_shapes_grouped;

        reveal(mod_sub_shapes);
    }
    r
}

/// Drops the top wire of a word that carries a number below `2^31`, so that
/// the M31 gadgets compose: they take and return 31-bit words.
fn m31_bits(x: &BigIntWires) -> (r: BigIntWires)
    requires
        x.bits@.len() >= 31,
    ensures
        r.bits@ == x.bits@.subrange(0, 31),
{
    x.slice(0, 31)
}

/// Folding the high 31 bits of a product onto the low ones twice, then
/// reducing once, is reduction modulo [`M31_P`].
proof fn lemma_m31_fold(x: nat)
    requires
        x < 0x4000_0000_0000_0000,
    ensures
        ({
            let s = x % 0x8000_0000 + x / 0x8000_0000;
            let r = s % 0x8000_0000 + s / 0x8000_0000;
            reduce_word(r, M31_P as nat) == x % (M31_P as nat)
        }),
{
    let s = x % 0x8000_0000 + x / 0x8000_0000;
    let r = s % 0x8000_0000 + s / 0x8000_0000;
    assert(x == s + 0x7fff_ffff * (x / 0x8000_0000));
    assert(s == r + 0x7fff_ffff * (s / 0x8000_0000));
    lemma_mod_multiples_vanish((x / 0x8000_0000) as int, s as int, 0x7fff_ffff);
    lemma_mod_multiples_vanish((s / 0x8000_0000) as int, r as int, 0x7fff_ffff);
    assert(r <= 0x7fff_ffff);
}

/// The operations of a Mersenne-31 multiplication.
#[verifier::opaque]
pub open spec fn m31_mul_shapes() -> Seq<Shape> {
    seq![Shape::MulKaratsuba(31)] + seq![Shape::Add(31)] + seq![Shape::Add(31)] + reduce_shapes()
}

/// Mersenne-31 multiplication: the 62-bit product, its high half folded onto
/// the low half twice, then one conditional subtraction.
#[verifier::rlimit(30)]
pub fn m31_mul(circuit: &mut Circuit, a: &BigIntWires, b: &BigIntWires) -> (r: BigIntWires)
    requires
        old(circuit).wf(),
        old(circuit).is_word(*a, 31),
        old(circuit).is_word(*b, 31),
    ensures
        final(circuit).grows(*old(circuit), 6, 1),
        final(circuit).adds(*old(circuit), m31_mul_shapes()),
        final(circuit).is_word(r, 31),
        forall|env: Seq<bool>| #[trigger]
            final(circuit).word(env, r) == m31_mul_word(
                old(circuit).word(env, *a),
                old(circuit).word(env, *b),
            ),
{
    let ghost c0 = *circuit;
    let x = circuit.mul_karatsuba(a, b);
    let ghost c1 = *circuit;
    let lo = x.slice(0, 31);
    let hi = x.slice(31, 62);
    proof {
        bits::lemma_word_powers();
        c1.lemma_low(x, lo, 31);
        c1.lemma_slice(x, hi, 31, 62);
        c1.lemma_bound(x);
    }
    let s = circuit.add(&lo, &hi);
    let ghost c2 = *circuit;
    let lo2 = s.slice(0, 31);
    let top = s.slice(31, 32);
    let hi2 = top.place(0, 31);
    proof {
        c2.lemma_low(s, lo2, 31);
        c2.lemma_slice(s, top, 31, 32);
        c2.lemma_place(top, hi2, 0, 30);
    }
    let t = circuit.add(&lo2, &hi2);
    let ghost c3 = *circuit;
    let reduced = reduce_once(circuit, &t, M31_P);
    let r = m31_bits(&reduced);
    proof {
        circuit.lemma_low(reduced, r, 31);
        assert forall|env: Seq<bool>| #[trigger] circuit.word(env, r) == m31_mul_word(
            c0.word(env, *a),
            c0.word(env, *b),
        ) by {
            let v = c0.word(env, *a) * c0.word(env, *b);
            assert(c1.word(env, x) == v);
            assert(c1.word(env, lo) == v % 0x8000_0000);
            assert(c1.word(env, hi) == (v / 0x8000_0000) % 0x8000_0000);
            assert(c2.word(env, s) == v % 0x8000_0000 + v / 0x8000_0000);
            assert(c2.word(env, lo2) == c2.word(env, s) % 0x8000_0000);
            assert(c2.word(env, top) == (c2.word(env, s) / 0x8000_0000) % 2);
            assert(c2.word(env, hi2) == c2.word(env, top) * 1);
            assert(c3.word(env, t) == c2.word(env, lo2) + c2.word(env, hi2));
            assert(circuit.word(env, reduced) == reduce_word(c3.word(env, t), M31_P as nat));
            lemma_m31_fold(v);
        }
    }
    assert(circuit.adds(c0, m31_mul_shapes())) by {
        broadcast use circuit::lemma_shapes_grouped;

        reveal(m31_mul_shapes);
    }
    r
}

/// The operations of a Mersenne-31 addition.
#[verifier::opaque]
pub open spec fn m31_add_shapes() -> Seq<Shape> {
    seq![Shape::Add(31)] + reduce_shapes()
}

/// Mersenne-31 addition.
pub fn m31_add(circuit: &mut Circuit, a: &BigIntWires, b: &BigIntWires) -> (r: BigIntWires)
    requires
        old(circuit).wf(),
        old(circuit).is_word(*a, 31),
        old(circuit).is_word(*b, 31),
    ensures
        final(circuit).grows(*old(circuit), 4, 0),
        final(circuit).adds(*old(circuit), m31_add_shapes()),
        final(circuit).is_word(r, 31),
        forall|env: Seq<bool>| #[trigger]
            final(circuit).word(env, r) == m31_add_word(
                old(circuit).word(env, *a),
                old(circuit).word(env, *b),
            ),
{
    let ghost c0 = *circuit;
    let s = circuit.add(a, b);
    let ghost c1 = *circuit;
    let reduced = reduce_once(circuit, &s, M31_P);
    let r = m31_bits(&reduced);
    proof {
        bits::lemma_word_powers();
        circuit.lemma_low(reduced, r, 31);
        c0.lemma_bound(*a);
        c0.lemma_bound(*b);
        assert forall|env: Seq<bool>| #[trigger] circuit.word(env, r) == m31_add_word(
            c0.word(env, *a),
            c0.word(env, *b),
        ) by {
            assert(c1.word(env, s) == c0.word(env, *a) + c0.word(env, *b));
            assert(circuit.word(env, reduced) == reduce_word(c1.word(env, s), M31_P as nat));
        }
    }
    assert(circuit.adds(c0, m31_add_shapes())) by {
        broadcast use circuit::lemma_shapes_grouped;

        reveal(m31_add_shapes);
    }
    r
}

/// The operations of a Mersenne-31 subtraction.
#[verifier::opaque]
pub open spec fn m31_sub_shapes() -> Seq<Shape> {
    seq![Shape::Add(32)] + seq![Shape::Sub(32)] + reduce_shapes()
}

/// Mersenne-31 subtraction, at 32 bits so that `a + p` keeps its carry.
#[verifier::rlimit(30)]
pub fn m31_sub(circuit: &mut Circuit, a: &BigIntWires, b: &BigIntWires) -> (r: BigIntWires)
    requires
        old(circuit).wf(),
        old(circuit).is_word(*a, 31),
        old(circuit).is_word(*b, 31),
    ensures
        final(circuit).grows(*old(circuit), 5, 0),
        final(circuit).adds(*old(circuit), m31_sub_shapes()),
        final(circuit).is_word(r, 31),
        forall|env: Seq<bool>| #[trigger]
            final(circuit).word(env, r) == m31_sub_word(
                old(circuit).word(env, *a),
                old(circuit).word(env, *b),
            ),
{
    let ghost c0 = *circuit;
    let a32 = a.place(0, W);
    let b32 = b.place(0, W);
    let modulus = constant(M31_P);
    proof {
        bits::lemma_word_powers();
        c0.lemma_place(*a, a32, 0, 1);
        c0.lemma_place(*b, b32, 0, 1);
        c0.lemma_constant(modulus, M31_P as nat, 32);
        c0.lemma_bound(*a);
        c0.lemma_bound(*b);
    }
    let sum = circuit.add(&a32, &modulus);
    let ghost c1 = *circuit;
    let t = sum.slice(0, W);
    proof {
        c1.lemma_low(sum, t, 32);
    }
    let diff = circuit.sub(&t, &b32);
    let ghost c2 = *circuit;
    let d = diff.slice(0, W);
    proof {
        c2.lemma_low(diff, d, 32);
    }
    let reduced = reduce_once(circuit, &d, M31_P);
    let r = m31_bits(&reduced);
    proof {
        circuit.lemma_low(reduced, r, 31);
        assert forall|env: Seq<bool>| #[trigger] circuit.word(env, r) == m31_sub_word(
            c0.word(env, *a),
            c0.word(env, *b),
        ) by {
            let x = c0.word(env, *a);
            let y = c0.word(env, *b);
            assert(c0.word(env, a32) == x * 1);
            assert(c0.word(env, b32) == y * 1);
            assert(c0.word(env, modulus) == M31_P);
            assert(c1.word(env, sum) == x + M31_P);
            assert(c1.word(env, t) == x + M31_P);
            assert(c1.word(env, b32) == y);
            assert(c2.word(env, diff) == x + M31_P - y);
            assert(c2.word(env, d) == x + M31_P - y);
            assert(circuit.word(env, reduced) == reduce_word(c2.word(env, d), M31_P as nat));
        }
    }
    assert(circuit.adds(c0, m31_sub_shapes())) by {
        broadcast use circuit::lemma_shapes_grouped;

        reveal(m31_sub_shapes);
    }
    r
}

/// The REDC reference on native integers.
pub fn monty_mul_ref(a: u32, b: u32, p: u32, mu: u32) -> (r: u32)
    ensures
        r == redc_word((a as nat) * (b as nat), p as nat, mu as nat),
{
    proof {
        circuit::lemma_product_bound(a as nat, 0x1_0000_0000, b as nat, 0x1_0000_0000);
    }
    let x: u64 = (a as u64) * (b as u64);
    let lo: u64 = x % 0x1_0000_0000;
    proof {
        circuit::lemma_product_bound(lo as nat, 0x1_0000_0000, mu as nat, 0x1_0000_0000);
    }
    let t: u64 = (lo * (mu as u64)) % 0x1_0000_0000;
    proof {
        circuit::lemma_product_bound(t as nat, 0x1_0000_0000, p as nat, 0x1_0000_0000);
    }
    let u: u64 = t * (p as u64);
    let d: u64 = x.wrapping_sub(u);
    let hi: u32 = (d / 0x1_0000_0000) as u32;
    if x < u {
        hi.wrapping_add(p)
    } else {
        hi
    }
}

/// The operations that are measured, in the order of their names.
#[derive(Clone, Copy, Debug, PartialEq, Eq, Structural)]
pub enum FieldOp {
    BabyBearAdd,
    BabyBearMul,
    BabyBearSub,
    Karatsuba31x31,
    KoalaBearAdd,
    KoalaBearMul,
    KoalaBearSub,
    M31Add,
    M31Mul,
    M31Sub,
}

impl FieldOp {
    /// The name under which the operation's count is recorded.
    pub open spec fn label(self) -> &'static str {
        match self {
            FieldOp::BabyBearAdd => "babybear_add",
            FieldOp::BabyBearMul => "babybear_mul",
            FieldOp::BabyBearSub => "babybear_sub",
            FieldOp::Karatsuba31x31 => "karatsuba_31x31",
            FieldOp::KoalaBearAdd => "koalabear_add",
            FieldOp::KoalaBearMul => "koalabear_mul",
            FieldOp::KoalaBearSub => "koalabear_sub",
            FieldOp::M31Add => "m31_add",
            FieldOp::M31Mul => "m31_mul",
            FieldOp::M31Sub => "m31_sub",
        }
    }

    /// The name under which the operation's count is recorded.
    pub fn name(self) -> (r: &'static str)
        ensures
            r == self.label(),
    {
        match self {
            FieldOp::BabyBearAdd => "babybear_add",
            FieldOp::BabyBearMul => "babybear_mul",
            FieldOp::BabyBearSub => "babybear_sub",
            FieldOp::Karatsuba31x31 => "karatsuba_31x31",
            FieldOp::KoalaBearAdd => "koalabear_add",
            FieldOp::KoalaBearMul => "koalabear_mul",
            FieldOp::KoalaBearSub => "koalabear_sub",
            FieldOp::M31Add => "m31_add",
            FieldOp::M31Mul => "m31_mul",
            FieldOp::M31Sub => "m31_sub",
        }
    }
    /// The width of the operands.
    pub open spec fn bits(self) -> nat {
        match self {
            FieldOp::Karatsuba31x31 | FieldOp::M31Add | FieldOp::M31Mul | FieldOp::M31Sub => 31,
            _ => 32,
        }
    }

    /// The prime, below which operands are reduced.
    pub open spec fn p(self) -> u32 {
        match self {
            FieldOp::BabyBearAdd | FieldOp::BabyBearMul | FieldOp::BabyBearSub => BABYBEAR_P,
            FieldOp::KoalaBearAdd | FieldOp::KoalaBearMul | FieldOp::KoalaBearSub => KOALABEAR_P,
            _ => M31_P,
        }
    }

    /// The number that the gadget's result word carries.
    pub open spec fn result(self, a: nat, b: nat) -> nat {
        match self {
            FieldOp::BabyBearAdd => mod_add_word(a, b, BABYBEAR_P as nat),
            FieldOp::BabyBearMul => redc_word(a * b, BABYBEAR_P as nat, BABYBEAR_MU as nat),
            FieldOp::BabyBearSub => mod_sub_word(a, b, BABYBEAR_P as nat),
            FieldOp::Karatsuba31x31 => a * b,
            FieldOp::KoalaBearAdd => mod_add_word(a, b, KOALABEAR_P as nat),
            FieldOp::KoalaBearMul => redc_word(a * b, KOALABEAR_P as nat, KOALABEAR_MU as nat),
            FieldOp::KoalaBearSub => mod_sub_word(a, b, KOALABEAR_P as nat),
            FieldOp::M31Add => m31_add_word(a, b),
            FieldOp::M31Mul => m31_mul_word(a, b),
            FieldOp::M31Sub => m31_sub_word(a, b),
        }
    }

    /// The native reference: sums, differences and products modulo the prime;
    /// Montgomery products by REDC; the low word of a plain product.
    pub open spec fn reference(self, a: nat, b: nat) -> nat {
        match self {
            FieldOp::BabyBearMul => redc_word(a * b, BABYBEAR_P as nat, BABYBEAR_MU as nat),
            FieldOp::KoalaBearMul => redc_word(a * b, KOALABEAR_P as nat, KOALABEAR_MU as nat),
            FieldOp::Karatsuba31x31 => (a * b) % 0x1_0000_0000,
            FieldOp::BabyBearAdd | FieldOp::KoalaBearAdd | FieldOp::M31Add => (a + b) % (
            self.p() as nat),
            FieldOp::BabyBearSub | FieldOp::KoalaBearSub | FieldOp::M31Sub => ((a + self.p()
                - b) as nat) % (self.p() as nat),
            FieldOp::M31Mul => (a * b) % (self.p() as nat),
        }
    }

    /// What the operation's output is checked against.
    pub open spec fn checked_against(self) -> &'static str {
        match self {
            FieldOp::BabyBearAdd
            | FieldOp::BabyBearMul
            | FieldOp::BabyBearSub => BABYBEAR_REFERENCE,
            FieldOp::KoalaBearAdd
            | FieldOp::KoalaBearMul
            | FieldOp::KoalaBearSub => KOALABEAR_REFERENCE,
            FieldOp::M31Add | FieldOp::M31Mul | FieldOp::M31Sub => M31_REFERENCE,
            FieldOp::Karatsuba31x31 => PRODUCT_REFERENCE,
        }
    }

    fn validated_against(self) -> (r: &'static str)
        ensures
            r == self.checked_against(),
    {
        match self {
            FieldOp::BabyBearAdd
            | FieldOp::BabyBearMul
            | FieldOp::BabyBearSub => BABYBEAR_REFERENCE,
            FieldOp::KoalaBearAdd
            | FieldOp::KoalaBearMul
            | FieldOp::KoalaBearSub => KOALABEAR_REFERENCE,
            FieldOp::M31Add | FieldOp::M31Mul | FieldOp::M31Sub => M31_REFERENCE,
            FieldOp::Karatsuba31x31 => PRODUCT_REFERENCE,
        }
    }

    fn width(self) -> (r: usize)
        ensures
            r == self.bits(),
    {
        match self {
            FieldOp::Karatsuba31x31 | FieldOp::M31Add | FieldOp::M31Mul | FieldOp::M31Sub => 31,
            _ => W,
        }
    }

    /// The prime, below which operands are reduced.
    pub fn modulus(self) -> (r: u32)
        ensures
            r == self.p(),
    {
        match self {
            FieldOp::BabyBearAdd | FieldOp::BabyBearMul | FieldOp::BabyBearSub => BABYBEAR_P,
            FieldOp::KoalaBearAdd | FieldOp::KoalaBearMul | FieldOp::KoalaBearSub => KOALABEAR_P,
            _ => M31_P,
        }
    }

    /// The operation on native integers.
    pub fn native(self, a: u32, b: u32) -> (r: u32)
        requires
            b <= a + self.p(),
        ensures
            r == self.reference(a as nat, b as nat),
    {
        let p: u64 = self.modulus() as u64;
        let (x, y): (u64, u64) = (a as u64, b as u64);
        proof {
            circuit::lemma_product_bound(a as nat, 0x1_0000_0000, b as nat, 0x1_0000_0000);
        }
        match self {
            FieldOp::BabyBearMul => monty_mul_ref(a, b, BABYBEAR_P, BABYBEAR_MU),
            FieldOp::KoalaBearMul => monty_mul_ref(a, b, KOALABEAR_P, KOALABEAR_MU),
            FieldOp::Karatsuba31x31 => ((x * y) % 0x1_0000_0000) as u32,
            FieldOp::BabyBearAdd | FieldOp::KoalaBearAdd | FieldOp::M31Add => ((x + y) % p) as u32,
            FieldOp::BabyBearSub | FieldOp::KoalaBearSub | FieldOp::M31Sub => ((x + p - y)
                % p) as u32,
            FieldOp::M31Mul => ((x * y) % p) as u32,
        }
    }

    /// The shapes of the circuit's operations.
    pub open spec fn shapes(self) -> Seq<Shape> {
        match self {
            FieldOp::BabyBearAdd | FieldOp::KoalaBearAdd => mod_add_shapes(),
            FieldOp::BabyBearMul => monty_mul_shapes(BABYBEAR_P, BABYBEAR_MU),
            FieldOp::BabyBearSub | FieldOp::KoalaBearSub => mod_sub_shapes(),
            FieldOp::Karatsuba31x31 => seq![Shape::MulKaratsuba(31)],
            FieldOp::KoalaBearMul => monty_mul_shapes(KOALABEAR_P, KOALABEAR_MU),
            FieldOp::M31Add => m31_add_shapes(),
            FieldOp::M31Mul => m31_mul_shapes(),
            FieldOp::M31Sub => m31_sub_shapes(),
        }
    }

    /// The word operations of the circuit.
    pub open spec fn ops(self) -> nat {
        match self {
            FieldOp::BabyBearAdd | FieldOp::KoalaBearAdd => 4,
            FieldOp::BabyBearMul | FieldOp::KoalaBearMul => 6,
            FieldOp::BabyBearSub | FieldOp::KoalaBearSub => 3,
            FieldOp::Karatsuba31x31 => 1,
            FieldOp::M31Add => 4,
            FieldOp::M31Mul => 6,
            FieldOp::M31Sub => 5,
        }
    }

    /// The products of two words among them.
    pub open spec fn products(self) -> nat {
        match self {
            FieldOp::BabyBearMul | FieldOp::KoalaBearMul | FieldOp::Karatsuba31x31
            | FieldOp::M31Mul => 1,
            _ => 0,
        }
    }

    /// Appends the operation's gadget to a circuit.
    pub fn build(self, circuit: &mut Circuit, a: &BigIntWires, b: &BigIntWires) -> (r: BigIntWires)
        requires
            old(circuit).wf(),
            old(circuit).is_word(*a, self.bits()),
            old(circuit).is_word(*b, self.bits()),
        ensures
            final(circuit).grows(*old(circuit), self.ops(), self.products()),
            final(circuit).adds(*old(circuit), self.shapes()),
            final(circuit).has_word(r),
            r.bits@.len() <= 64,
            forall|env: Seq<bool>| #[trigger]
                final(circuit).word(env, r) == self.result(
                    old(circuit).word(env, *a),
                    old(circuit).word(env, *b),
                ),
    {
        match self {
            FieldOp::BabyBearAdd => mod_add(circuit, a, b, BABYBEAR_P),
            FieldOp::BabyBearMul => monty_mul(circuit, a, b, BABYBEAR_P, BABYBEAR_MU),
            FieldOp::BabyBearSub => mod_sub(circuit, a, b, BABYBEAR_P),
            FieldOp::Karatsuba31x31 => circuit.mul_karatsuba(a, b),
            FieldOp::KoalaBearAdd => mod_add(circuit, a, b, KOALABEAR_P),
            FieldOp::KoalaBearMul => monty_mul(circuit, a, b, KOALABEAR_P, KOALABEAR_MU),
            FieldOp::KoalaBearSub => mod_sub(circuit, a, b, KOALABEAR_P),
            FieldOp::M31Add => m31_add(circuit, a, b),
            FieldOp::M31Mul => m31_mul(circuit, a, b),
            FieldOp::M31Sub => m31_sub(circuit, a, b),
        }
    }

    /// The operation over a message of eight bytes: one operand in the low
    /// bits of each half, the result in the low bits of the output.
    pub fn plan(self) -> (r: Plan)
        ensures
            r.wf(),
            r.circuit.n_inputs == 64,
            r.circuit.ops@.len() == self.ops(),
            circuit::products_of(r.circuit.ops@) == self.products(),
            circuit::shapes_of(r.circuit.ops@) == self.shapes(),
            forall|env: Seq<bool>|
                env.len() == 64 ==> #[trigger] r.output_word(env, 0) == self.result(
                    bits::bits_value(env.subrange(0, self.bits() as int)),
                    bits::bits_value(env.subrange(32, 32int + self.bits())),
                ) % 0x1_0000_0000,
    {
        let n = self.width();
        let mut c = Circuit::new(64);
        let message = InputMessageWires::new(8);
        let x = word(&message.byte_arr, 0, n);
        let y = word(&message.byte_arr, 4, n);
        let ghost c0 = c;
        proof {
            plan::lemma_input_word(c0, message, x, 0, n as int);
            plan::lemma_input_word(c0, message, y, 4, n as int);
        }
        let out = self.build(&mut c, &x, &y);
        let r = Plan { circuit: c, output: pack_output(&out.bits) };
        proof {
            r.lemma_output_low(out);
            assert forall|env: Seq<bool>| env.len() == 64 implies #[trigger] r.output_word(env, 0)
                == self.result(
                bits::bits_value(env.subrange(0, self.bits() as int)),
                bits::bits_value(env.subrange(32, 32int + self.bits())),
            ) % 0x1_0000_0000 by {
                assert(c.word(env, out) == self.result(c0.word(env, x), c0.word(env, y)));
            }
        }
        r
    }
}

/// The message that holds two operands.
pub fn message(a: u32, b: u32) -> (r: Vec<u8>)
    ensures
        r@.len() == 8,
        plan::le_word(r@, 0) == a,
        plan::le_word(r@, 4) == b,
{
    let mut r: Vec<u8> = Vec::new();
    plan::push_word(&mut r, a);
    let ghost first = r@;
    plan::push_word(&mut r, b);
    assert(forall|i: int| 0 <= i < 4 ==> r@[i] == r@.take(4)[i]);
    r
}

/// Evaluates an operation's circuit on two operands.
pub fn run(op: FieldOp, a: u32, b: u32) -> (r: u32)
    ensures
        r == op.result((a as nat) % pow2(op.bits()), (b as nat) % pow2(op.bits()))
            % 0x1_0000_0000,
{
    let p = op.plan();
    let m = message(a, b);
    proof {
        plan::lemma_message_word(m@, 0, op.bits() as int);
        plan::lemma_message_word(m@, 4, op.bits() as int);
        assert(p.output_word(plan::byte_bits(m@), 0) == op.result(
            (a as nat) % pow2(op.bits()),
            (b as nat) % pow2(op.bits()),
        ) % 0x1_0000_0000);
    }
    let out = p.evaluate(&m);
    assert(plan::le_word(out@, 4 * 0int) == p.output_word(plan::byte_bits(m@), 0));
    plan::read_le_word(&out, 0)
}

/// The operand pairs an operation is checked on.
pub open spec fn pairs(p: u32) -> Seq<(u32, u32)> {
    seq![
        (1u32, 1u32),
        (0x1234_5678u32 % p, 0x0765_4321u32 % p),
        ((p - 1) as u32, (p - 1) as u32),
        ((p - 1) as u32, 1u32),
        (0u32, (p - 1) as u32),
        (0x5a5a_5a5au32 % p, 0x3c3c_3c3cu32 % p),
    ]
}

/// The operand pairs an operation is checked on.
pub fn inputs(p: u32) -> (r: Vec<(u32, u32)>)
    requires
        p > 0,
    ensures
        r@ == pairs(p),
{
    let r: Vec<(u32, u32)> = vec![
        (1u32, 1u32),
        (0x1234_5678u32 % p, 0x0765_4321u32 % p),
        (p - 1, p - 1),
        (p - 1, 1u32),
        (0u32, p - 1),
        (0x5a5a_5a5au32 % p, 0x3c3c_3c3cu32 % p),
    ];
    assert(r@ =~= pairs(p));
    r
}

/// Which outcomes carry the reference result in their low four bytes.
pub open spec fn matches(op: FieldOp, outcomes: Seq<Outcome>) -> Seq<bool> {
    Seq::new(
        outcomes.len(),
        |k: int|
            plan::le_word(outcomes[k].output@, 0) == op.reference(
                pairs(op.p())[k].0 as nat,
                pairs(op.p())[k].1 as nat,
            ),
    )
}

/// The gadget of an operation from the outcomes of its plan on
/// [`inputs`], one for each operand pair.
pub fn measure_op(op: FieldOp, outcomes: &Vec<Outcome>) -> (r: Result<Gadget, MeasureError>)
    requires
        outcomes@.len() == 6,
    ensures
        gadget::checked(
            outcomes@,
            matches(op, outcomes@),
            op.label(),
            op.checked_against(),
            r,
        ),
{
    let given = inputs(op.modulus());
    let mut ok: Vec<bool> = Vec::new();
    let mut k: usize = 0;
    while k < outcomes.len()
        invariant
            k <= outcomes@.len() == 6,
            given@ == pairs(op.p()),
            ok@ =~= matches(op, outcomes@).take(k as int),
        decreases outcomes@.len() - k,
    {
        let (a, b) = given[k];
        assert(b <= op.p());
        ok.push(plan::read_le_word(&outcomes[k].output, 0) == op.native(a, b));
        k += 1;
    }
    assert(ok@ =~= matches(op, outcomes@));
    gadget::check(op.name(), op.validated_against(), outcomes, &ok)
}

/// All operations, in the order of their names.
pub open spec fn all_ops() -> Seq<FieldOp> {
    seq![
        FieldOp::BabyBearAdd,
        FieldOp::BabyBearMul,
        FieldOp::BabyBearSub,
        FieldOp::Karatsuba31x31,
        FieldOp::KoalaBearAdd,
        FieldOp::KoalaBearMul,
        FieldOp::KoalaBearSub,
        FieldOp::M31Add,
        FieldOp::M31Mul,
        FieldOp::M31Sub,
    ]
}

/// All operations, in the order of their names.
pub fn operations() -> (r: Vec<FieldOp>)
    ensures
        r@ == all_ops(),
{
    let r: Vec<FieldOp> = vec![
        FieldOp::BabyBearAdd,
        FieldOp::BabyBearMul,
        FieldOp::BabyBearSub,
        FieldOp::Karatsuba31x31,
        FieldOp::KoalaBearAdd,
        FieldOp::KoalaBearMul,
        FieldOp::KoalaBearSub,
        FieldOp::M31Add,
        FieldOp::M31Mul,
        FieldOp::M31Sub,
    ];
    assert(r@ =~= all_ops());
    r
}

/// Whether `r` is the check of operation `i` on the outcomes in row `i`.
pub open spec fn op_checked(
    outcomes: Seq<Vec<Outcome>>,
    i: int,
    r: Result<Gadget, MeasureError>,
) -> bool {
    let op = all_ops()[i];
    gadget::checked(
        outcomes[i]@,
        matches(op, outcomes[i]@),
        op.label(),
        op.checked_against(),
        r,
    )
}

/// Whether operation `i` passes its check on the outcomes in row `i`.
pub open spec fn op_passes(outcomes: Seq<Vec<Outcome>>, i: int) -> bool {
    exists|g: Gadget| #[trigger] op_checked(outcomes, i, Ok(g))
}

/// The named gadgets of all operations, or the first fault among them. Row
/// `i` of `outcomes` belongs to operation `i` of [`operations`].
pub fn measure(outcomes: &Vec<Vec<Outcome>>) -> (r: Result<
    Vec<(&'static str, Gadget)>,
    MeasureError,
>)
    requires
        outcomes@.len() == 10,
        forall|i: int| 0 <= i < 10 ==> (#[trigger] outcomes@[i])@.len() == 6,
    ensures
        match r {
            Ok(v) => v@.len() == 10 && forall|i: int|
                0 <= i < 10 ==> (#[trigger] v@[i]).0 == all_ops()[i].label() && op_checked(
                    outcomes@,
                    i,
                    Ok(v@[i].1),
                ),
            Err(e) => exists|i: int|
                0 <= i < 10 && #[trigger] op_checked(outcomes@, i, Err(e)) && forall|j: int|
                    0 <= j < i ==> #[trigger] op_passes(outcomes@, j),
        },
{
    let ops = operations();
    let mut v: Vec<(&'static str, Gadget)> = Vec::new();
    while v.len() < ops.len()
        invariant
            v@.len() <= 10,
            ops@ == all_ops(),
            outcomes@.len() == 10,
            forall|i: int| 0 <= i < 10 ==> (#[trigger] outcomes@[i])@.len() == 6,
            forall|i: int|
                0 <= i < v@.len() ==> (#[trigger] v@[i]).0 == all_ops()[i].label() && op_checked(
                    outcomes@,
                    i,
                    Ok(v@[i].1),
                ),
        decreases 10 - v@.len(),
    {
        let i = v.len();
        match measure_op(ops[i], &outcomes[i]) {
            Ok(g) => v.push((ops[i].name(), g)),
            Err(e) => {
                proof {
                    assert(op_checked(outcomes@, i as int, Err(e)));
                    assert forall|j: int| 0 <= j < i implies #[trigger] op_passes(
                        outcomes@,
                        j,
                    ) by {
                        assert(op_checked(outcomes@, j, Ok(v@[j].1)));
                    }
                }
                return Err(e);
            },
        }
    }
    Ok(v)
}

/// On reduced operands every operation's circuit gives the native reference.
#[verifier::rlimit(50)]
pub proof fn law_circuit_is_reference(op: FieldOp, a: nat, b: nat)
    requires
        a < op.p(),
        b < op.p(),
    ensures
        op.result(a % pow2(op.bits()), b % pow2(op.bits())) % 0x1_0000_0000 == op.reference(a, b),
{
    bits::lemma_word_powers();
    lemma_small_mod(a, pow2(op.bits()));
    lemma_small_mod(b, pow2(op.bits()));
    crate::montgomery::law_parameters();
    match op {
        FieldOp::BabyBearAdd | FieldOp::KoalaBearAdd => {
            crate::montgomery::law_mod_add(a, b, op.p() as nat, mu_of(op.p()));
        },
        FieldOp::BabyBearSub | FieldOp::KoalaBearSub => {
            crate::montgomery::law_mod_sub(a, b, op.p() as nat, mu_of(op.p()));
        },
        FieldOp::BabyBearMul | FieldOp::KoalaBearMul => {
            crate::montgomery::law_monty_mul(a, b, op.p() as nat, mu_of(op.p()));
        },
        FieldOp::M31Add | FieldOp::M31Sub => {
            crate::montgomery::law_m31(a, b);
        },
        _ => {},
    }
}

/// The REDC constant of a prime in Montgomery form.
pub open spec fn mu_of(p: u32) -> nat {
    if p == BABYBEAR_P {
        BABYBEAR_MU as nat
    } else {
        KOALABEAR_MU as nat
    }
}

/// What the sum and the difference gadgets give on words of any size: the sum
/// is cut to a word, from which the prime is taken once where it is no larger;
/// the difference is lifted by the prime where it borrows.
pub proof fn law_words_of_any_size(a: nat, b: nat, p: nat)
    requires
        a < 0x1_0000_0000,
        b < 0x1_0000_0000,
        p < 0x1_0000_0000,
    ensures
        ({
            let s = if a + b < 0x1_0000_0000 {
                a + b as int
            } else {
                a + b - 0x1_0000_0000
            };
            &&& s < p ==> mod_add_word(a, b, p) == s
            &&& s >= p ==> mod_add_word(a, b, p) + p == s
        }),
        ({
            let d = mod_sub_word(a, b, p);
            &&& d < 0x1_0000_0000
            &&& a >= b ==> d + b == a
            &&& a < b ==> d + b == a + p || d + b == a + p + 0x1_0000_0000
        }),
        a < p ==> reduce_word(a, p) == a,
        a >= p ==> reduce_word(a, p) + p == a,
        m31_add_word(a, b) + 0x7fff_ffff == a + b || (a + b < 0x7fff_ffff && m31_add_word(a, b) == a
            + b),
        b <= a + 0x7fff_ffff ==> ({
            let d = m31_sub_word(a, b);
            (a >= b && d + b == a) || (a < b && d + b == a + 0x7fff_ffff)
        }),
{
}

/// REDC on a double word of any size: with the one multiple of the prime that
/// agrees with it in the low word taken off, its high word is what remains,
/// lifted by the prime where that is negative.
pub proof fn law_redc_of_any_size(x: nat, p: nat, mu: nat, t: nat, q: int)
    requires
        crate::montgomery::is_montgomery(p, mu),
        x < 0x1_0000_0000_0000_0000,
        t < 0x1_0000_0000,
        x == t * p + q * 0x1_0000_0000,
    ensures
        redc_word(x, p, mu) == if q >= 0 {
            q
        } else {
            (q + p) % 0x1_0000_0000
        },
{
    let r = 0x1_0000_0000int;
    let (xi, pi, m, ti) = (x as int, p as int, mu as int, t as int);
    // x mod 2^32 = t * p, so that times mu it is t.
    lemma_mod_multiples_vanish(q, ti * pi, r);
    lemma_mul_is_commutative(q, r);
    assert(xi % r == (ti * pi) % r);
    lemma_mul_mod_noop_left(ti * pi, m, r);
    assert((ti * pi) * m == ti * (pi * m)) by (nonlinear_arith);
    lemma_mul_mod_noop_right(ti, pi * m, r);
    lemma_mul_is_commutative(pi, m);
    assert(ti * 1 == ti);
    lemma_small_mod(t, 0x1_0000_0000);
    assert(((xi % r) * m) % r == ti);
    if q >= 0 {
        assert(q < r) by (nonlinear_arith)
            requires
                xi == ti * pi + q * r,
                xi < r * r,
                ti * pi >= 0,
                r == 0x1_0000_0000int,
        ;
        lemma_div_multiples_vanish(q, r);
    } else {
        let e = r * r + xi - ti * pi;
        assert(e == (r + q) * r) by (nonlinear_arith)
            requires
                e == r * r + xi - ti * pi,
                xi == ti * pi + q * r,
        ;
        assert(r * r == 0x1_0000_0000_0000_0000);
        lemma_div_multiples_vanish(r + q, r);
        lemma_mul_is_commutative(r + q, r);
        assert(e / r == r + q);
        assert(x < t * p) by (nonlinear_arith)
            requires
                x == t * p + q * r,
                q < 0,
                r == 0x1_0000_0000int,
        ;
        assert(ti * pi < r * r) by (nonlinear_arith)
            requires
                0 <= ti < r,
                0 < pi < r,
        ;
        assert(redc_word(x, p, mu) == (r + q + pi) % r);
        lemma_mod_add_multiples_vanish(q + pi, r);
    }
}

/// The reference of an operation is reduced and congruent to the sum,
/// difference or product of its operands; that of a Montgomery product is so
/// times `2^32`, and that of a plain product is its low word.
pub proof fn law_reference(op: FieldOp, a: nat, b: nat)
    requires
        b <= a + op.p(),
    ensures
        match op {
            FieldOp::BabyBearAdd | FieldOp::KoalaBearAdd | FieldOp::M31Add => op.reference(a, b)
                < op.p() && (op.reference(a, b) - (a + b)) % (op.p() as int) == 0,
            FieldOp::BabyBearSub | FieldOp::KoalaBearSub | FieldOp::M31Sub => op.reference(a, b)
                < op.p() && (op.reference(a, b) + b - a) % (op.p() as int) == 0,
            FieldOp::M31Mul => op.reference(a, b) < op.p() && (op.reference(a, b) - a * b) % (
            op.p() as int) == 0,
            FieldOp::Karatsuba31x31 => op.reference(a, b) < 0x1_0000_0000 && (op.reference(a, b) - a
                * b) % 0x1_0000_0000 == 0,
            FieldOp::BabyBearMul | FieldOp::KoalaBearMul => a < op.p() && b < 0x1_0000_0000
                ==> op.reference(a, b) < op.p() && (op.reference(a, b) * 0x1_0000_0000) % (
            op.p() as nat) == (a * b) % (op.p() as nat),
        },
{
    let p = op.p() as int;
    let (s, d, m) = (a + b, a + p - b, (a * b) as int);
    lemma_fundamental_div_mod(s as int, p);
    lemma_fundamental_div_mod(d, p);
    lemma_fundamental_div_mod(m, p);
    lemma_fundamental_div_mod(m, 0x1_0000_0000);
    match op {
        FieldOp::BabyBearAdd | FieldOp::KoalaBearAdd | FieldOp::M31Add => {
            lemma_multiple_off(s as int, p);
        },
        FieldOp::BabyBearSub | FieldOp::KoalaBearSub | FieldOp::M31Sub => {
            lemma_multiple_off(d, p);
            lemma_mod_add_multiples_vanish(d % p - d, p);
        },
        FieldOp::M31Mul => {
            lemma_multiple_off(m, p);
        },
        FieldOp::Karatsuba31x31 => {
            lemma_multiple_off(m, 0x1_0000_0000);
        },
        FieldOp::BabyBearMul | FieldOp::KoalaBearMul => {
            if a < op.p() && b < 0x1_0000_0000 {
                crate::montgomery::law_parameters();
                circuit::lemma_product_bound(a, op.p() as nat, b, 0x1_0000_0000);
                crate::montgomery::law_redc(a * b, op.p() as nat, mu_of(op.p()));
            }
        },
    }
}

proof fn lemma_multiple_off(x: int, p: int)
    requires
        p > 0,
    ensures
        (x % p - x) % p == 0,
{
    lemma_fundamental_div_mod(x, p);
    lemma_mul_is_commutative(p, x / p);
    lemma_mul_unary_negation(x / p, p);
    lemma_mod_multiples_basic(-(x / p), p);
}

/// The words that each gadget is made of.
pub proof fn law_operations_of_gadgets(p: u32, mu: u32, c: u32)
    ensures
        mod_add_shapes() == seq![
            Shape::Add(32),
            Shape::Sub(32),
            Shape::SelfOrZero(32),
            Shape::AddWithoutCarry(32),
        ],
        mod_sub_shapes() == seq![
            Shape::Sub(32),
            Shape::SelfOrZero(32),
            Shape::AddWithoutCarry(32),
        ],
        redc_shapes(p, mu) == seq![
            Shape::MulByConstantModuloPowerTwo(32, mu, 32),
            Shape::MulByConstant(32, p),
            Shape::Sub(64),
            Shape::SelfOrZero(32),
            Shape::AddWithoutCarry(32),
        ],
        monty_mul_shapes(p, mu) == seq![Shape::MulKaratsuba(32)] + redc_shapes(p, mu),
        monty_mul_const_shapes(c, p, mu) == seq![Shape::MulByConstant(32, c)] + redc_shapes(p, mu),
        m31_add_shapes() == seq![
            Shape::Add(31),
            Shape::Sub(32),
            Shape::SelfOrZero(32),
            Shape::AddWithoutCarry(32),
        ],
        m31_sub_shapes() == seq![
            Shape::Add(32),
            Shape::Sub(32),
            Shape::Sub(32),
            Shape::SelfOrZero(32),
            Shape::AddWithoutCarry(32),
        ],
        m31_mul_shapes() == seq![
            Shape::MulKaratsuba(31),
            Shape::Add(31),
            Shape::Add(31),
            Shape::Sub(32),
            Shape::SelfOrZero(32),
            Shape::AddWithoutCarry(32),
        ],
{
    reveal(reduce_shapes);
    reveal(mod_add_shapes);
    reveal(mod_sub_shapes);
    reveal(redc_shapes);
    reveal(monty_mul_shapes);
    reveal(monty_mul_const_shapes);
    reveal(m31_mul_shapes);
    reveal(m31_add_shapes);
    reveal(m31_sub_shapes);
    assert(m31_add_shapes() =~= seq![
        Shape::Add(31),
        Shape::Sub(32),
        Shape::SelfOrZero(32),
        Shape::AddWithoutCarry(32),
    ]);
    assert(m31_sub_shapes() =~= seq![
        Shape::Add(32),
        Shape::Sub(32),
        Shape::Sub(32),
        Shape::SelfOrZero(32),
        Shape::AddWithoutCarry(32),
    ]);
    assert(mod_add_shapes() =~= seq![
        Shape::Add(32),
        Shape::Sub(32),
        Shape::SelfOrZero(32),
        Shape::AddWithoutCarry(32),
    ]);
    assert(m31_mul_shapes() =~= seq![
        Shape::MulKaratsuba(31),
        Shape::Add(31),
        Shape::Add(31),
        Shape::Sub(32),
        Shape::SelfOrZero(32),
        Shape::AddWithoutCarry(32),
    ]);
}

/// A gadget has as many operations as its shapes, and as many products of two
/// words as there are such among them.
pub proof fn law_gadget_sizes(op: FieldOp)
    ensures
        op.shapes().len() == op.ops(),
        op.products() == circuit::count_of(op.shapes(), Shape::MulKaratsuba(op.bits())),
        op.products() == (if op is BabyBearMul || op is KoalaBearMul || op is M31Mul
            || op is Karatsuba31x31 {
            1nat
        } else {
            0
        }),
        op.ops() == match op {
            FieldOp::BabyBearAdd | FieldOp::KoalaBearAdd | FieldOp::M31Add => 4nat,
            FieldOp::BabyBearMul | FieldOp::KoalaBearMul | FieldOp::M31Mul => 6,
            FieldOp::BabyBearSub | FieldOp::KoalaBearSub => 3,
            FieldOp::M31Sub => 5,
            FieldOp::Karatsuba31x31 => 1,
        },
{
    reveal(reduce_shapes);
    reveal(mod_add_shapes);
    reveal(mod_sub_shapes);
    reveal(redc_shapes);
    reveal(monty_mul_shapes);
    reveal(m31_mul_shapes);
    reveal(m31_add_shapes);
    reveal(m31_sub_shapes);
    let s = op.shapes();
    reveal_with_fuel(circuit::count_of, 7);
    assert(s.len() == op.ops());
}

/// Each operation goes by its own name, over its own prime and with its own
/// reference.
pub proof fn law_operations(op: FieldOp)
    ensures
        match op {
            FieldOp::BabyBearAdd => op.label()@ == "babybear_add"@,
            FieldOp::BabyBearMul => op.label()@ == "babybear_mul"@,
            FieldOp::BabyBearSub => op.label()@ == "babybear_sub"@,
            FieldOp::Karatsuba31x31 => op.label()@ == "karatsuba_31x31"@,
            FieldOp::KoalaBearAdd => op.label()@ == "koalabear_add"@,
            FieldOp::KoalaBearMul => op.label()@ == "koalabear_mul"@,
            FieldOp::KoalaBearSub => op.label()@ == "koalabear_sub"@,
            FieldOp::M31Add => op.label()@ == "m31_add"@,
            FieldOp::M31Mul => op.label()@ == "m31_mul"@,
            FieldOp::M31Sub => op.label()@ == "m31_sub"@,
        },
        match op {
            FieldOp::BabyBearAdd | FieldOp::BabyBearMul | FieldOp::BabyBearSub => op.p()
                == 0x8000_0000 - 0x800_0000 + 1 && op.bits() == 32 && op.checked_against()@
                == "risc0-core baby_bear::mul/add/sub (u32 reference restated here)"@,
            FieldOp::KoalaBearAdd | FieldOp::KoalaBearMul | FieldOp::KoalaBearSub => op.p()
                == 0x8000_0000 - 0x100_0000 + 1 && op.bits() == 32 && op.checked_against()@
                == "p3-koala-bear monty_reduce/add/sub (u32 reference restated here)"@,
            FieldOp::M31Add | FieldOp::M31Mul | FieldOp::M31Sub => op.p() == 0x8000_0000 - 1
                && op.bits() == 31 && op.checked_against()@
                == "stwo M31::reduce / partial_reduce (u64 reference restated here)"@,
            FieldOp::Karatsuba31x31 => op.p() == 0x8000_0000 - 1 && op.bits() == 31
                && op.checked_against()@ == "low 32 bits of the native product"@,
        },
        all_ops().len() == 10,
        all_ops().contains(op),
        all_ops().no_duplicates(),
{
    let v = all_ops();
    assert(v[0] == FieldOp::BabyBearAdd && v[1] == FieldOp::BabyBearMul && v[2]
        == FieldOp::BabyBearSub && v[3] == FieldOp::Karatsuba31x31 && v[4] == FieldOp::KoalaBearAdd
        && v[5] == FieldOp::KoalaBearMul && v[6] == FieldOp::KoalaBearSub && v[7] == FieldOp::M31Add
        && v[8] == FieldOp::M31Mul && v[9] == FieldOp::M31Sub);
}

/// An operation is checked on six pairs of reduced operands: the ends of the
/// field with each other, and two patterns reduced.
pub proof fn law_checked_pairs(p: u32, k: int)
    requires
        p > 1,
        0 <= k < 6,
    ensures
        pairs(p).len() == 6,
        pairs(p)[k].0 < p && pairs(p)[k].1 < p,
        pairs(p)[0] == (1u32, 1u32),
        pairs(p)[1].0 == 0x1234_5678u32 % p && pairs(p)[1].1 == 0x0765_4321u32 % p,
        pairs(p)[2].0 + 1 == p && pairs(p)[2].1 + 1 == p,
        pairs(p)[3].0 + 1 == p && pairs(p)[3].1 == 1,
        pairs(p)[4].0 == 0 && pairs(p)[4].1 + 1 == p,
        pairs(p)[5].0 == 0x5a5a_5a5au32 % p && pairs(p)[5].1 == 0x3c3c_3c3cu32 % p,
{
}

/// An outcome passes exactly where its first four bytes spell the reference
/// of its operands.
pub proof fn law_outcomes_are_compared(op: FieldOp, outcomes: Seq<Outcome>, k: int)
    requires
        0 <= k < outcomes.len() <= 6,
    ensures
        matches(op, outcomes).len() == outcomes.len(),
        matches(op, outcomes)[k] <==> ({
            let o = outcomes[k].output@;
            o[0] + 0x100 * o[1] + 0x1_0000 * o[2] + 0x100_0000 * o[3] == op.reference(
                pairs(op.p())[k].0 as nat,
                pairs(op.p())[k].1 as nat,
            )
        }),
{
}

/// Operation `i` is checked on row `i`, under its own name and reference, and
/// passes exactly where that check gives a gadget.
pub proof fn law_rows_are_checked(
    outcomes: Seq<Vec<Outcome>>,
    i: int,
    r: Result<Gadget, MeasureError>,
)
    requires
        0 <= i < outcomes.len() <= 10,
        op_checked(outcomes, i, r),
        outcomes[i]@.len() == 6,
    ensures
        gadget::checked(
            outcomes[i]@,
            matches(all_ops()[i], outcomes[i]@),
            all_ops()[i].label(),
            all_ops()[i].checked_against(),
            r,
        ),
        r is Ok ==> op_passes(outcomes, i),
        r is Err ==> !op_passes(outcomes, i),
{
    let ok = matches(all_ops()[i], outcomes[i]@);
    if r is Ok {
        assert(op_checked(outcomes, i, Ok(r->Ok_0)));
    } else if op_passes(outcomes, i) {
        let g = choose|g: Gadget| #[trigger] op_checked(outcomes, i, Ok(g));
        assert(op_checked(outcomes, i, Ok(g)));
        let k = r->Err_0.input as int;
        assert(gadget::fault_at(outcomes[i]@, ok, k) is None);
    }
}

} // verus!
