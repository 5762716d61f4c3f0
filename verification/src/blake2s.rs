//! BLAKE2s-256 (RFC 7693) over a fixed-length message, from bit adders and
//! exclusive ors.

use vstd::arithmetic::div_mod::*;
use vstd::arithmetic::mul::*;
use vstd::arithmetic::power2::*;
use vstd::bits::*;
use vstd::prelude::*;

use crate::bits;
use crate::circuit;
use crate::circuit::{BigIntWires, Circuit, Shape, WireId, FALSE_WIRE};
use crate::gadget;
use crate::gadget::{Gadget, MeasureError};
use crate::plan;
use crate::plan::{HashOutputWires, InputMessageWires, Outcome, Plan, U8};

verus! {

broadcast use {
    circuit::lemma_shapes_grouped,
    circuit::lemma_shapes_then_none,
    circuit::lemma_none_then_shapes,
};

/// The initialization vector.
pub const IV: [u32; 8] = [
    0x6A09E667,
    0xBB67AE85,
    0x3C6EF372,
    0xA54FF53A,
    0x510E527F,
    0x9B05688C,
    0x1F83D9AB,
    0x5BE0CD19,
];

/// The message schedule: which message words each round mixes in.
pub const SIGMA: [[usize; 16]; 10] = [
    [0, 1, 2, 3, 4, 5, 6, 7, 8, 9, 10, 11, 12, 13, 14, 15],
    [14, 10, 4, 8, 9, 15, 13, 6, 1, 12, 0, 2, 11, 7, 5, 3],
    [11, 8, 12, 0, 5, 2, 15, 13, 10, 14, 3, 6, 7, 1, 9, 4],
    [7, 9, 3, 1, 13, 12, 11, 14, 2, 6, 5, 10, 4, 0, 15, 8],
    [9, 0, 5, 7, 2, 4, 10, 15, 14, 1, 11, 12, 6, 8, 3, 13],
    [2, 12, 6, 10, 0, 11, 8, 3, 4, 13, 7, 5, 15, 14, 1, 9],
    [12, 5, 1, 15, 14, 13, 4, 10, 0, 7, 6, 3, 9, 2, 8, 11],
    [13, 11, 7, 14, 12, 1, 3, 9, 5, 0, 15, 4, 8, 6, 2, 10],
    [6, 15, 14, 9, 11, 3, 0, 8, 12, 2, 13, 7, 1, 4, 10, 5],
    [10, 2, 8, 4, 7, 6, 1, 5, 15, 11, 9, 14, 3, 12, 13, 0],
];

/// A word of 32 wires, least significant first.
#[derive(Clone, Copy, Debug)]
pub struct U32(pub [WireId; 32]);

/// The operations of an exclusive or of two words.
#[verifier::opaque]
pub open spec fn xor_shapes() -> Seq<Shape> {
    circuit::repeated(seq![Shape::Xor], 32)
}

/// The operations of a sum of two words.
#[verifier::opaque]
pub open spec fn add_shapes() -> Seq<Shape> {
    circuit::repeated(seq![Shape::FullAdder], 32)
}

/// Exclusive or of two words.
pub open spec fn xor_word(a: nat, b: nat) -> nat {
    ((a as u32) ^ (b as u32)) as nat
}

/// The wires of a word rotated right by `n` places.
pub open spec fn rotated(wires: Seq<WireId>, n: u32) -> Seq<WireId> {
    wires.skip((n % 32) as int) + wires.take((n % 32) as int)
}

/// A rotation moves wire `i + n` to place `i`, is undone by the rotation over
/// the rest of the word, and changes nothing where it is by whole words.
pub proof fn law_rotation_undone(wires: Seq<WireId>, n: u32)
    requires
        wires.len() == 32,
    ensures
        forall|i: int|
            0 <= i < 32 ==> #[trigger] rotated(wires, n)[i] == wires[(i + n as int) % 32],
        rotated(rotated(wires, n), (32 - n % 32) as u32) == wires,
        n % 32 == 0 ==> rotated(wires, n) == wires,
{
    let k = (n % 32) as int;
    let once = rotated(wires, n);
    assert forall|i: int| 0 <= i < 32 implies #[trigger] once[i] == wires[(i + n as int) % 32] by {
        if i < 32 - k {
            assert((i + n as int) % 32 == i + k);
        } else {
            assert((i + n as int) % 32 == i + k - 32);
        }
    }
    let m = (32 - n % 32) as u32;
    if k == 0 {
        assert(once =~= wires);
        assert(m % 32 == 0);
        assert(rotated(once, m) =~= once);
    } else {
        assert(m % 32 == 32 - k);
        assert(rotated(once, m) =~= wires);
    }
}

/// The word `a` rotated right by `n` places.
pub open spec fn rotr_word(a: nat, n: nat) -> nat {
    a / pow2(n) + (a % pow2(n)) * pow2((32 - n) as nat)
}

/// The sum of two words modulo `2^32`.
pub open spec fn add_word(a: nat, b: nat) -> nat {
    (a + b) % 0x1_0000_0000
}

/// The mixing function: `v` with the words at `a`, `b`, `c`, `d` mixed with
/// each other and with two message words.
#[verifier::opaque]
pub open spec fn g_words(
    v: Seq<nat>,
    a: int,
    b: int,
    c: int,
    d: int,
    x: nat,
    y: nat,
) -> Seq<nat> {
    let a1 = add_word(add_word(v[a], v[b]), x);
    let d1 = rotr_word(xor_word(v[d], a1), 16);
    let c1 = add_word(v[c], d1);
    let b1 = rotr_word(xor_word(v[b], c1), 12);
    let a2 = add_word(add_word(a1, b1), y);
    let d2 = rotr_word(xor_word(d1, a2), 8);
    let c2 = add_word(c1, d2);
    let b2 = rotr_word(xor_word(b1, c2), 7);
    v.update(a, a2).update(b, b2).update(c, c2).update(d, d2)
}

/// One round: the columns of `v`, then its diagonals, mixed with the message
/// words in the order `s`.
pub open spec fn round_words(v: Seq<nat>, m: Seq<nat>, s: Seq<usize>) -> Seq<nat> {
    let v = g_words(v, 0, 4, 8, 12, m[s[0] as int], m[s[1] as int]);
    let v = g_words(v, 1, 5, 9, 13, m[s[2] as int], m[s[3] as int]);
    let v = g_words(v, 2, 6, 10, 14, m[s[4] as int], m[s[5] as int]);
    let v = g_words(v, 3, 7, 11, 15, m[s[6] as int], m[s[7] as int]);
    let v = g_words(v, 0, 5, 10, 15, m[s[8] as int], m[s[9] as int]);
    let v = g_words(v, 1, 6, 11, 12, m[s[10] as int], m[s[11] as int]);
    let v = g_words(v, 2, 7, 8, 13, m[s[12] as int], m[s[13] as int]);
    g_words(v, 3, 4, 9, 14, m[s[14] as int], m[s[15] as int])
}

/// The first `k` rounds.
pub open spec fn rounds_words(v: Seq<nat>, m: Seq<nat>, k: nat) -> Seq<nat>
    decreases k,
{
    if k == 0 {
        v
    } else {
        round_words(rounds_words(v, m, (k - 1) as nat), m, SIGMA@[k - 1]@)
    }
}

/// Word `i` of the upper half of the working vector: the initialization
/// vector with the byte counter and the finalization flag mixed in.
pub open spec fn tail_word(i: int, t: u64, last: bool) -> nat {
    let c = IV@[i] as nat;
    if i == 4 {
        xor_word(c, (t as nat) % 0x1_0000_0000)
    } else if i == 5 {
        xor_word(c, (t as nat) / 0x1_0000_0000)
    } else if i == 6 && last {
        xor_word(c, 0xFFFF_FFFF)
    } else {
        c
    }
}

/// The compression function: `h` after a block `m` that ends at byte `t`.
#[verifier::opaque]
pub open spec fn compress_words(h: Seq<nat>, m: Seq<nat>, t: u64, last: bool) -> Seq<nat> {
    let start = h + Seq::new(8, |i: int| tail_word(i, t, last));
    let v = rounds_words(start, m, 10);
    Seq::new(8, |i: int| xor_word(xor_word(h[i], v[i]), v[i + 8]))
}

/// The state before any block: the initialization vector with the parameter
/// block of an unkeyed 32-byte digest.
pub open spec fn initial_words() -> Seq<nat> {
    Seq::new(
        8,
        |i: int|
            if i == 0 {
                xor_word(IV@[0] as nat, 0x0101_0020)
            } else {
                IV@[i] as nat
            },
    )
}

/// Byte `i` of a message, zero behind its end.
pub open spec fn padded_byte(m: Seq<nat>, i: int) -> nat {
    if i < m.len() {
        m[i]
    } else {
        0
    }
}

/// Block `k` of a message as 16 words.
pub open spec fn block_words(m: Seq<nat>, k: int) -> Seq<nat> {
    Seq::new(
        16,
        |w: int|
            padded_byte(m, 64 * k + 4 * w) + 0x100 * padded_byte(m, 64 * k + 4 * w + 1)
                + 0x1_0000 * padded_byte(m, 64 * k + 4 * w + 2) + 0x100_0000 * padded_byte(
                m,
                64 * k + 4 * w + 3,
            ),
    )
}

/// How many blocks a message of `n` bytes has; the empty message has one.
pub open spec fn n_blocks(n: nat) -> nat {
    if n == 0 {
        1
    } else {
        (n + 63) / 64
    }
}

/// The state after the first `k` blocks of a message.
pub open spec fn absorb_words(m: Seq<nat>, k: nat) -> Seq<nat>
    decreases k,
{
    if k == 0 {
        initial_words()
    } else {
        let last = k == n_blocks(m.len());
        let t = if last {
            m.len()
        } else {
            64 * k
        };
        compress_words(absorb_words(m, (k - 1) as nat), block_words(m, k - 1), t as u64, last)
    }
}

/// The BLAKE2s-256 digest of a message of bytes, as eight words.
pub open spec fn digest_words(m: Seq<nat>) -> Seq<nat> {
    absorb_words(m, n_blocks(m.len()))
}

/// Bit `i` of a `u32`.
proof fn lemma_u32_bit(x: u32, i: nat)
    requires
        i < 32,
    ensures
        ((x as nat) / pow2(i)) % 2 == 1 <==> (x >> (i as u32)) & 1 == 1,
{
    let s = i as u32;
    lemma_u32_shr_is_div(x, s);
    let y = x >> s;
    assert(y & 1 == y % 2) by (bit_vector);
}

/// Exclusive or of two words, bit by bit.
proof fn lemma_xor_bits(a: Seq<bool>, b: Seq<bool>)
    requires
        a.len() == 32,
        b.len() == 32,
    ensures
        bits::bits_value(Seq::new(32, |i: int| a[i] != b[i])) == xor_word(
            bits::bits_value(a),
            bits::bits_value(b),
        ),
{
    bits::lemma_word_powers();
    bits::lemma_bits_value_bound(a);
    bits::lemma_bits_value_bound(b);
    let x = bits::bits_value(a) as u32;
    let y = bits::bits_value(b) as u32;
    let z = x ^ y;
    let r = Seq::new(32, |i: int| a[i] != b[i]);
    assert forall|i: int| 0 <= i < 32 implies r[i] == bits::low_bits(z as nat, 32)[i] by {
        bits::lemma_bits_value_index(a, i);
        bits::lemma_bits_value_index(b, i);
        lemma_u32_bit(x, i as nat);
        lemma_u32_bit(y, i as nat);
        lemma_u32_bit(z, i as nat);
        let s = i as u32;
        assert(((x ^ y) >> s) & 1 == 1 <==> (((x >> s) & 1 == 1) != ((y >> s) & 1 == 1)))
            by (bit_vector);
    }
    assert(r =~= bits::low_bits(z as nat, 32));
    bits::lemma_value_of_low_bits(z as nat, 32);
}

/// Rotation of a word, bit by bit.
proof fn lemma_rotr_bits(a: Seq<bool>, n: int)
    requires
        a.len() == 32,
        0 <= n < 32,
    ensures
        bits::bits_value(a.skip(n) + a.take(n)) == rotr_word(bits::bits_value(a), n as nat),
{
    bits::lemma_bits_value_split(a, n);
    bits::lemma_bits_value_concat(a.skip(n), a.take(n));
    lemma_mul_is_commutative(
        pow2((32 - n) as nat) as int,
        (bits::bits_value(a) % pow2(n as nat)) as int,
    );
}

impl U32 {
    /// Constant wires that spell `n`.
    fn from_constant(n: u32) -> (r: U32)
        ensures
            r.0@ == circuit::constant_wires(n as nat, 32),
    {
        let wires = BigIntWires::new_constant(32, n).bits;
        let mut w: [WireId; 32] = [FALSE_WIRE; 32];
        let mut i: usize = 0;
        while i < 32
            invariant
                i <= 32,
                wires@ == circuit::constant_wires(n as nat, 32),
                forall|k: int| 0 <= k < i ==> w@[k] == wires@[k],
            decreases 32 - i,
        {
            w[i] = wires[i];
            i += 1;
        }
        assert(w@ =~= wires@);
        U32(w)
    }

    fn xor(c: &mut Circuit, a: U32, b: U32) -> (r: U32)
        requires
            old(c).wf(),
            old(c).has_row(a.0@),
            old(c).has_row(b.0@),
        ensures
            final(c).grows(*old(c), 32, 0),
            final(c).adds(*old(c), xor_shapes()),
            final(c).has_row(r.0@),
            forall|env: Seq<bool>| #[trigger]
                final(c).row(env, r.0@) == xor_word(
                    old(c).row(env, a.0@),
                    old(c).row(env, b.0@),
                ),
    {
        reveal(xor_shapes);
        let ghost c0 = *c;
        let mut w: [WireId; 32] = [FALSE_WIRE; 32];
        let mut i: usize = 0;
        while i < 32
            invariant
                i <= 32,
                c0.has_row(a.0@),
                c0.has_row(b.0@),
                c.grows(c0, i as nat, 0),
                c.adds(c0, circuit::repeated(seq![Shape::Xor], i as nat)),
                forall|k: int| 0 <= k < i ==> c.has(#[trigger] w@[k]),
                forall|env: Seq<bool>, k: int|
                    0 <= k < i ==> #[trigger] c.wire(env, w@[k]) == (c0.wire(env, a.0@[k])
                        != c0.wire(env, b.0@[k])),
            decreases 32 - i,
        {
            let ghost c1 = *c;
            assert(c0.has(a.0@[i as int]) && c0.has(b.0@[i as int]));
            assert(c1.has(a.0@[i as int]) && c1.has(b.0@[i as int]));
            w[i] = c.xor(a.0[i], b.0[i]);
            proof {
                assert forall|env: Seq<bool>, k: int| 0 <= k < i + 1 implies #[trigger] c.wire(
                    env,
                    w@[k],
                ) == (c0.wire(env, a.0@[k]) != c0.wire(env, b.0@[k])) by {
                    if k < i {
                        assert(c.wire(env, w@[k]) == c1.wire(env, w@[k]));
                    } else {
                        assert(c1.wire(env, a.0@[k]) == c0.wire(env, a.0@[k]));
                        assert(c1.wire(env, b.0@[k]) == c0.wire(env, b.0@[k]));
                    }
                }
            }
            i += 1;
        }
        proof {
            assert forall|env: Seq<bool>| #[trigger] c.row(env, w@) == xor_word(
                c0.row(env, a.0@),
                c0.row(env, b.0@),
            ) by {
                let outs = circuit::outputs_of(c0.ops@, env);
                let x = circuit::wires_value(outs, env, a.0@);
                let y = circuit::wires_value(outs, env, b.0@);
                let z = circuit::wires_value(circuit::outputs_of(c.ops@, env), env, w@);
                assert forall|k: int| 0 <= k < 32 implies z[k] == (x[k] != y[k]) by {
                    assert(z[k] == c.wire(env, w@[k]));
                }
                assert(z =~= Seq::new(32, |k: int| x[k] != y[k]));
                lemma_xor_bits(x, y);
            }
        }
        U32(w)
    }

    /// Rotation to the right: bit `i` of the result is bit `(i + n) mod 32` of the input.
    pub fn rotate_right(value: U32, n: u32) -> (r: U32)
        ensures
            r.0@ == rotated(value.0@, n),
    {
        let mut result: [WireId; 32] = [FALSE_WIRE; 32];
        let shift: usize = (n % 32) as usize;
        let mut i: usize = 0;
        while i < 32
            invariant
                i <= 32,
                shift == n % 32,
                forall|k: int| 0 <= k < i ==> result@[k] == value.0@[(k + shift) % 32],
            decreases 32 - i,
        {
            result[i] = value.0[(i + shift) % 32];
            i += 1;
        }
        assert(result@ =~= rotated(value.0@, n));
        U32(result)
    }

    /// The sum modulo `2^32`, by a chain of full adders.
    fn wrapping_add(c: &mut Circuit, a: U32, b: U32) -> (r: U32)
        requires
            old(c).wf(),
            old(c).has_row(a.0@),
            old(c).has_row(b.0@),
        ensures
            final(c).grows(*old(c), 32, 0),
            final(c).adds(*old(c), add_shapes()),
            final(c).has_row(r.0@),
            forall|env: Seq<bool>| #[trigger]
                final(c).row(env, r.0@) == add_word(
                    old(c).row(env, a.0@),
                    old(c).row(env, b.0@),
                ),
    {
        reveal(add_shapes);
        let ghost c0 = *c;
        let mut w: [WireId; 32] = [FALSE_WIRE; 32];
        let mut carry: WireId = FALSE_WIRE;
        let mut i: usize = 0;
        proof {
            assert forall|env: Seq<bool>| #[trigger] sum_so_far(c0, c0, env, a, b, w@, carry, 0) by {
                lemma_sum_start(c0, env, a, b, w@);
            }
        }
        while i < 32
            invariant
                i <= 32,
                c0.has_row(a.0@),
                c0.has_row(b.0@),
                c.grows(c0, i as nat, 0),
                c.adds(c0, circuit::repeated(seq![Shape::FullAdder], i as nat)),
                c.has(carry),
                forall|k: int| 0 <= k < i ==> c.has(#[trigger] w@[k]),
                forall|env: Seq<bool>| #[trigger]
                    sum_so_far(c0, *c, env, a, b, w@, carry, i as int),
            decreases 32 - i,
        {
            let ghost c1 = *c;
            let ghost w1 = w@;
            let ghost carry1 = carry;
            assert(c0.has(a.0@[i as int]) && c0.has(b.0@[i as int]));
            assert(c1.has(a.0@[i as int]) && c1.has(b.0@[i as int]));
            let (sum, next) = c.full_adder(a.0[i], b.0[i], carry);
            w[i] = sum;
            carry = next;
            proof {
                assert forall|env: Seq<bool>| #[trigger]
                    sum_so_far(c0, *c, env, a, b, w@, carry, i + 1) by {
                    assert(sum_so_far(c0, c1, env, a, b, w1, carry1, i as int));
                    lemma_sum_step(c0, c1, *c, env, a, b, w1, w@, carry1, carry, i as int);
                }
            }
            i += 1;
        }
        proof {
            bits::lemma_word_powers();
            assert forall|env: Seq<bool>| #[trigger] c.row(env, w@) == add_word(
                c0.row(env, a.0@),
                c0.row(env, b.0@),
            ) by {
                assert(sum_so_far(c0, *c, env, a, b, w@, carry, 32));
                assert(w@.take(32) =~= w@);
                assert(a.0@.take(32) =~= a.0@);
                assert(b.0@.take(32) =~= b.0@);
                bits::lemma_bits_value_bound(
                    circuit::wires_value(circuit::outputs_of(c.ops@, env), env, w@),
                );
            }
        }
        U32(w)
    }

    /// Little-endian byte `i` of this word.
    fn byte(&self, i: usize) -> (r: U8)
        requires
            i < 4,
        ensures
            r.0@ == self.0@.subrange(8 * i, 8 * i + 8),
    {
        let mut b: [WireId; 8] = [FALSE_WIRE; 8];
        let mut j: usize = 0;
        while j < 8
            invariant
                j <= 8,
                i < 4,
                forall|k: int| 0 <= k < j ==> b@[k] == self.0@[8 * i + k],
            decreases 8 - j,
        {
            b[j] = self.0[8 * i + j];
            j += 1;
        }
        assert(b@ =~= self.0@.subrange(8 * i as int, 8 * i + 8));
        U8(b)
    }

    fn from_bytes_le(bytes: [U8; 4]) -> (r: U32)
        ensures
            r.0@ == plan::byte_wires(bytes@),
    {
        let mut w: [WireId; 32] = [FALSE_WIRE; 32];
        let mut i: usize = 0;
        while i < 32
            invariant
                i <= 32,
                forall|k: int| 0 <= k < i ==> w@[k] == plan::byte_wires(bytes@)[k],
            decreases 32 - i,
        {
            w[i] = bytes[i / 8].0[i % 8];
            i += 1;
        }
        assert(w@ =~= plan::byte_wires(bytes@));
        U32(w)
    }
}

/// The low `i` sum wires and the carry spell the sum of the low `i` bits of the operands.
spec fn sum_so_far(
    c0: Circuit,
    c: Circuit,
    env: Seq<bool>,
    a: U32,
    b: U32,
    w: Seq<WireId>,
    carry: WireId,
    i: int,
) -> bool {
    c.row(env, w.take(i)) + bits::bit_value(c.wire(env, carry)) * pow2(i as nat) == c0.row(
        env,
        a.0@.take(i),
    ) + c0.row(env, b.0@.take(i))
}

proof fn lemma_sum_start(c: Circuit, env: Seq<bool>, a: U32, b: U32, w: Seq<WireId>)
    requires
        w.len() == 32,
    ensures
        sum_so_far(c, c, env, a, b, w, FALSE_WIRE, 0),
{
    let outs = circuit::outputs_of(c.ops@, env);
    assert(circuit::wires_value(outs, env, w.take(0)) =~= Seq::<bool>::empty());
    assert(circuit::wires_value(outs, env, a.0@.take(0)) =~= Seq::<bool>::empty());
    assert(circuit::wires_value(outs, env, b.0@.take(0)) =~= Seq::<bool>::empty());
}

/// The number a row carries grows by its next wire's weight.
proof fn lemma_row_next(c: Circuit, env: Seq<bool>, ws: Seq<WireId>, i: int)
    requires
        0 <= i < ws.len(),
    ensures
        c.row(env, ws.take(i + 1)) == c.row(env, ws.take(i)) + bits::bit_value(c.wire(env, ws[i]))
            * pow2(i as nat),
{
    let outs = circuit::outputs_of(c.ops@, env);
    let s = circuit::wires_value(outs, env, ws.take(i + 1));
    assert(s.drop_last() =~= circuit::wires_value(outs, env, ws.take(i)));
}

proof fn lemma_sum_step(
    c0: Circuit,
    c1: Circuit,
    c: Circuit,
    env: Seq<bool>,
    a: U32,
    b: U32,
    w1: Seq<WireId>,
    w: Seq<WireId>,
    carry1: WireId,
    carry: WireId,
    i: int,
)
    requires
        0 <= i < 32,
        c0.has_row(a.0@),
        c0.has_row(b.0@),
        c1.extends(c0),
        c.extends(c1),
        w1.len() == 32,
        w.len() == 32,
        forall|k: int| 0 <= k < i ==> w[k] == w1[k],
        forall|k: int| 0 <= k < i ==> c1.has(#[trigger] w1[k]),
        sum_so_far(c0, c1, env, a, b, w1, carry1, i),
        bits::bit_value(c.wire(env, w[i])) + 2 * bits::bit_value(c.wire(env, carry))
            == bits::bit_value(c1.wire(env, a.0@[i])) + bits::bit_value(c1.wire(env, b.0@[i]))
            + bits::bit_value(c1.wire(env, carry1)),
    ensures
        sum_so_far(c0, c, env, a, b, w, carry, i + 1),
{
    assert(c0.has(a.0@[i]) && c0.has(b.0@[i]));
    assert(c1.wire(env, a.0@[i]) == c0.wire(env, a.0@[i]));
    assert(c1.wire(env, b.0@[i]) == c0.wire(env, b.0@[i]));
    assert(w.take(i) =~= w1.take(i));
    assert(c1.has_row(w1.take(i))) by {
        assert forall|k: int| 0 <= k < i implies c1.has(#[trigger] w1.take(i)[k]) by {
            assert(c1.has(w1[k]));
        }
    }
    assert(c.row(env, w.take(i)) == c1.row(env, w1.take(i)));
    lemma_row_next(c, env, w, i);
    lemma_row_next(c0, env, a.0@, i);
    lemma_row_next(c0, env, b.0@, i);
    lemma_pow2_unfold((i + 1) as nat);
    let p = pow2(i as nat) as int;
    let (s, k) = (bits::bit_value(c.wire(env, w[i])) as int, bits::bit_value(c.wire(env, carry)) as int);
    let (x, y) = (
        bits::bit_value(c0.wire(env, a.0@[i])) as int,
        bits::bit_value(c0.wire(env, b.0@[i])) as int,
    );
    let k1 = bits::bit_value(c1.wire(env, carry1)) as int;
    assert(s * p + k * (2 * p) == x * p + y * p + k1 * p) by (nonlinear_arith)
        requires
            s + 2 * k == x + y + k1,
    ;
}

/// The numbers that a row of words carries.
pub open spec fn words(c: Circuit, env: Seq<bool>, v: Seq<U32>) -> Seq<nat> {
    Seq::new(v.len(), |i: int| c.row(env, v[i].0@))
}

/// Whether every word is a row of wires of the circuit.
pub open spec fn has_words(c: Circuit, v: Seq<U32>) -> bool {
    forall|i: int| 0 <= i < v.len() ==> c.has_row(#[trigger] v[i].0@)
}

/// Words carry on what they carried when the circuit grows.
proof fn lemma_words_kept(c0: Circuit, c1: Circuit, v: Seq<U32>)
    requires
        c1.extends(c0),
        has_words(c0, v),
    ensures
        has_words(c1, v),
        forall|env: Seq<bool>| #[trigger] words(c1, env, v) == words(c0, env, v),
{
    assert forall|env: Seq<bool>| #[trigger] words(c1, env, v) == words(c0, env, v) by {
        assert forall|i: int| 0 <= i < v.len() implies words(c1, env, v)[i] == words(
            c0,
            env,
            v,
        )[i] by {
            assert(c0.has_row(v[i].0@));
        }
        assert(words(c1, env, v) =~= words(c0, env, v));
    }
}

/// Exclusive or, then rotation.
fn xor_rotate(c: &mut Circuit, a: U32, b: U32, n: u32) -> (r: U32)
    requires
        old(c).wf(),
        old(c).has_row(a.0@),
        old(c).has_row(b.0@),
        n < 32,
    ensures
        final(c).grows(*old(c), 32, 0),
        final(c).adds(*old(c), xor_shapes()),
        final(c).has_row(r.0@),
        forall|env: Seq<bool>| #[trigger]
            final(c).row(env, r.0@) == rotr_word(
                xor_word(old(c).row(env, a.0@), old(c).row(env, b.0@)),
                n as nat,
            ),
{
    let ghost c0 = *c;
    let x = U32::xor(c, a, b);
    let r = U32::rotate_right(x, n);
    proof {
        assert forall|i: int| 0 <= i < 32 implies c.has(#[trigger] r.0@[i]) by {
            if i < 32 - n {
                assert(r.0@[i] == x.0@[i + n]);
            } else {
                assert(r.0@[i] == x.0@[i + n - 32]);
            }
        }
        assert forall|env: Seq<bool>| #[trigger] c.row(env, r.0@) == rotr_word(
            xor_word(c0.row(env, a.0@), c0.row(env, b.0@)),
            n as nat,
        ) by {
            let outs = circuit::outputs_of(c.ops@, env);
            let s = circuit::wires_value(outs, env, x.0@);
            assert(circuit::wires_value(outs, env, r.0@) =~= s.skip(n as int) + s.take(n as int));
            lemma_rotr_bits(s, n as int);
            assert(c.row(env, x.0@) == xor_word(c0.row(env, a.0@), c0.row(env, b.0@)));
        }
    }
    r
}

/// The operations of a sum of three words.
#[verifier::opaque]
pub open spec fn add3_shapes() -> Seq<Shape> {
    add_shapes() + add_shapes()
}

/// The sum of three words.
fn add3(c: &mut Circuit, a: U32, b: U32, x: U32) -> (r: U32)
    requires
        old(c).wf(),
        old(c).has_row(a.0@),
        old(c).has_row(b.0@),
        old(c).has_row(x.0@),
    ensures
        final(c).grows(*old(c), 64, 0),
        final(c).adds(*old(c), add3_shapes()),
        final(c).has_row(r.0@),
        forall|env: Seq<bool>| #[trigger]
            final(c).row(env, r.0@) == add_word(
                add_word(old(c).row(env, a.0@), old(c).row(env, b.0@)),
                old(c).row(env, x.0@),
            ),
{
    reveal(add3_shapes);
    let ghost c0 = *c;
    let s = U32::wrapping_add(c, a, b);
    let ghost c1 = *c;
    let r = U32::wrapping_add(c, s, x);
    proof {
        assert forall|env: Seq<bool>| #[trigger] c.row(env, r.0@) == add_word(
            add_word(c0.row(env, a.0@), c0.row(env, b.0@)),
            c0.row(env, x.0@),
        ) by {
            assert(c1.row(env, s.0@) == add_word(c0.row(env, a.0@), c0.row(env, b.0@)));
            assert(c1.row(env, x.0@) == c0.row(env, x.0@));
        }
    }
    r
}

/// The operations of the mixing of four words.
#[verifier::opaque]
pub open spec fn g_shapes() -> Seq<Shape> {
    add3_shapes() + xor_shapes() + add_shapes() + xor_shapes() + add3_shapes() + xor_shapes()
        + add_shapes() + xor_shapes()
}

/// Mixes four words of the working vector with two message words.
#[verifier::rlimit(30)]
fn g(
    circuit: &mut Circuit,
    v: &mut [U32; 16],
    a: usize,
    b: usize,
    c: usize,
    d: usize,
    x: U32,
    y: U32,
)
    requires
        old(circuit).wf(),
        has_words(*old(circuit), old(v)@),
        old(circuit).has_row(x.0@),
        old(circuit).has_row(y.0@),
        a < 16,
        b < 16,
        c < 16,
        d < 16,
        a != b && a != c && a != d && b != c && b != d && c != d,
    ensures
        final(circuit).grows(*old(circuit), 320, 0),
        final(circuit).adds(*old(circuit), g_shapes()),
        has_words(*final(circuit), final(v)@),
        forall|env: Seq<bool>| #[trigger]
            words(*final(circuit), env, final(v)@) == g_words(
                words(*old(circuit), env, old(v)@),
                a as int,
                b as int,
                c as int,
                d as int,
                old(circuit).row(env, x.0@),
                old(circuit).row(env, y.0@),
            ),
{
    reveal(g_shapes);
    let ghost c0 = *circuit;
    let ghost v0 = v@;
    let (va, vb, vc, vd) = (v[a], v[b], v[c], v[d]);
    assert(c0.has_row(v0[a as int].0@) && c0.has_row(v0[b as int].0@) && c0.has_row(
        v0[c as int].0@,
    ) && c0.has_row(v0[d as int].0@));
    let a1 = add3(circuit, va, vb, x);
    let ghost c1 = *circuit;
    let d1 = xor_rotate(circuit, vd, a1, 16);
    let ghost c2 = *circuit;
    let e1 = U32::wrapping_add(circuit, vc, d1);
    let ghost c3 = *circuit;
    let b1 = xor_rotate(circuit, vb, e1, 12);
    let ghost c4 = *circuit;
    let a2 = add3(circuit, a1, b1, y);
    let ghost c5 = *circuit;
    let d2 = xor_rotate(circuit, d1, a2, 8);
    let ghost c6 = *circuit;
    let e2 = U32::wrapping_add(circuit, e1, d2);
    let ghost c7 = *circuit;
    let b2 = xor_rotate(circuit, b1, e2, 7);
    proof {
        lemma_words_kept(c0, *circuit, v0);
    }
    v[a] = a2;
    v[b] = b2;
    v[c] = e2;
    v[d] = d2;
    proof {
        let v1 = v0.update(a as int, a2).update(b as int, b2).update(c as int, e2).update(
            d as int,
            d2,
        );
        assert(v@ =~= v1);
        assert forall|env: Seq<bool>| #[trigger] words(*circuit, env, v@) == g_words(
            words(c0, env, v0),
            a as int,
            b as int,
            c as int,
            d as int,
            c0.row(env, x.0@),
            c0.row(env, y.0@),
        ) by {
            reveal(g_words);
            let w = words(c0, env, v0);
            let xv = c0.row(env, x.0@);
            let yv = c0.row(env, y.0@);
            let a1v = add_word(add_word(w[a as int], w[b as int]), xv);
            assert(c1.row(env, a1.0@) == a1v);
            let d1v = rotr_word(xor_word(w[d as int], a1v), 16);
            assert(c1.row(env, vd.0@) == w[d as int]);
            assert(c2.row(env, d1.0@) == d1v);
            let e1v = add_word(w[c as int], d1v);
            assert(c2.row(env, vc.0@) == w[c as int]);
            assert(c3.row(env, e1.0@) == e1v);
            let b1v = rotr_word(xor_word(w[b as int], e1v), 12);
            assert(c3.row(env, vb.0@) == w[b as int]);
            assert(c4.row(env, b1.0@) == b1v);
            let a2v = add_word(add_word(a1v, b1v), yv);
            assert(c4.row(env, a1.0@) == a1v);
            assert(c4.row(env, y.0@) == yv);
            assert(c5.row(env, a2.0@) == a2v);
            let d2v = rotr_word(xor_word(d1v, a2v), 8);
            assert(c5.row(env, d1.0@) == d1v);
            assert(c6.row(env, d2.0@) == d2v);
            let e2v = add_word(e1v, d2v);
            assert(c6.row(env, e1.0@) == e1v);
            assert(c7.row(env, e2.0@) == e2v);
            let b2v = rotr_word(xor_word(b1v, e2v), 7);
            assert(c7.row(env, b1.0@) == b1v);
            assert(circuit.row(env, b2.0@) == b2v);
            assert(circuit.row(env, a2.0@) == a2v);
            assert(circuit.row(env, d2.0@) == d2v);
            assert(circuit.row(env, e2.0@) == e2v);
            assert forall|i: int| 0 <= i < 16 implies words(*circuit, env, v@)[i] == w.update(
                a as int,
                a2v,
            ).update(b as int, b2v).update(c as int, e2v).update(d as int, d2v)[i] by {
                if i != a && i != b && i != c && i != d {
                    assert(words(*circuit, env, v0)[i] == w[i]);
                }
            }
            assert(words(*circuit, env, v@) =~= w.update(a as int, a2v).update(
                b as int,
                b2v,
            ).update(c as int, e2v).update(d as int, d2v));
        }
    }
}

/// The operations of a round.
#[verifier::opaque]
pub open spec fn round_shapes() -> Seq<Shape> {
    circuit::repeated(g_shapes(), 8)
}

/// One round over the working vector.
#[verifier::rlimit(30)]
fn round(circuit: &mut Circuit, v: &mut [U32; 16], m: &[U32; 16], s: &[usize; 16])
    requires
        old(circuit).wf(),
        has_words(*old(circuit), old(v)@),
        has_words(*old(circuit), m@),
        forall|i: int| 0 <= i < 16 ==> #[trigger] s@[i] < 16,
    ensures
        final(circuit).grows(*old(circuit), 2560, 0),
        final(circuit).adds(*old(circuit), round_shapes()),
        has_words(*final(circuit), final(v)@),
        has_words(*final(circuit), m@),
        forall|env: Seq<bool>| #[trigger]
            words(*final(circuit), env, final(v)@) == round_words(
                words(*old(circuit), env, old(v)@),
                words(*old(circuit), env, m@),
                s@,
            ),
{
    reveal(round_shapes);
    reveal_with_fuel(circuit::repeated, 9);
    let ghost (c0, v0) = (*circuit, v@);
    let (x, y) = (m[s[0]], m[s[1]]);
    let ghost (x0, y0) = (x, y);
    g(circuit, v, 0, 4, 8, 12, x, y);
    let ghost (c1, v1) = (*circuit, v@);
    proof {
        lemma_words_kept(c0, c1, m@);
    }
    let (x, y) = (m[s[2]], m[s[3]]);
    let ghost (x1, y1) = (x, y);
    g(circuit, v, 1, 5, 9, 13, x, y);
    let ghost (c2, v2) = (*circuit, v@);
    proof {
        lemma_words_kept(c1, c2, m@);
    }
    let (x, y) = (m[s[4]], m[s[5]]);
    let ghost (x2, y2) = (x, y);
    g(circuit, v, 2, 6, 10, 14, x, y);
    let ghost (c3, v3) = (*circuit, v@);
    proof {
        lemma_words_kept(c2, c3, m@);
    }
    let (x, y) = (m[s[6]], m[s[7]]);
    let ghost (x3, y3) = (x, y);
    g(circuit, v, 3, 7, 11, 15, x, y);
    let ghost (c4, v4) = (*circuit, v@);
    proof {
        lemma_words_kept(c3, c4, m@);
    }
    let (x, y) = (m[s[8]], m[s[9]]);
    let ghost (x4, y4) = (x, y);
    g(circuit, v, 0, 5, 10, 15, x, y);
    let ghost (c5, v5) = (*circuit, v@);
    proof {
        lemma_words_kept(c4, c5, m@);
    }
    let (x, y) = (m[s[10]], m[s[11]]);
    let ghost (x5, y5) = (x, y);
    g(circuit, v, 1, 6, 11, 12, x, y);
    let ghost (c6, v6) = (*circuit, v@);
    proof {
        lemma_words_kept(c5, c6, m@);
    }
    let (x, y) = (m[s[12]], m[s[13]]);
    let ghost (x6, y6) = (x, y);
    g(circuit, v, 2, 7, 8, 13, x, y);
    let ghost (c7, v7) = (*circuit, v@);
    proof {
        lemma_words_kept(c6, c7, m@);
    }
    let (x, y) = (m[s[14]], m[s[15]]);
    let ghost (x7, y7) = (x, y);
    g(circuit, v, 3, 4, 9, 14, x, y);
    let ghost (c8, v8) = (*circuit, v@);
    proof {
        lemma_words_kept(c7, c8, m@);
    }
    proof {
        assert forall|env: Seq<bool>| #[trigger] words(*circuit, env, v@) == round_words(
            words(c0, env, v0),
            words(c0, env, m@),
            s@,
        ) by {
            let mv = words(c0, env, m@);
            assert(c0.row(env, x0.0@) == words(c0, env, m@)[s@[0] as int]);
            assert(c0.row(env, y0.0@) == words(c0, env, m@)[s@[1] as int]);
            assert(words(c1, env, v1) == g_words(
                words(c0, env, v0),
                0,
                4,
                8,
                12,
                mv[s@[0] as int],
                mv[s@[1] as int],
            ));
            assert(words(c1, env, m@) == mv);
            assert(c1.row(env, x1.0@) == words(c1, env, m@)[s@[2] as int]);
            assert(c1.row(env, y1.0@) == words(c1, env, m@)[s@[3] as int]);
            assert(words(c2, env, v2) == g_words(
                words(c1, env, v1),
                1,
                5,
                9,
                13,
                mv[s@[2] as int],
                mv[s@[3] as int],
            ));
            assert(words(c2, env, m@) == mv);
            assert(c2.row(env, x2.0@) == words(c2, env, m@)[s@[4] as int]);
            assert(c2.row(env, y2.0@) == words(c2, env, m@)[s@[5] as int]);
            assert(words(c3, env, v3) == g_words(
                words(c2, env, v2),
                2,
                6,
                10,
                14,
                mv[s@[4] as int],
                mv[s@[5] as int],
            ));
            assert(words(c3, env, m@) == mv);
            assert(c3.row(env, x3.0@) == words(c3, env, m@)[s@[6] as int]);
            assert(c3.row(env, y3.0@) == words(c3, env, m@)[s@[7] as int]);
            assert(words(c4, env, v4) == g_words(
                words(c3, env, v3),
                3,
                7,
                11,
                15,
                mv[s@[6] as int],
                mv[s@[7] as int],
            ));
            assert(words(c4, env, m@) == mv);
            assert(c4.row(env, x4.0@) == words(c4, env, m@)[s@[8] as int]);
            assert(c4.row(env, y4.0@) == words(c4, env, m@)[s@[9] as int]);
            assert(words(c5, env, v5) == g_words(
                words(c4, env, v4),
                0,
                5,
                10,
                15,
                mv[s@[8] as int],
                mv[s@[9] as int],
            ));
            assert(words(c5, env, m@) == mv);
            assert(c5.row(env, x5.0@) == words(c5, env, m@)[s@[10] as int]);
            assert(c5.row(env, y5.0@) == words(c5, env, m@)[s@[11] as int]);
            assert(words(c6, env, v6) == g_words(
                words(c5, env, v5),
                1,
                6,
                11,
                12,
                mv[s@[10] as int],
                mv[s@[11] as int],
            ));
            assert(words(c6, env, m@) == mv);
            assert(c6.row(env, x6.0@) == words(c6, env, m@)[s@[12] as int]);
            assert(c6.row(env, y6.0@) == words(c6, env, m@)[s@[13] as int]);
            assert(words(c7, env, v7) == g_words(
                words(c6, env, v6),
                2,
                7,
                8,
                13,
                mv[s@[12] as int],
                mv[s@[13] as int],
            ));
            assert(words(c7, env, m@) == mv);
            assert(c7.row(env, x7.0@) == words(c7, env, m@)[s@[14] as int]);
            assert(c7.row(env, y7.0@) == words(c7, env, m@)[s@[15] as int]);
            assert(words(c8, env, v8) == g_words(
                words(c7, env, v7),
                3,
                4,
                9,
                14,
                mv[s@[14] as int],
                mv[s@[15] as int],
            ));
            assert(words(c8, env, m@) == mv);
        }
    }
}

/// The working vector before the first round.
fn working_vector(h: &[U32; 8], t: u64, last: bool) -> (v: [U32; 16])
    ensures
        forall|k: int| 0 <= k < 8 ==> #[trigger] v@[k] == h@[k],
        forall|k: int|
            8 <= k < 16 ==> (#[trigger] v@[k]).0@ == circuit::constant_wires(
                tail_word(k - 8, t, last),
                32,
            ),
{
    let mut v: [U32; 16] = [h[0]; 16];
    let mut i: usize = 0;
    while i < 16
        invariant
            i <= 16,
            forall|k: int| 0 <= k < 8 && k < i ==> #[trigger] v@[k] == h@[k],
            forall|k: int|
                8 <= k < i ==> (#[trigger] v@[k]).0@ == circuit::constant_wires(
                    tail_word(k - 8, t, last),
                    32,
                ),
        decreases 16 - i,
    {
        if i < 8 {
            v[i] = h[i];
        } else {
            let mut w: u32 = IV[i - 8];
            if i == 12 {
                w = w ^ ((t % 0x1_0000_0000) as u32);
            }
            if i == 13 {
                w = w ^ ((t / 0x1_0000_0000) as u32);
            }
            if i == 14 && last {
                w = w ^ 0xFFFF_FFFF;
            }
            assert(w == tail_word(i - 8, t, last));
            v[i] = U32::from_constant(w);
        }
        i += 1;
    }
    v
}

/// The operations of a compression.
#[verifier::opaque]
pub open spec fn compress_shapes() -> Seq<Shape> {
    circuit::repeated(round_shapes(), 10) + circuit::repeated(xor_shapes() + xor_shapes(), 8)
}

/// One compression: `h` after the block `m` that ends at byte `t`.
#[verifier::rlimit(30)]
fn compress(circuit: &mut Circuit, h: [U32; 8], m: [U32; 16], t: u64, last: bool) -> (r: [U32; 8])
    requires
        old(circuit).wf(),
        has_words(*old(circuit), h@),
        has_words(*old(circuit), m@),
    ensures
        final(circuit).grows(*old(circuit), 26112, 0),
        final(circuit).adds(*old(circuit), compress_shapes()),
        has_words(*final(circuit), r@),
        forall|env: Seq<bool>| #[trigger]
            words(*final(circuit), env, r@) == compress_words(
                words(*old(circuit), env, h@),
                words(*old(circuit), env, m@),
                t,
                last,
            ),
{
    reveal(compress_shapes);
    let ghost c0 = *circuit;
    let mut v = working_vector(&h, t, last);
    let ghost start = v@;
    proof {
        lemma_working_vector(c0, h@, start, t, last);
    }
    let mut k: usize = 0;
    while k < 10
        invariant
            k <= 10,
            circuit.grows(c0, 2560 * k as nat, 0),
            circuit.adds(c0, circuit::repeated(round_shapes(), k as nat)),
            has_words(*circuit, v@),
            has_words(c0, m@),
            has_words(*circuit, m@),
            forall|env: Seq<bool>| #[trigger]
                words(*circuit, env, v@) == rounds_words(
                    words(c0, env, start),
                    words(c0, env, m@),
                    k as nat,
                ),
        decreases 10 - k,
    {
        let s = SIGMA[k];
        let ghost (c1, v1) = (*circuit, v@);
        assert(forall|i: int| 0 <= i < 16 ==> #[trigger] s@[i] < 16);
        proof {
            lemma_words_kept(c0, c1, m@);
        }
        round(circuit, &mut v, &m, &s);
        proof {
            assert forall|env: Seq<bool>| #[trigger] words(*circuit, env, v@) == rounds_words(
                words(c0, env, start),
                words(c0, env, m@),
                (k + 1) as nat,
            ) by {
                assert(words(c1, env, v1) == rounds_words(
                    words(c0, env, start),
                    words(c0, env, m@),
                    k as nat,
                ));
                assert(words(c1, env, m@) == words(c0, env, m@));
            }
        }
        k += 1;
    }
    let ghost c1 = *circuit;
    let mut r: [U32; 8] = h;
    proof {
        lemma_words_kept(c0, c1, h@);
    }
    let mut i: usize = 0;
    while i < 8
        invariant
            i <= 8,
            circuit.grows(c0, 25600 + 64 * i as nat, 0),
            circuit.adds(c1, circuit::repeated(xor_shapes() + xor_shapes(), i as nat)),
            c1.adds(c0, circuit::repeated(round_shapes(), 10)),
            circuit.extends(c1),
            c1.extends(c0),
            has_words(c1, v@),
            has_words(c1, h@),
            forall|j: int| 0 <= j < i ==> circuit.has_row(#[trigger] r@[j].0@),
            forall|env: Seq<bool>, j: int|
                0 <= j < i ==> #[trigger] circuit.row(env, r@[j].0@) == xor_word(
                    xor_word(c1.row(env, h@[j].0@), c1.row(env, v@[j].0@)),
                    c1.row(env, v@[j + 8].0@),
                ),
        decreases 8 - i,
    {
        let ghost (c2, r2) = (*circuit, r@);
        assert(c1.has_row(h@[i as int].0@) && c1.has_row(v@[i as int].0@) && c1.has_row(
            v@[i + 8].0@,
        ));
        let x = U32::xor(circuit, h[i], v[i]);
        let ghost c3 = *circuit;
        let y = U32::xor(circuit, x, v[i + 8]);
        r[i] = y;
        proof {
            assert forall|j: int| 0 <= j < i + 1 implies circuit.has_row(#[trigger] r@[j].0@) by {
                if j < i {
                    assert(c2.has_row(r2[j].0@));
                }
            }
            assert forall|env: Seq<bool>, j: int| 0 <= j < i + 1 implies #[trigger] circuit.row(
                env,
                r@[j].0@,
            ) == xor_word(
                xor_word(c1.row(env, h@[j].0@), c1.row(env, v@[j].0@)),
                c1.row(env, v@[j + 8].0@),
            ) by {
                if j < i {
                    assert(r@[j] == r2[j]);
                    assert(c2.has_row(r2[j].0@));
                    assert(circuit.row(env, r2[j].0@) == c2.row(env, r2[j].0@));
                } else {
                    assert(c2.row(env, h@[j].0@) == c1.row(env, h@[j].0@));
                    assert(c2.row(env, v@[j].0@) == c1.row(env, v@[j].0@));
                    assert(c3.row(env, v@[j + 8].0@) == c1.row(env, v@[j + 8].0@));
                    assert(c3.row(env, x.0@) == xor_word(
                        c1.row(env, h@[j].0@),
                        c1.row(env, v@[j].0@),
                    ));
                }
            }
        }
        i += 1;
    }
    proof {
        assert forall|env: Seq<bool>| #[trigger] words(*circuit, env, r@) == compress_words(
            words(c0, env, h@),
            words(c0, env, m@),
            t,
            last,
        ) by {
            reveal(compress_words);
            let hv = words(c0, env, h@);
            let vv = words(c1, env, v@);
            assert(words(c0, env, start) == hv + Seq::new(8, |i: int| tail_word(i, t, last)));
            assert(words(c1, env, h@) == hv);
            assert forall|j: int| 0 <= j < 8 implies words(*circuit, env, r@)[j] == xor_word(
                xor_word(hv[j], vv[j]),
                vv[j + 8],
            ) by {
                assert(words(c1, env, h@)[j] == hv[j]);
            }
            assert(words(*circuit, env, r@) =~= compress_words(
                hv,
                words(c0, env, m@),
                t,
                last,
            ));
        }
    }
    r
}

proof fn lemma_working_vector(c: Circuit, h: Seq<U32>, v: Seq<U32>, t: u64, last: bool)
    requires
        h.len() == 8,
        v.len() == 16,
        has_words(c, h),
        forall|k: int| 0 <= k < 8 ==> #[trigger] v[k] == h[k],
        forall|k: int|
            8 <= k < 16 ==> (#[trigger] v[k]).0@ == circuit::constant_wires(
                tail_word(k - 8, t, last),
                32,
            ),
    ensures
        has_words(c, v),
        forall|env: Seq<bool>| #[trigger]
            words(c, env, v) == words(c, env, h) + Seq::new(8, |i: int| tail_word(i, t, last)),
{
    bits::lemma_word_powers();
    assert forall|k: int| 8 <= k < 16 implies c.has_row(#[trigger] v[k].0@) && forall|
        env: Seq<bool>,
    | #[trigger]
        c.row(env, v[k].0@) == tail_word(k - 8, t, last) by {
        c.lemma_constant_row(tail_word(k - 8, t, last), 32);
        assert(tail_word(k - 8, t, last) < 0x1_0000_0000);
    }
    assert forall|env: Seq<bool>| #[trigger] words(c, env, v) == words(c, env, h) + Seq::new(
        8,
        |i: int| tail_word(i, t, last),
    ) by {
        assert(words(c, env, v) =~= words(c, env, h) + Seq::new(
            8,
            |i: int| tail_word(i, t, last),
        ));
    }
}

/// The numbers that the bytes of a message carry.
pub open spec fn byte_values(c: Circuit, env: Seq<bool>, m: Seq<U8>) -> Seq<nat> {
    Seq::new(m.len(), |i: int| c.row(env, m[i].0@))
}

/// Whether every byte is a row of wires of the circuit.
pub open spec fn has_bytes(c: Circuit, m: Seq<U8>) -> bool {
    forall|i: int| 0 <= i < m.len() ==> c.has_row(#[trigger] m[i].0@)
}

/// Four bytes carry the word that they spell.
proof fn lemma_bytes_word(c: Circuit, b: Seq<U8>)
    requires
        b.len() == 4,
        has_bytes(c, b),
    ensures
        c.has_row(plan::byte_wires(b)),
        forall|env: Seq<bool>| #[trigger]
            c.row(env, plan::byte_wires(b)) == c.row(env, b[0].0@) + 0x100 * c.row(env, b[1].0@)
                + 0x1_0000 * c.row(env, b[2].0@) + 0x100_0000 * c.row(env, b[3].0@),
{
    let ws = plan::byte_wires(b);
    assert forall|i: int| 0 <= i < 32 implies c.has(#[trigger] ws[i]) by {
        assert(c.has_row(b[i / 8].0@));
        assert(ws[i] == b[i / 8].0@[i % 8]);
    }
    bits::lemma_word_powers();
    lemma2_to64();
    assert forall|env: Seq<bool>| #[trigger] c.row(env, ws) == c.row(env, b[0].0@) + 0x100 * c.row(
        env,
        b[1].0@,
    ) + 0x1_0000 * c.row(env, b[2].0@) + 0x100_0000 * c.row(env, b[3].0@) by {
        let outs = circuit::outputs_of(c.ops@, env);
        let v = |k: int| circuit::wires_value(outs, env, b[k].0@);
        let all = circuit::wires_value(outs, env, ws);
        assert forall|i: int| 0 <= i < 32 implies all[i] == (v(0) + v(1) + v(2) + v(3))[i] by {
            assert(ws[i] == b[i / 8].0@[i % 8]);
        }
        assert(all =~= v(0) + v(1) + v(2) + v(3));
        bits::lemma_bits_value_concat(v(0), v(1));
        bits::lemma_bits_value_concat(v(0) + v(1), v(2));
        bits::lemma_bits_value_concat(v(0) + v(1) + v(2), v(3));
    }
}

/// Byte `i` of a message, zero behind its end.
fn message_byte(input: &InputMessageWires, i: usize) -> (r: U8)
    ensures
        r.0@ == padded_wires(input.byte_arr@, i as int),
{
    if i < input.byte_arr.len() {
        input.byte_arr[i]
    } else {
        let zero = U8([FALSE_WIRE; 8]);
        assert(zero.0@ =~= circuit::zero_wires(8));
        zero
    }
}

/// The wires of byte `i` of a message, constant zero behind its end.
spec fn padded_wires(m: Seq<U8>, i: int) -> Seq<WireId> {
    if i < m.len() {
        m[i].0@
    } else {
        circuit::zero_wires(8)
    }
}

proof fn lemma_padded_wires(c: Circuit, m: Seq<U8>, i: int)
    requires
        0 <= i,
        has_bytes(c, m),
    ensures
        c.has_row(padded_wires(m, i)),
        forall|env: Seq<bool>| #[trigger]
            c.row(env, padded_wires(m, i)) == padded_byte(byte_values(c, env, m), i),
{
    assert forall|env: Seq<bool>| #[trigger] c.row(env, padded_wires(m, i)) == padded_byte(
        byte_values(c, env, m),
        i,
    ) by {
        if i >= m.len() {
            bits::lemma_bits_value_zeros(
                circuit::wires_value(
                    circuit::outputs_of(c.ops@, env),
                    env,
                    circuit::zero_wires(8),
                ),
            );
        }
    }
    if i < m.len() {
        assert(c.has_row(m[i].0@));
    }
}

/// Block `k` of a message as words.
fn message_block(c: &Circuit, input: &InputMessageWires, k: usize) -> (r: [U32; 16])
    requires
        has_bytes(*c, input.byte_arr@),
        64 * k + 64 <= usize::MAX,
    ensures
        has_words(*c, r@),
        forall|env: Seq<bool>| #[trigger]
            words(*c, env, r@) == block_words(
                byte_values(*c, env, input.byte_arr@),
                k as int,
            ),
{
    let mut r: [U32; 16] = [U32([FALSE_WIRE; 32]); 16];
    let ghost m = input.byte_arr@;
    let mut w: usize = 0;
    while w < 16
        invariant
            w <= 16,
            m == input.byte_arr@,
            has_bytes(*c, m),
            64 * k + 64 <= usize::MAX,
            forall|j: int| 0 <= j < w ==> c.has_row(#[trigger] r@[j].0@),
            forall|env: Seq<bool>, j: int|
                0 <= j < w ==> #[trigger] c.row(env, r@[j].0@) == block_words(
                    byte_values(*c, env, m),
                    k as int,
                )[j],
        decreases 16 - w,
    {
        let i: usize = 64 * k + 4 * w;
        let bytes: [U8; 4] = [
            message_byte(input, i),
            message_byte(input, i + 1),
            message_byte(input, i + 2),
            message_byte(input, i + 3),
        ];
        let x = U32::from_bytes_le(bytes);
        r[w] = x;
        proof {
            lemma_padded_wires(*c, m, i as int);
            lemma_padded_wires(*c, m, i + 1);
            lemma_padded_wires(*c, m, i + 2);
            lemma_padded_wires(*c, m, i + 3);
            assert(has_bytes(*c, bytes@));
            lemma_bytes_word(*c, bytes@);
            assert forall|env: Seq<bool>, j: int| 0 <= j < w + 1 implies #[trigger] c.row(
                env,
                r@[j].0@,
            ) == block_words(byte_values(*c, env, m), k as int)[j] by {
                if j == w {
                    assert(c.row(env, padded_wires(m, i as int)) == padded_byte(
                        byte_values(*c, env, m),
                        i as int,
                    ));
                    assert(c.row(env, padded_wires(m, i + 1)) == padded_byte(
                        byte_values(*c, env, m),
                        i + 1,
                    ));
                    assert(c.row(env, padded_wires(m, i + 2)) == padded_byte(
                        byte_values(*c, env, m),
                        i + 2,
                    ));
                    assert(c.row(env, padded_wires(m, i + 3)) == padded_byte(
                        byte_values(*c, env, m),
                        i + 3,
                    ));
                }
            }
        }
        w += 1;
    }
    proof {
        assert forall|env: Seq<bool>| #[trigger] words(*c, env, r@) == block_words(
            byte_values(*c, env, m),
            k as int,
        ) by {
            assert(words(*c, env, r@) =~= block_words(byte_values(*c, env, m), k as int));
        }
    }
    r
}

proof fn lemma_bytes_kept(c0: Circuit, c1: Circuit, m: Seq<U8>)
    requires
        c1.extends(c0),
        has_bytes(c0, m),
    ensures
        has_bytes(c1, m),
        forall|env: Seq<bool>| #[trigger] byte_values(c1, env, m) == byte_values(c0, env, m),
{
    assert forall|env: Seq<bool>| #[trigger] byte_values(c1, env, m) == byte_values(
        c0,
        env,
        m,
    ) by {
        assert forall|i: int| 0 <= i < m.len() implies byte_values(c1, env, m)[i] == byte_values(
            c0,
            env,
            m,
        )[i] by {
            assert(c0.has_row(m[i].0@));
        }
        assert(byte_values(c1, env, m) =~= byte_values(c0, env, m));
    }
}

/// A compression is made of exclusive ors and full adders alone, 10752 of the
/// first and 15360 of the second.
pub proof fn law_compression_operations(s: Shape)
    ensures
        circuit::count_of(compress_shapes(), Shape::Xor) == 10752,
        circuit::count_of(compress_shapes(), Shape::FullAdder) == 15360,
        s != Shape::Xor && s != Shape::FullAdder ==> circuit::count_of(compress_shapes(), s) == 0,
{
    lemma_compression_count(Shape::Xor);
    lemma_compression_count(Shape::FullAdder);
    lemma_compression_count(s);
}

proof fn lemma_compression_count(s: Shape)
    ensures
        circuit::count_of(compress_shapes(), s) == 10752 * circuit::count_of(seq![Shape::Xor], s)
            + 15360 * circuit::count_of(seq![Shape::FullAdder], s),
        circuit::count_of(seq![Shape::Xor], s) == (if s == Shape::Xor {
            1nat
        } else {
            0
        }),
        circuit::count_of(seq![Shape::FullAdder], s) == (if s == Shape::FullAdder {
            1nat
        } else {
            0
        }),
{
    reveal(xor_shapes);
    reveal(add_shapes);
    reveal(add3_shapes);
    reveal(g_shapes);
    reveal(round_shapes);
    reveal(compress_shapes);
    reveal_with_fuel(circuit::count_of, 2);
    assert(seq![Shape::Xor].drop_last() =~= Seq::<Shape>::empty());
    assert(seq![Shape::FullAdder].drop_last() =~= Seq::<Shape>::empty());
    let (x, a, a3) = (xor_shapes(), add_shapes(), add3_shapes());
    circuit::lemma_count_repeated(seq![Shape::Xor], 32, s);
    circuit::lemma_count_repeated(seq![Shape::FullAdder], 32, s);
    circuit::lemma_count_joined(a, a, s);
    circuit::lemma_count_joined(a3, x, s);
    circuit::lemma_count_joined(a3 + x, a, s);
    circuit::lemma_count_joined(a3 + x + a, x, s);
    circuit::lemma_count_joined(a3 + x + a + x, a3, s);
    circuit::lemma_count_joined(a3 + x + a + x + a3, x, s);
    circuit::lemma_count_joined(a3 + x + a + x + a3 + x, a, s);
    circuit::lemma_count_joined(a3 + x + a + x + a3 + x + a, x, s);
    circuit::lemma_count_repeated(g_shapes(), 8, s);
    circuit::lemma_count_repeated(round_shapes(), 10, s);
    circuit::lemma_count_joined(x, x, s);
    circuit::lemma_count_repeated(x + x, 8, s);
    circuit::lemma_count_joined(
        circuit::repeated(round_shapes(), 10),
        circuit::repeated(x + x, 8),
        s,
    );
}

/// The state before any block.
fn initial_state(c: &Circuit) -> (h: [U32; 8])
    ensures
        has_words(*c, h@),
        forall|env: Seq<bool>| #[trigger] words(*c, env, h@) == initial_words(),
{
    let mut h: [U32; 8] = [U32([FALSE_WIRE; 32]); 8];
    let mut i: usize = 0;
    while i < 8
        invariant
            i <= 8,
            forall|k: int|
                0 <= k < i ==> (#[trigger] h@[k]).0@ == circuit::constant_wires(
                    initial_words()[k],
                    32,
                ),
        decreases 8 - i,
    {
        // Parameter block: digest length 32, key length 0, fanout 1, depth 1.
        let w: u32 = if i == 0 {
            IV[0] ^ 0x0101_0020
        } else {
            IV[i]
        };
        assert(w == initial_words()[i as int]);
        h[i] = U32::from_constant(w);
        i += 1;
    }
    proof {
        bits::lemma_word_powers();
        assert forall|k: int| 0 <= k < 8 implies c.has_row(#[trigger] h@[k].0@) && forall|
            env: Seq<bool>,
        | #[trigger]
            c.row(env, h@[k].0@) == initial_words()[k] by {
            c.lemma_constant_row(initial_words()[k], 32);
            assert(initial_words()[k] < 0x1_0000_0000);
        }
        assert forall|env: Seq<bool>| #[trigger] words(*c, env, h@) == initial_words() by {
            assert(words(*c, env, h@) =~= initial_words());
        }
    }
    h
}

/// The words of a digest as output bytes.
fn output_of(h: &[U32; 8]) -> (r: HashOutputWires)
    ensures
        forall|j: int| 0 <= j < 8 ==> r.wires().subrange(32 * j, 32 * j + 32) == (#[trigger] h@[j]).0@,
{
    let mut value: [U8; 32] = [U8([FALSE_WIRE; 8]); 32];
    let mut i: usize = 0;
    while i < 32
        invariant
            i <= 32,
            forall|k: int|
                0 <= k < i ==> (#[trigger] value@[k]).0@ == h@[k / 4].0@.subrange(
                    8 * (k % 4),
                    8 * (k % 4) + 8,
                ),
        decreases 32 - i,
    {
        value[i] = h[i / 4].byte(i % 4);
        i += 1;
    }
    let r = HashOutputWires { value };
    proof {
        assert forall|j: int| 0 <= j < 8 implies r.wires().subrange(32 * j, 32 * j + 32) == (
        #[trigger] h@[j]).0@ by {
            assert forall|b: int| 0 <= b < 32 implies r.wires().subrange(32 * j, 32 * j + 32)[b]
                == h@[j].0@[b] by {
                let i = 32 * j + b;
                let k = i / 8;
                assert(k / 4 == j && 8 * (k % 4) + i % 8 == b);
                assert(r.wires()[i] == value@[k].0@[i % 8]);
                assert(value@[k].0@ == h@[k / 4].0@.subrange(8 * (k % 4), 8 * (k % 4) + 8));
            }
            assert(r.wires().subrange(32 * j, 32 * j + 32) =~= h@[j].0@);
        }
    }
    r
}

/// Unkeyed BLAKE2s-256 over a fixed-length message.
#[verifier::rlimit(30)]
pub fn blake2s_hash(circuit: &mut Circuit, input: &InputMessageWires) -> (r: HashOutputWires)
    requires
        old(circuit).wf(),
        has_bytes(*old(circuit), input.byte_arr@),
        input.byte_arr@.len() + 64 <= usize::MAX,
    ensures
        final(circuit).grows(*old(circuit), 26112 * n_blocks(input.byte_arr@.len()), 0),
        final(circuit).adds(*old(circuit), circuit::repeated(compress_shapes(), n_blocks(input.byte_arr@.len()))),
        final(circuit).has_row(r.wires()),
        forall|env: Seq<bool>, j: int|
            0 <= j < 8 ==> #[trigger] final(circuit).row(
                env,
                r.wires().subrange(32 * j, 32 * j + 32),
            ) == digest_words(byte_values(*old(circuit), env, input.byte_arr@))[j],
{
    let ghost c0 = *circuit;
    let n = input.byte_arr.len();
    let ghost m = input.byte_arr@;
    let mut h = initial_state(circuit);
    let blocks: usize = if n == 0 {
        1
    } else {
        (n + 63) / 64
    };
    let mut k: usize = 0;
    while k < blocks
        invariant
            k <= blocks == n_blocks(n as nat),
            n == m.len(),
            m == input.byte_arr@,
            n + 64 <= usize::MAX,
            has_bytes(c0, m),
            circuit.grows(c0, 26112 * k as nat, 0),
            circuit.adds(c0, circuit::repeated(compress_shapes(), k as nat)),
            has_words(*circuit, h@),
            forall|env: Seq<bool>| #[trigger]
                words(*circuit, env, h@) == absorb_words(byte_values(c0, env, m), k as nat),
        decreases blocks - k,
    {
        let ghost (c1, h1) = (*circuit, h@);
        proof {
            lemma_bytes_kept(c0, c1, m);
        }
        let block = message_block(circuit, input, k);
        let last = k == blocks - 1;
        let t: u64 = if last {
            n as u64
        } else {
            ((k + 1) * 64) as u64
        };
        h = compress(circuit, h, block, t, last);
        proof {
            assert(circuit.grows(c0, 26112 * (k + 1) as nat, 0));
            assert forall|env: Seq<bool>| #[trigger] words(*circuit, env, h@) == absorb_words(
                byte_values(c0, env, m),
                (k + 1) as nat,
            ) by {
                assert(words(c1, env, h1) == absorb_words(byte_values(c0, env, m), k as nat));
                assert(byte_values(c1, env, m) == byte_values(c0, env, m));
                assert(words(c1, env, block@) == block_words(
                    byte_values(c1, env, m),
                    k as int,
                ));
            }
        }
        k += 1;
    }
    let r = output_of(&h);
    proof {
        assert forall|i: int| 0 <= i < 256 implies circuit.has(#[trigger] r.wires()[i]) by {
            let j = i / 32;
            assert(r.wires()[i] == r.wires().subrange(32 * j, 32 * j + 32)[i % 32]);
            assert(circuit.has_row(h@[j].0@));
        }
        assert forall|env: Seq<bool>, j: int| 0 <= j < 8 implies #[trigger] circuit.row(
            env,
            r.wires().subrange(32 * j, 32 * j + 32),
        ) == digest_words(byte_values(c0, env, m))[j] by {
            assert(r.wires().subrange(32 * j, 32 * j + 32) == h@[j].0@);
            assert(words(*circuit, env, h@)[j] == circuit.row(env, h@[j].0@));
        }
    }
    r
}

/// The bytes of a message of input bits.
pub open spec fn input_bytes(env: Seq<bool>) -> Seq<nat> {
    Seq::new(env.len() / 8, |i: int| bits::bits_value(env.subrange(8 * i, 8 * i + 8)))
}

/// The hash of a message of `n` bytes as a plan.
#[verifier::rlimit(30)]
pub fn plan(n: usize) -> (r: Plan)
    requires
        8 * n <= usize::MAX,
        n + 64 <= usize::MAX,
    ensures
        r.wf(),
        r.circuit.n_inputs == 8 * n,
        r.circuit.ops@.len() == 26112 * n_blocks(n as nat),
        circuit::shapes_of(r.circuit.ops@) == circuit::repeated(
            compress_shapes(),
            n_blocks(n as nat),
        ),
        forall|env: Seq<bool>, j: int|
            env.len() == 8 * n && 0 <= j < 8 ==> #[trigger] r.output_word(env, j)
                == digest_words(input_bytes(env))[j],
{
    let mut c = Circuit::new(8 * n);
    let message = InputMessageWires::new(n);
    let ghost c0 = c;
    let ghost m = message.byte_arr@;
    proof {
        assert forall|i: int| 0 <= i < n implies c0.has_row(#[trigger] m[i].0@) by {
            assert forall|j: int| 0 <= j < 8 implies c0.has(#[trigger] m[i].0@[j]) by {}
        }
    }
    let output = blake2s_hash(&mut c, &message);
    let r = Plan { circuit: c, output };
    proof {
        assert forall|env: Seq<bool>, j: int| env.len() == 8 * n && 0 <= j < 8 implies #[trigger]
            r.output_word(env, j) == digest_words(input_bytes(env))[j] by {
            let ws = output.wires().subrange(32 * j, 32 * j + 32);
            r.lemma_output_at(ws, j);
            assert(c.row(env, ws) == digest_words(byte_values(c0, env, m))[j]);
            assert forall|i: int| 0 <= i < n implies byte_values(c0, env, m)[i] == input_bytes(
                env,
            )[i] by {
                let b = circuit::wires_value(circuit::outputs_of(c0.ops@, env), env, m[i].0@);
                assert(b =~= env.subrange(8 * i, 8 * i + 8)) by {
                    assert forall|l: int| 0 <= l < 8 implies b[l] == env[8 * i + l] by {
                        assert(m[i].0@[l] == WireId::Input((8 * i + l) as usize));
                    }
                }
            }
            assert(byte_values(c0, env, m) =~= input_bytes(env));
        }
    }
    r
}

/// A byte string as numbers.
pub open spec fn numbers(m: Seq<u8>) -> Seq<nat> {
    m.map_values(|b: u8| b as nat)
}

/// Evaluates the hash circuit on a message.
pub fn run(message: &Vec<u8>) -> (r: [u8; 32])
    requires
        8 * message@.len() <= usize::MAX,
        message@.len() + 64 <= usize::MAX,
    ensures
        forall|j: int|
            0 <= j < 8 ==> #[trigger] plan::le_word(r@, 4 * j) == digest_words(
                numbers(message@),
            )[j],
{
    let p = plan(message.len());
    let r = p.evaluate(message);
    proof {
        let env = plan::byte_bits(message@);
        bits::lemma_word_powers();
        assert forall|i: int| 0 <= i < message@.len() implies input_bytes(env)[i] == numbers(
            message@,
        )[i] by {
            plan::lemma_byte_bits_at(message@, i);
            bits::lemma_value_of_low_bits(message@[i] as nat, 8);
        }
        assert(input_bytes(env) =~= numbers(message@));
        assert forall|j: int| 0 <= j < 8 implies #[trigger] plan::le_word(r@, 4 * j)
            == digest_words(numbers(message@))[j] by {
            assert(p.output_word(env, j) == digest_words(input_bytes(env))[j]);
        }
    }
    r
}

/// What the outputs are checked against.
pub const REFERENCE: &'static str = "blake2 crate";

/// The BLAKE2s-256 digest of a message, as the `blake2` crate computes it.
pub uninterp spec fn blake2s256(m: Seq<u8>) -> Seq<u8>;

/// `blake2::Blake2s256::digest`: the 32-byte digest of the message, a function
/// of its bytes alone.
#[verifier::external_body]
fn native_digest(message: &Vec<u8>) -> (r: [u8; 32])
    ensures
        r@ == blake2s256(message@),
{
    blake2::Digest::finalize(<blake2::Blake2s256 as blake2::Digest>::new_with_prefix(message)).into()
}

/// The bytes that the checked messages are filled with.
pub open spec fn fills() -> Seq<u8> {
    seq![0x00u8, 0xa5u8, 0xffu8]
}

/// Checked message `k`: one block of a repeated byte.
pub open spec fn filled(k: int) -> Seq<u8> {
    Seq::new(64, |i: int| fills()[k])
}

/// Checked message `k`: one 64-byte block, a Merkle node or one absorbed block.
pub fn input(k: usize) -> (r: Vec<u8>)
    requires
        k < 3,
    ensures
        r@ == filled(k as int),
{
    let fill: u8 = if k == 0 {
        0x00
    } else if k == 1 {
        0xa5
    } else {
        0xff
    };
    let mut r: Vec<u8> = Vec::new();
    while r.len() < 64
        invariant
            r@.len() <= 64,
            fill == fills()[k as int],
            forall|i: int| 0 <= i < r@.len() ==> r@[i] == fill,
        decreases 64 - r@.len(),
    {
        r.push(fill);
    }
    assert(r@ =~= filled(k as int));
    r
}

/// The name under which the count is recorded.
pub const NAME: &'static str = "blake2s_compression_64b";

/// Which outcomes carry the digest of their message.
pub open spec fn matches(outcomes: Seq<Outcome>) -> Seq<bool> {
    Seq::new(outcomes.len(), |k: int| outcomes[k].output@ == blake2s256(filled(k)))
}

/// The hash gadget from the outcomes of its plan over 64 bytes, one for each
/// message of [`input`].
pub fn measure(outcomes: &Vec<Outcome>) -> (r: Result<Gadget, MeasureError>)
    requires
        outcomes@.len() == 3,
    ensures
        gadget::checked(outcomes@, matches(outcomes@), NAME, REFERENCE, r),
{
    let mut expected: Vec<[u8; 32]> = Vec::new();
    while expected.len() < 3
        invariant
            expected@.len() <= 3,
            forall|k: int|
                0 <= k < expected@.len() ==> (#[trigger] expected@[k])@ == blake2s256(filled(k)),
        decreases 3 - expected@.len(),
    {
        let m = input(expected.len());
        expected.push(native_digest(&m));
    }
    assert(gadget::digests_match(outcomes@, expected@) =~= matches(outcomes@));
    gadget::check_digests(NAME, REFERENCE, outcomes, &expected)
}

/// Word `w` of block `k` is the number that bytes `64k + 4w` to `64k + 4w + 3`
/// spell with the lowest first, where a message of any length goes on in
/// zeros.
pub proof fn law_block_words(m: Seq<nat>, k: int, w: int)
    requires
        0 <= k,
        0 <= w < 16,
    ensures
        block_words(m, k).len() == 16,
        ({
            let i = 64 * k + 4 * w;
            let b0 = if i < m.len() {
                m[i]
            } else {
                0
            };
            let b1 = if i + 1 < m.len() {
                m[i + 1]
            } else {
                0
            };
            let b2 = if i + 2 < m.len() {
                m[i + 2]
            } else {
                0
            };
            let b3 = if i + 3 < m.len() {
                m[i + 3]
            } else {
                0
            };
            block_words(m, k)[w] == b0 + 256 * (b1 + 256 * (b2 + 256 * b3))
        }),
{
}

/// A block's words are spelled by the bytes that stand in it: from the words
/// of a block, every byte of a message that falls in it can be read back.
pub proof fn law_bytes_are_read_back(m: Seq<u8>, k: int, w: int)
    requires
        0 <= k,
        0 <= w < 16,
    ensures
        ({
            let (i, x) = (64 * k + 4 * w, block_words(numbers(m), k)[w]);
            &&& i < m.len() ==> x % 256 == m[i]
            &&& i + 1 < m.len() ==> (x / 256) % 256 == m[i + 1]
            &&& i + 2 < m.len() ==> (x / 0x1_0000) % 256 == m[i + 2]
            &&& i + 3 < m.len() ==> x / 0x100_0000 == m[i + 3]
            &&& i >= m.len() ==> x == 0
            &&& x < 0x1_0000_0000
        }),
{
    law_block_words(numbers(m), k, w);
}

/// A block does not depend on the length of its message: what stands behind a
/// block leaves its words as they are.
pub proof fn law_blocks_are_apart(m: Seq<nat>, more: Seq<nat>, k: int)
    requires
        0 <= k,
        64 * k + 64 <= m.len(),
    ensures
        block_words(m + more, k) == block_words(m, k),
        block_words(m, k) == block_words(m.subrange(64 * k, 64 * k + 64), 0),
{
    assert(block_words(m + more, k) =~= block_words(m, k));
    assert(block_words(m, k) =~= block_words(m.subrange(64 * k, 64 * k + 64), 0));
}

/// Bytes are the numbers that they are.
pub proof fn law_numbers(m: Seq<u8>, i: int)
    requires
        0 <= i < m.len(),
    ensures
        numbers(m).len() == m.len(),
        numbers(m)[i] == m[i],
{
}

/// A message takes as few blocks of 64 bytes as hold it, and the empty one
/// takes one.
pub proof fn law_n_blocks(n: nat)
    ensures
        n > 0 ==> 64 * n_blocks(n) - 64 < n <= 64 * n_blocks(n),
        n_blocks(0) == 1,
{
}

/// The operations on words are those of 32-bit machine words.
pub proof fn law_word_operations(a: u32, b: u32)
    ensures
        xor_word(a as nat, b as nat) == a ^ b,
        add_word(a as nat, b as nat) == a.wrapping_add(b),
        rotr_word(a as nat, 16) == ((a >> 16) | (a << 16)),
        rotr_word(a as nat, 12) == ((a >> 12) | (a << 20)),
        rotr_word(a as nat, 8) == ((a >> 8) | (a << 24)),
        rotr_word(a as nat, 7) == ((a >> 7) | (a << 25)),
{
    lemma2_to64();
    assert(((a >> 16) | (a << 16)) == a / 0x1_0000 + (a % 0x1_0000) * 0x1_0000) by (bit_vector);
    assert(((a >> 12) | (a << 20)) == a / 0x1000 + (a % 0x1000) * 0x10_0000) by (bit_vector);
    assert(((a >> 8) | (a << 24)) == a / 0x100 + (a % 0x100) * 0x100_0000) by (bit_vector);
    assert(((a >> 7) | (a << 25)) == a / 0x80 + (a % 0x80) * 0x200_0000) by (bit_vector);
}

/// A rotation to the right multiplied back is the word itself, up to the
/// number of words less one.
pub proof fn law_rotation_turns(a: nat, n: nat)
    requires
        a < 0x1_0000_0000,
        n < 32,
    ensures
        rotr_word(a, n) * pow2(n) == a + (a % pow2(n)) * 0xFFFF_FFFF,
{
    let (p, q) = (pow2(n) as int, pow2((32 - n) as nat) as int);
    bits::lemma_word_powers();
    lemma2_to64();
    lemma_pow2_pos(n);
    lemma_pow2_adds((32 - n) as nat, n);
    let (d, r) = (a as int / p, a as int % p);
    lemma_fundamental_div_mod(a as int, p);
    assert((d + r * q) * p == p * d + r * (q * p)) by (nonlinear_arith);
    assert(r * 0x1_0000_0000 == r + r * 0xFFFF_FFFF) by (nonlinear_arith);
}

/// What an exclusive or and a rotation by 16 made of a word is unmade by the
/// opposite rotation and the same exclusive or.
proof fn lemma_unrotated_16(p: u32, q: u32) -> (s: u32)
    ensures
        s == rotr_word(xor_word(p as nat, q as nat), 16),
        ((s << 16) | (s >> 16)) ^ q == p,
{
    let x = p ^ q;
    law_word_operations(p, q);
    law_word_operations(x, q);
    let s = (x >> 16) | (x << 16);
    assert(((s << 16) | (s >> 16)) ^ q == p) by (bit_vector)
        requires
            x == p ^ q,
            s == (x >> 16) | (x << 16),
    ;
    s
}

/// What an exclusive or and a rotation by 12 made of a word is unmade by the
/// opposite rotation and the same exclusive or.
proof fn lemma_unrotated_12(p: u32, q: u32) -> (s: u32)
    ensures
        s == rotr_word(xor_word(p as nat, q as nat), 12),
        ((s << 12) | (s >> 20)) ^ q == p,
{
    let x = p ^ q;
    law_word_operations(p, q);
    law_word_operations(x, q);
    let s = (x >> 12) | (x << 20);
    assert(((s << 12) | (s >> 20)) ^ q == p) by (bit_vector)
        requires
            x == p ^ q,
            s == (x >> 12) | (x << 20),
    ;
    s
}

/// What an exclusive or and a rotation by 8 made of a word is unmade by the
/// opposite rotation and the same exclusive or.
proof fn lemma_unrotated_8(p: u32, q: u32) -> (s: u32)
    ensures
        s == rotr_word(xor_word(p as nat, q as nat), 8),
        ((s << 8) | (s >> 24)) ^ q == p,
{
    let x = p ^ q;
    law_word_operations(p, q);
    law_word_operations(x, q);
    let s = (x >> 8) | (x << 24);
    assert(((s << 8) | (s >> 24)) ^ q == p) by (bit_vector)
        requires
            x == p ^ q,
            s == (x >> 8) | (x << 24),
    ;
    s
}

/// What an exclusive or and a rotation by 7 made of a word is unmade by the
/// opposite rotation and the same exclusive or.
proof fn lemma_unrotated_7(p: u32, q: u32) -> (s: u32)
    ensures
        s == rotr_word(xor_word(p as nat, q as nat), 7),
        ((s << 7) | (s >> 25)) ^ q == p,
{
    let x = p ^ q;
    law_word_operations(p, q);
    law_word_operations(x, q);
    let s = (x >> 7) | (x << 25);
    assert(((s << 7) | (s >> 25)) ^ q == p) by (bit_vector)
        requires
            x == p ^ q,
            s == (x >> 7) | (x << 25),
    ;
    s
}

/// A sum of words is unmade by the difference.
proof fn lemma_unadded(p: u32, q: u32) -> (s: u32)
    ensures
        s == add_word(p as nat, q as nat),
        s.wrapping_sub(q) == p,
{
    add_word(p as nat, q as nat) as u32
}

/// Mixing of four words, and how it is undone.
proof fn lemma_mixed(va: u32, vb: u32, vc: u32, vd: u32, x: u32, y: u32) -> (r: (
    u32,
    u32,
    u32,
    u32,
))
    ensures
        ({
            let a1 = add_word(add_word(va as nat, vb as nat), x as nat);
            let d1 = rotr_word(xor_word(vd as nat, a1), 16);
            let c1 = add_word(vc as nat, d1);
            let b1 = rotr_word(xor_word(vb as nat, c1), 12);
            let a2 = add_word(add_word(a1, b1), y as nat);
            let d2 = rotr_word(xor_word(d1, a2), 8);
            let c2 = add_word(c1, d2);
            let b2 = rotr_word(xor_word(b1, c2), 7);
            r.0 == a2 && r.1 == b2 && r.2 == c2 && r.3 == d2
        }),
        ({
            let b1 = ((r.1 << 7) | (r.1 >> 25)) ^ r.2;
            let d1 = ((r.3 << 8) | (r.3 >> 24)) ^ r.0;
            let c1 = r.2.wrapping_sub(r.3);
            let a1 = r.0.wrapping_sub(y).wrapping_sub(b1);
            &&& vb == ((b1 << 12) | (b1 >> 20)) ^ c1
            &&& vd == ((d1 << 16) | (d1 >> 16)) ^ a1
            &&& vc == c1.wrapping_sub(d1)
            &&& va == a1.wrapping_sub(x).wrapping_sub(vb)
        }),
{
    let ab = lemma_unadded(va, vb);
    let a1 = lemma_unadded(ab, x);
    let d1 = lemma_unrotated_16(vd, a1);
    let c1 = lemma_unadded(vc, d1);
    let b1 = lemma_unrotated_12(vb, c1);
    let ab1 = lemma_unadded(a1, b1);
    let a2 = lemma_unadded(ab1, y);
    let d2 = lemma_unrotated_8(d1, a2);
    let c2 = lemma_unadded(c1, d2);
    let b2 = lemma_unrotated_7(b1, c2);
    (a2, b2, c2, d2)
}

/// Mixing is undone step by step: from the four mixed words and the two
/// message words, rotating left by 7, 8, 12 and 16 and subtracting gives the
/// four words back. The other words are left alone.
pub proof fn law_mixing_is_undone(
    v: Seq<nat>,
    a: int,
    b: int,
    c: int,
    d: int,
    x: u32,
    y: u32,
)
    requires
        0 <= a < v.len(),
        0 <= b < v.len(),
        0 <= c < v.len(),
        0 <= d < v.len(),
        a != b && a != c && a != d && b != c && b != d && c != d,
        v[a] <= u32::MAX && v[b] <= u32::MAX && v[c] <= u32::MAX && v[d] <= u32::MAX,
    ensures
        ({
            let r = g_words(v, a, b, c, d, x as nat, y as nat);
            let (a2, b2, c2, d2) = (r[a] as u32, r[b] as u32, r[c] as u32, r[d] as u32);
            let b1 = ((b2 << 7) | (b2 >> 25)) ^ c2;
            let d1 = ((d2 << 8) | (d2 >> 24)) ^ a2;
            let c1 = c2.wrapping_sub(d2);
            let a1 = a2.wrapping_sub(y).wrapping_sub(b1);
            let b0 = ((b1 << 12) | (b1 >> 20)) ^ c1;
            let d0 = ((d1 << 16) | (d1 >> 16)) ^ a1;
            &&& r.len() == v.len()
            &&& r[a] <= u32::MAX && r[b] <= u32::MAX && r[c] <= u32::MAX && r[d] <= u32::MAX
            &&& v[b] == b0
            &&& v[d] == d0
            &&& v[c] == c1.wrapping_sub(d1)
            &&& v[a] == a1.wrapping_sub(x).wrapping_sub(b0)
            &&& forall|i: int|
                0 <= i < v.len() && i != a && i != b && i != c && i != d ==> #[trigger] r[i] == v[i]
        }),
{
    reveal(g_words);
    let r = g_words(v, a, b, c, d, x as nat, y as nat);
    let (a2, b2, c2, d2) = lemma_mixed(
        v[a] as u32,
        v[b] as u32,
        v[c] as u32,
        v[d] as u32,
        x,
        y,
    );
    assert(r[a] == a2 && r[b] == b2 && r[c] == c2 && r[d] == d2);
}

/// A round mixes the four columns and after them the four diagonals, each
/// with the next two message words of its order.
pub proof fn law_round(v: Seq<nat>, m: Seq<nat>, s: Seq<usize>, u: Seq<Seq<nat>>)
    requires
        u.len() == 9,
        u[0] == v,
        forall|i: int|
            0 <= i < 4 ==> #[trigger] u[i + 1] == g_words(
                u[i],
                i,
                4 + i,
                8 + i,
                12 + i,
                m[s[2 * i] as int],
                m[s[2 * i + 1] as int],
            ),
        forall|i: int|
            0 <= i < 4 ==> #[trigger] u[i + 5] == g_words(
                u[i + 4],
                i,
                4 + (i + 1) % 4,
                8 + (i + 2) % 4,
                12 + (i + 3) % 4,
                m[s[2 * i + 8] as int],
                m[s[2 * i + 9] as int],
            ),
    ensures
        round_words(v, m, s) == u[8],
{
    assert(u[0int + 1] == g_words(u[0], 0, 4, 8, 12, m[s[0] as int], m[s[1] as int]));
    assert(u[1int + 1] == g_words(u[1], 1, 5, 9, 13, m[s[2] as int], m[s[3] as int]));
    assert(u[2int + 1] == g_words(u[2], 2, 6, 10, 14, m[s[4] as int], m[s[5] as int]));
    assert(u[3int + 1] == g_words(u[3], 3, 7, 11, 15, m[s[6] as int], m[s[7] as int]));
    assert(u[0int + 5] == g_words(u[4], 0, 5, 10, 15, m[s[8] as int], m[s[9] as int]));
    assert(u[1int + 5] == g_words(u[5], 1, 6, 11, 12, m[s[10] as int], m[s[11] as int]));
    assert(u[2int + 5] == g_words(u[6], 2, 7, 8, 13, m[s[12] as int], m[s[13] as int]));
    assert(u[3int + 5] == g_words(u[7], 3, 4, 9, 14, m[s[14] as int], m[s[15] as int]));
}

/// Each round goes on where the one before it ended, in its own order of the
/// message words.
pub proof fn law_rounds_chain(v: Seq<nat>, m: Seq<nat>, k: nat)
    requires
        k < 10,
    ensures
        rounds_words(v, m, 0) == v,
        rounds_words(v, m, k + 1) == round_words(rounds_words(v, m, k), m, SIGMA@[k as int]@),
{
}

/// The upper half of a working vector is the initialization vector, with the
/// two halves of the byte counter and the flag of the last block mixed in.
pub proof fn law_tail_words(t: u64, last: bool)
    ensures
        tail_word(0, t, last) == 0x6A09E667,
        tail_word(1, t, last) == 0xBB67AE85,
        tail_word(2, t, last) == 0x3C6EF372,
        tail_word(3, t, last) == 0xA54FF53A,
        tail_word(4, t, last) == 0x510E527Fu32 ^ ((t % 0x1_0000_0000) as u32),
        tail_word(5, t, last) == 0x9B05688Cu32 ^ ((t / 0x1_0000_0000) as u32),
        tail_word(6, t, false) == 0x1F83D9AB,
        tail_word(6, t, true) + 0x1F83D9AB == 0xFFFF_FFFF,
        tail_word(7, t, last) == 0x5BE0CD19,
{
    assert(0x1F83D9ABu32 ^ 0xFFFF_FFFFu32 == 0xE07C2654u32) by (bit_vector);
}

/// The state before any block is the initialization vector, its first word
/// marked with the digest's length of 32 bytes and one level without a key.
pub proof fn law_initial_words()
    ensures
        initial_words() == seq![
            0x6B08E647nat,
            0xBB67AE85nat,
            0x3C6EF372nat,
            0xA54FF53Anat,
            0x510E527Fnat,
            0x9B05688Cnat,
            0x1F83D9ABnat,
            0x5BE0CD19nat,
        ],
{
    assert(0x6A09E667u32 ^ 0x0101_0020u32 == 0x6B08E647u32) by (bit_vector);
    assert(initial_words() =~= seq![
        0x6B08E647nat,
        0xBB67AE85nat,
        0x3C6EF372nat,
        0xA54FF53Anat,
        0x510E527Fnat,
        0x9B05688Cnat,
        0x1F83D9ABnat,
        0x5BE0CD19nat,
    ]);
}

/// A compression works on the state with the upper half behind it, and folds
/// both halves of the result into the state.
pub proof fn law_compression(h: Seq<nat>, m: Seq<nat>, t: u64, last: bool, i: int, start: Seq<nat>)
    requires
        h.len() == 8,
        0 <= i < 8,
        start.len() == 16,
        start.take(8) == h,
        forall|j: int| 0 <= j < 8 ==> #[trigger] start[j + 8] == tail_word(j, t, last),
    ensures
        ({
            let v = rounds_words(start, m, 10);
            &&& compress_words(h, m, t, last).len() == 8
            &&& compress_words(h, m, t, last)[i] == ((h[i] as u32) ^ (v[i] as u32)) ^ (v[i
                + 8] as u32)
        }),
{
    reveal(compress_words);
    let s = h + Seq::new(8, |i: int| tail_word(i, t, last));
    assert forall|j: int| 0 <= j < 16 implies s[j] == start[j] by {
        if j < 8 {
            assert(start.take(8)[j] == start[j]);
        } else {
            assert(start[(j - 8) + 8] == tail_word(j - 8, t, last));
        }
    }
    assert(s =~= start);
}

/// A digest is the state after the last block. Every block but the last is
/// absorbed with the number of bytes up to its end, and the last one, marked
/// as such, with the message's length.
pub proof fn law_blocks_are_absorbed(m: Seq<nat>, k: nat)
    requires
        m.len() <= u64::MAX,
    ensures
        absorb_words(m, 0) == initial_words(),
        64 * (k + 1) < m.len() ==> absorb_words(m, k + 1) == compress_words(
            absorb_words(m, k),
            block_words(m, k as int),
            (64 * (k + 1)) as u64,
            false,
        ),
        64 * k < m.len() <= 64 * (k + 1) || (m.len() == 0 && k == 0) ==> digest_words(m)
            == compress_words(
            absorb_words(m, k),
            block_words(m, k as int),
            m.len() as u64,
            true,
        ),
{
}

/// What follows a block does not change the state behind the blocks before
/// it.
pub proof fn law_blocks_before_the_last(m: Seq<nat>, more: Seq<nat>, k: nat)
    requires
        64 * k < m.len(),
        64 * k < (m + more).len(),
    ensures
        absorb_words(m + more, k) == absorb_words(m, k),
    decreases k,
{
    if k > 0 {
        law_blocks_before_the_last(m, more, (k - 1) as nat);
        law_blocks_are_apart(m, more, k - 1);
    }
}

/// A byte of a message is the number of its eight input bits, the lowest
/// first.
pub proof fn law_input_bytes(m: Seq<u8>)
    ensures
        input_bytes(plan::byte_bits(m)) == numbers(m),
{
    bits::lemma_word_powers();
    assert forall|i: int| 0 <= i < m.len() implies input_bytes(plan::byte_bits(m))[i] == numbers(
        m,
    )[i] by {
        plan::lemma_byte_bits_at(m, i);
        bits::lemma_value_of_low_bits(m[i] as nat, 8);
    }
    assert(input_bytes(plan::byte_bits(m)) =~= numbers(m));
}

/// The checked messages are one block of zeros, one of `a5` and one of ones.
pub proof fn law_checked_messages(i: int)
    requires
        0 <= i < 64,
    ensures
        filled(0).len() == 64 && filled(0)[i] == 0,
        filled(1).len() == 64 && filled(1)[i] == 0xa5,
        filled(2).len() == 64 && filled(2)[i] == 0xff,
        NAME@ == "blake2s_compression_64b"@,
        REFERENCE@ == "blake2 crate"@,
{
}

/// An outcome passes exactly where its output is the digest of its message.
pub proof fn law_outcomes_are_compared(outcomes: Seq<Outcome>, k: int)
    requires
        0 <= k < outcomes.len(),
    ensures
        matches(outcomes).len() == outcomes.len(),
        matches(outcomes)[k] <==> outcomes[k].output@ == blake2s256(filled(k)),
{
}

} // verus!
