//! Little-endian bit strings and the numbers they stand for.

use vstd::arithmetic::div_mod::*;
use vstd::arithmetic::mul::*;
use vstd::arithmetic::power2::*;
use vstd::prelude::*;

verus! {

/// The number a bit contributes at weight one.
pub open spec fn bit_value(b: bool) -> nat {
    if b {
        1
    } else {
        0
    }
}

/// The number that a bit string denotes, least significant bit first.
pub open spec fn bits_value(b: Seq<bool>) -> nat
    decreases b.len(),
{
    if b.len() == 0 {
        0
    } else {
        bits_value(b.drop_last()) + bit_value(b.last()) * pow2((b.len() - 1) as nat)
    }
}

/// The `len` low bits of `n`, least significant bit first.
pub open spec fn low_bits(n: nat, len: nat) -> Seq<bool> {
    Seq::new(len, |i: int| (n / pow2(i as nat)) % 2 == 1)
}

/// A bit string of length `n` denotes a number below `2^n`.
pub proof fn lemma_bits_value_bound(b: Seq<bool>)
    ensures
        bits_value(b) < pow2(b.len()),
    decreases b.len(),
{
    lemma_pow2_pos(b.len());
    if b.len() > 0 {
        lemma_bits_value_bound(b.drop_last());
        lemma_pow2_unfold(b.len());
    }
}

/// Appending bits above a string adds their value at the next weight.
pub proof fn lemma_bits_value_concat(a: Seq<bool>, b: Seq<bool>)
    ensures
        bits_value(a + b) == bits_value(a) + pow2(a.len()) * bits_value(b),
    decreases b.len(),
{
    if b.len() == 0 {
        assert(a + b =~= a);
        lemma_mul_by_zero_is_zero(pow2(a.len()) as int);
    } else {
        let t = b.drop_last();
        let v = bit_value(b.last());
        let w = pow2((b.len() - 1) as nat);
        lemma_bits_value_concat(a, t);
        assert((a + b).drop_last() =~= a + t);
        lemma_pow2_adds(a.len(), (b.len() - 1) as nat);
        assert(v * (pow2(a.len()) * w) == pow2(a.len()) * (v * w)) by (nonlinear_arith);
        lemma_mul_is_distributive_add(pow2(a.len()) as int, bits_value(t) as int, (v * w) as int);
    }
}

/// Cutting a string at `k` splits its value into remainder and quotient by `2^k`.
pub proof fn lemma_bits_value_split(b: Seq<bool>, k: int)
    requires
        0 <= k <= b.len(),
    ensures
        bits_value(b.take(k)) == bits_value(b) % pow2(k as nat),
        bits_value(b.skip(k)) == bits_value(b) / pow2(k as nat),
        bits_value(b) == bits_value(b.take(k)) + pow2(k as nat) * bits_value(b.skip(k)),
{
    let lo = b.take(k);
    let hi = b.skip(k);
    assert(lo + hi =~= b);
    lemma_bits_value_concat(lo, hi);
    lemma_bits_value_bound(lo);
    lemma_pow2_pos(k as nat);
    lemma_fundamental_div_mod_converse(
        bits_value(b) as int,
        pow2(k as nat) as int,
        bits_value(hi) as int,
        bits_value(lo) as int,
    );
}

/// Bit `i` of a string is bit `i` of the number it denotes.
pub proof fn lemma_bits_value_index(b: Seq<bool>, i: int)
    requires
        0 <= i < b.len(),
    ensures
        b[i] <==> (bits_value(b) / pow2(i as nat)) % 2 == 1,
{
    lemma_bits_value_split(b, i);
    let s = b.skip(i);
    lemma_bits_value_split(s, 1);
    lemma2_to64();
    assert(s.take(1) =~= seq![b[i]]);
    assert(s.take(1).drop_last() =~= Seq::<bool>::empty());
    assert(bits_value(s.take(1)) == bit_value(b[i])) by {
        reveal_with_fuel(bits_value, 2);
    }
}

/// A bit string is the low bits of the number it denotes.
pub proof fn lemma_low_bits_of_value(b: Seq<bool>)
    ensures
        low_bits(bits_value(b), b.len()) =~= b,
{
    assert forall|i: int| 0 <= i < b.len() implies low_bits(bits_value(b), b.len())[i] == b[i] by {
        lemma_bits_value_index(b, i);
    }
}

/// The low `len` bits of `n` denote `n mod 2^len`.
pub proof fn lemma_value_of_low_bits(n: nat, len: nat)
    ensures
        bits_value(low_bits(n, len)) == n % pow2(len),
    decreases len,
{
    if len == 0 {
        lemma2_to64();
    } else {
        let k = (len - 1) as nat;
        assert(low_bits(n, len).drop_last() =~= low_bits(n, k));
        lemma_value_of_low_bits(n, k);
        lemma_pow2_pos(k);
        lemma_pow2_unfold(len);
        let p = pow2(k) as int;
        // n mod 2p = n mod p + p * ((n / p) mod 2)
        lemma_mod_breakdown(n as int, p, 2);
        assert(p * 2 == pow2(len));
        let q = ((n as int) / p) % 2;
        assert(bit_value(low_bits(n, len).last()) == q);
        lemma_mul_is_commutative(p, q);
    }
}

/// Zero bits on top leave the value alone.
pub proof fn lemma_bits_value_zeros(b: Seq<bool>)
    requires
        forall|i: int| 0 <= i < b.len() ==> !b[i],
    ensures
        bits_value(b) == 0,
    decreases b.len(),
{
    if b.len() > 0 {
        lemma_bits_value_zeros(b.drop_last());
    }
}

/// The powers of two at the widths that the gadgets use.
pub proof fn lemma_word_powers()
    ensures
        pow2(0) == 1,
        pow2(1) == 2,
        pow2(8) == 0x100,
        pow2(31) == 0x8000_0000,
        pow2(32) == 0x1_0000_0000,
        pow2(33) == 0x2_0000_0000,
        pow2(62) == 0x4000_0000_0000_0000,
        pow2(63) == 0x8000_0000_0000_0000,
        pow2(64) == 0x1_0000_0000_0000_0000,
        pow2(65) == 0x2_0000_0000_0000_0000,
{
    lemma2_to64();
    lemma2_to64_rest();
    lemma_pow2_unfold(65);
}

/// A further bit on top adds the weight of its place where it is set.
pub proof fn law_bits_value_grows(b: Seq<bool>)
    ensures
        bits_value(Seq::<bool>::empty()) == 0,
        bits_value(b.push(false)) == bits_value(b),
        bits_value(b.push(true)) == bits_value(b) + pow2(b.len()),
        bit_value(true) == 1 && bit_value(false) == 0,
{
    assert(b.push(false).drop_last() =~= b);
    assert(b.push(true).drop_last() =~= b);
    lemma_mul_by_zero_is_zero(pow2(b.len()) as int);
    lemma_mul_basics(pow2(b.len()) as int);
}

} // verus!
