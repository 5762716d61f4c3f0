//! What the words of the field gadgets stand for, and that the gadgets'
//! results stand for the field operations' results.

use vstd::arithmetic::div_mod::*;
use vstd::arithmetic::mul::*;
use vstd::prelude::*;

use crate::field;
use crate::field::{BABYBEAR_MU, BABYBEAR_P, KOALABEAR_MU, KOALABEAR_P, M31_P};

verus! {

/// The inverse of `2^32` modulo a prime in Montgomery form.
pub open spec fn r_inverse(p: nat) -> nat {
    if p == BABYBEAR_P {
        943718400
    } else if p == KOALABEAR_P {
        1057030144
    } else {
        0
    }
}

/// The field element that a Montgomery word stands for.
pub open spec fn canon(w: nat, p: nat) -> nat {
    (w * r_inverse(p)) % p
}

/// The Montgomery word of a field element.
pub open spec fn encode(v: nat, p: nat) -> nat {
    (v * 0x1_0000_0000) % p
}

/// The conditions under which REDC reduces: `p` and `mu` are inverse modulo
/// `2^32`, and `2^32` is invertible modulo `p`.
pub open spec fn is_montgomery(p: nat, mu: nat) -> bool {
    &&& 1 < p < 0x8000_0000
    &&& (p * mu) % 0x1_0000_0000 == 1
    &&& (0x1_0000_0000 * r_inverse(p)) % p == 1
}

/// Both primes meet the conditions of REDC.
pub proof fn law_parameters()
    ensures
        is_montgomery(BABYBEAR_P as nat, BABYBEAR_MU as nat),
        is_montgomery(KOALABEAR_P as nat, KOALABEAR_MU as nat),
{
}

/// REDC divides by `2^32` modulo `p`: its result is reduced, and times `2^32`
/// it is congruent to the double word it was given.
pub proof fn law_redc(x: nat, p: nat, mu: nat)
    requires
        is_montgomery(p, mu),
        x < p * 0x1_0000_0000,
    ensures
        field::redc_word(x, p, mu) < p,
        (field::redc_word(x, p, mu) * 0x1_0000_0000) % p == x % p,
{
    let r = 0x1_0000_0000int;
    let xl = (x as int) % r;
    let t = (xl * mu) % r;
    let (pi, xi) = (p as int, x as int);
    // t * p is congruent to x modulo 2^32.
    lemma_mul_mod_noop_left(xl * mu, pi, r);
    lemma_mul_is_associative(xl, mu as int, pi);
    lemma_mul_is_commutative(mu as int, pi);
    lemma_mul_mod_noop_right(xl, (mu * pi), r);
    assert((t * pi) % r == xl % r);
    lemma_mod_twice(xi, r);
    lemma_mod_equivalence(xi, t * pi, r);
    let e = xi - t * pi;
    assert(e % r == 0);
    let q = e / r;
    lemma_fundamental_div_mod(e, r);
    assert(e == r * q);
    assert(0 <= t * pi < r * pi) by (nonlinear_arith)
        requires
            0 <= t < r,
            0 < pi,
    ;
    lemma_mul_is_commutative(pi, r);
    assert(-pi < q < pi) by (nonlinear_arith)
        requires
            e == r * q,
            -(r * pi) < e < r * pi,
            r == 0x1_0000_0000,
    ;
    let w = field::redc_word(x, p, mu) as int;
    if e >= 0 {
        assert(w == q);
        lemma_mod_multiples_vanish(-t, xi, pi);
        assert(pi * -t == -(t * pi)) by (nonlinear_arith);
    } else {
        assert(w == q + pi);
        lemma_mod_multiples_vanish(r - t, xi, pi);
        assert(pi * (r - t) + xi == xi - t * pi + pi * r) by (nonlinear_arith);
        assert(w * r == e + pi * r) by (nonlinear_arith)
            requires
                w == q + pi,
                e == r * q,
        ;
    }
}

proof fn lemma_one_factor(x: int, one: int)
    requires
        one == 1,
    ensures
        x * one == x,
{
}

/// Montgomery words have one reduced representation for each field element.
pub proof fn law_canon_injective(a: nat, b: nat, p: nat, mu: nat)
    requires
        is_montgomery(p, mu),
        a < p,
        b < p,
        canon(a, p) == canon(b, p),
    ensures
        a == b,
{
    lemma_encode_of_canon(a, p, mu);
    lemma_encode_of_canon(b, p, mu);
}

/// The Montgomery word of the element that a reduced word stands for is the word.
pub proof fn lemma_encode_of_canon(w: nat, p: nat, mu: nat)
    requires
        is_montgomery(p, mu),
        w < p,
    ensures
        encode(canon(w, p), p) == w,
{
    let (wi, pi, ri, r) = (w as int, p as int, r_inverse(p) as int, 0x1_0000_0000int);
    lemma_mul_mod_noop_left(wi * ri, r, pi);
    lemma_mul_is_associative(wi, ri, r);
    lemma_mul_mod_noop_right(wi, ri * r, pi);
    lemma_one_factor(wi, (ri * r) % pi);
    lemma_small_mod(w, p);
}

/// The Montgomery word of a field element is reduced and stands for it.
pub proof fn law_encode(v: nat, p: nat, mu: nat)
    requires
        is_montgomery(p, mu),
    ensures
        encode(v, p) < p,
        canon(encode(v, p), p) == v % p,
{
    let (vi, pi, ri, r) = (v as int, p as int, r_inverse(p) as int, 0x1_0000_0000int);
    lemma_mul_mod_noop_left(vi * r, ri, pi);
    lemma_mul_is_associative(vi, r, ri);
    lemma_mul_mod_noop_right(vi, r * ri, pi);
    lemma_one_factor(vi, (r * ri) % pi);
}

/// The word REDC gives stands for the product of `x` and the square of the
/// inverse of `2^32`: one factor from the reduction, one from the encoding.
pub proof fn law_redc_canon(x: nat, p: nat, mu: nat)
    requires
        is_montgomery(p, mu),
        x < p * 0x1_0000_0000,
    ensures
        field::redc_word(x, p, mu) == (x * r_inverse(p)) % p,
        canon(field::redc_word(x, p, mu), p) == (x * (r_inverse(p) * r_inverse(p))) % p,
{
    law_redc(x, p, mu);
    let (xi, pi, ri, r) = (x as int, p as int, r_inverse(p) as int, 0x1_0000_0000int);
    let w = field::redc_word(x, p, mu) as int;
    // w = w * (2^32 * ri) = (w * 2^32) * ri = x * ri
    lemma_mul_mod_noop_right(w, r * ri, pi);
    lemma_one_factor(w, (r * ri) % pi);
    lemma_small_mod(w as nat, p);
    lemma_mul_is_associative(w, r, ri);
    lemma_mul_mod_noop_left(w * r, ri, pi);
    lemma_mul_mod_noop_left(xi, ri, pi);
    assert(w == (xi * ri) % pi);
    lemma_mul_mod_noop_left(xi * ri, ri, pi);
    lemma_mul_is_associative(xi, ri, ri);
}

/// Encoding keeps products: the word of a product is the Montgomery product of
/// the words. The Montgomery product with 1 is the element that was encoded.
pub proof fn law_encode_multiplies(a: nat, b: nat, p: nat, mu: nat)
    requires
        is_montgomery(p, mu),
    ensures
        encode((a * b) % p, p) == field::redc_word(encode(a, p) * encode(b, p), p, mu),
        field::redc_word(encode(a, p) * 1, p, mu) == a % p,
{
    let (ai, bi, pi, ri) = (a as int, b as int, p as int, r_inverse(p) as int);
    let r = 0x1_0000_0000int;
    let (x, y) = (encode(a, p), encode(b, p));
    law_encode(a, p, mu);
    law_encode(b, p, mu);
    crate::circuit::lemma_product_bound(x, p, y, 0x1_0000_0000);
    law_redc_canon(x * y, p, mu);
    law_redc_canon(x * 1, p, mu);
    // (aR mod p)(bR mod p)ri = (aR)(bR)ri = (abR)(Rri) = abR
    lemma_mul_mod_noop(ai * r, bi * r, pi);
    lemma_mul_mod_noop_left((x * y) as int, ri, pi);
    lemma_mul_mod_noop_left((ai * r) * (bi * r), ri, pi);
    assert(((ai * r) * (bi * r)) * ri == ((ai * bi) * r) * (r * ri)) by (nonlinear_arith);
    lemma_mul_mod_noop_right((ai * bi) * r, r * ri, pi);
    lemma_one_factor((ai * bi) * r, (r * ri) % pi);
    lemma_mul_mod_noop_left(ai * bi, r, pi);
}

/// The words of 1.
pub proof fn law_encoded_one()
    ensures
        encode(1, BABYBEAR_P as nat) == 0x0fff_fffe,
        encode(1, KOALABEAR_P as nat) == 0x01ff_fffe,
{
}

/// Montgomery multiplication multiplies: the result is reduced and stands for
/// the product of what the operands stand for.
pub proof fn law_monty_mul(a: nat, b: nat, p: nat, mu: nat)
    requires
        is_montgomery(p, mu),
        a < p,
        b < 0x1_0000_0000,
    ensures
        field::redc_word(a * b, p, mu) < p,
        canon(field::redc_word(a * b, p, mu), p) == (canon(a, p) * canon(b, p)) % p,
{
    crate::circuit::lemma_product_bound(a, p, b, 0x1_0000_0000);
    law_redc(a * b, p, mu);
    law_redc_canon(a * b, p, mu);
    let (ai, bi, pi, ri) = (a as int, b as int, p as int, r_inverse(p) as int);
    assert((ai * bi) * (ri * ri) == (ai * ri) * (bi * ri)) by (nonlinear_arith);
    lemma_mul_mod_noop(ai * ri, bi * ri, pi);
}

/// The sum gadget adds: on reduced operands the result is the sum modulo `p`,
/// and it stands for the sum of what the operands stand for.
pub proof fn law_mod_add(a: nat, b: nat, p: nat, mu: nat)
    requires
        is_montgomery(p, mu),
        a < p,
        b < p,
    ensures
        field::mod_add_word(a, b, p) == (a + b) % p,
        canon(field::mod_add_word(a, b, p), p) == (canon(a, p) + canon(b, p)) % p,
{
    let (ai, bi, pi, ri) = (a as int, b as int, p as int, r_inverse(p) as int);
    if a + b >= p {
        lemma_mod_add_multiples_vanish(ai + bi - pi, pi);
        lemma_small_mod((ai + bi - pi) as nat, p);
    } else {
        lemma_small_mod(a + b, p);
    }
    lemma_mul_mod_noop_left(ai + bi, ri, pi);
    lemma_mul_is_distributive_add_other_way(ri, ai, bi);
    lemma_add_mod_noop(ai * ri, bi * ri, pi);
}

/// The difference gadget subtracts: on reduced operands the result is the
/// difference modulo `p`, and it stands for the difference of what the
/// operands stand for.
pub proof fn law_mod_sub(a: nat, b: nat, p: nat, mu: nat)
    requires
        is_montgomery(p, mu),
        a < p,
        b < p,
    ensures
        field::mod_sub_word(a, b, p) == ((a + p - b) as nat) % p,
        canon(field::mod_sub_word(a, b, p), p) == ((canon(a, p) + p - canon(b, p)) as nat) % p,
{
    let (ai, bi, pi, ri) = (a as int, b as int, p as int, r_inverse(p) as int);
    if a >= b {
        lemma_mod_add_multiples_vanish(ai - bi, pi);
        lemma_small_mod((ai - bi) as nat, p);
    } else {
        lemma_small_mod((ai + pi - bi) as nat, p);
    }
    let d = field::mod_sub_word(a, b, p) as int;
    assert(d == (ai - bi) % pi) by {
        lemma_mod_add_multiples_vanish(ai - bi, pi);
    }
    lemma_mul_mod_noop_left(ai - bi, ri, pi);
    lemma_mul_is_distributive_sub_other_way(ri, ai, bi);
    lemma_sub_mod_noop(ai * ri, bi * ri, pi);
    lemma_mod_add_multiples_vanish(canon(a, p) - canon(b, p), pi);
}

/// On reduced operands the M31 gadgets give the sum and the difference
/// modulo `2^31 - 1`; with the product, which the multiplication gadget gives
/// on all operands, every result is reduced.
pub proof fn law_m31(a: nat, b: nat)
    requires
        a < M31_P,
        b < M31_P,
    ensures
        field::m31_add_word(a, b) == (a + b) % (M31_P as nat),
        field::m31_sub_word(a, b) == ((a + M31_P - b) as nat) % (M31_P as nat),
        field::m31_add_word(a, b) < M31_P,
        field::m31_sub_word(a, b) < M31_P,
        field::m31_mul_word(a, b) < M31_P,
{
}

/// Whether a reduced Montgomery word stands for a number modulo `p`.
pub open spec fn stands_for(w: nat, v: nat, p: nat) -> bool {
    w < p && canon(w, p) == v % p
}

/// Whether all words of a row stand for the numbers of another.
pub open spec fn all_stand_for(ws: Seq<nat>, vs: Seq<nat>, p: nat) -> bool {
    &&& ws.len() == vs.len()
    &&& forall|i: int| 0 <= i < ws.len() ==> stands_for(#[trigger] ws[i], vs[i], p)
}

/// The field elements that a row of Montgomery words stands for.
pub open spec fn canon_all(ws: Seq<nat>, p: nat) -> Seq<nat> {
    ws.map_values(|w: nat| canon(w, p))
}

/// Whether all words of a row are reduced.
pub open spec fn all_reduced(ws: Seq<nat>, p: nat) -> bool {
    forall|i: int| 0 <= i < ws.len() ==> #[trigger] ws[i] < p
}

/// The sum of words stands for the sum of what they stand for.
pub proof fn lemma_add_stands(w1: nat, v1: nat, w2: nat, v2: nat, p: nat, mu: nat)
    requires
        is_montgomery(p, mu),
        stands_for(w1, v1, p),
        stands_for(w2, v2, p),
    ensures
        stands_for(field::mod_add_word(w1, w2, p), v1 + v2, p),
{
    law_mod_add(w1, w2, p, mu);
    lemma_add_mod_noop(v1 as int, v2 as int, p as int);
}

/// The product of words stands for the product of what they stand for.
pub proof fn lemma_mul_stands(w1: nat, v1: nat, w2: nat, v2: nat, p: nat, mu: nat)
    requires
        is_montgomery(p, mu),
        stands_for(w1, v1, p),
        stands_for(w2, v2, p),
    ensures
        stands_for(field::redc_word(w1 * w2, p, mu), v1 * v2, p),
{
    law_monty_mul(w1, w2, p, mu);
    lemma_mul_mod_noop(v1 as int, v2 as int, p as int);
}

/// Reduced words stand for the elements they are read as.
pub proof fn lemma_canon_all_stands(ws: Seq<nat>, p: nat)
    requires
        all_reduced(ws, p),
    ensures
        all_stand_for(ws, canon_all(ws, p), p),
{
    assert forall|i: int| 0 <= i < ws.len() implies stands_for(
        #[trigger] ws[i],
        canon_all(ws, p)[i],
        p,
    ) by {
        lemma_mod_twice((ws[i] * r_inverse(p)) as int, p as int);
    }
}

/// Words that stand for reduced numbers are read as them.
pub proof fn lemma_stands_canon_all(ws: Seq<nat>, vs: Seq<nat>, p: nat)
    requires
        all_stand_for(ws, vs, p),
        all_reduced(vs, p),
    ensures
        all_reduced(ws, p),
        canon_all(ws, p) == vs,
{
    assert forall|i: int| 0 <= i < ws.len() implies #[trigger] ws[i] < p && canon_all(ws, p)[i]
        == vs[i] by {
        assert(stands_for(ws[i], vs[i], p));
        assert(vs[i] < p);
        lemma_small_mod(vs[i], p);
    }
    assert(canon_all(ws, p) =~= vs);
}

/// A Montgomery word stands for the one element that times `2^32` is the word,
/// and rows do so word by word.
pub proof fn law_canon(w: nat, ws: Seq<nat>, i: int, p: nat, mu: nat)
    requires
        is_montgomery(p, mu),
        w < p,
        0 <= i < ws.len(),
    ensures
        canon(w, p) < p,
        (canon(w, p) * 0x1_0000_0000) % p == w,
        encode(w, p) == (w * 0x1_0000_0000) % p,
        canon_all(ws, p).len() == ws.len(),
        canon_all(ws, p)[i] == canon(ws[i], p),
        all_reduced(ws, p) ==> ws[i] < p,
        is_montgomery(0x7800_0001, 0x8800_0001),
        is_montgomery(0x7f00_0001, 0x8100_0001),
        1 < p < 0x8000_0000 && (p * mu) % 0x1_0000_0000 == 1,
{
    lemma_encode_of_canon(w, p, mu);
    law_parameters();
}

} // verus!
