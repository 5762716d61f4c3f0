//! QM31 gadgets over the M31 gadgets. `QM31 = CM31[u] / (u^2 - (2 + i))` with
//! `CM31 = M31[i] / (i^2 + 1)`. Multiplication comes in two layouts:
//! Karatsuba at both levels with the constant `2 + i` applied by additions,
//! and schoolbook with four M31 products for each CM31 product and five CM31
//! products for each QM31 product.

use vstd::arithmetic::div_mod::*;
use vstd::arithmetic::mul::*;
use vstd::arithmetic::power2::*;
use vstd::prelude::*;

use crate::bits;
use crate::circuit;
use crate::circuit::{BigIntWires, Circuit, Shape, WireId};
use crate::field;
use crate::field::{m31_add, m31_mul, m31_sub, pack_output, word, M31_P};
use crate::gadget;
use crate::gadget::{Gadget, MeasureError};
use crate::plan;
use crate::plan::{InputMessageWires, Outcome, Plan};

verus! {

broadcast use {
    circuit::lemma_shapes_grouped,
    circuit::lemma_shapes_then_none,
    circuit::lemma_none_then_shapes,
};

/// The words of a CM31 element `re + im * i`.
#[derive(Debug)]
pub struct Cm {
    pub re: BigIntWires,
    pub im: BigIntWires,
}

/// The words of a QM31 element `a + b * u`.
#[derive(Debug)]
pub struct Qm {
    pub a: Cm,
    pub b: Cm,
}

/// The numbers that a CM31 element's words carry.
pub open spec fn cm_words(c: Circuit, env: Seq<bool>, x: Cm) -> (nat, nat) {
    (c.word(env, x.re), c.word(env, x.im))
}

/// The numbers that a QM31 element's words carry.
pub open spec fn qm_words(c: Circuit, env: Seq<bool>, x: Qm) -> ((nat, nat), (nat, nat)) {
    (cm_words(c, env, x.a), cm_words(c, env, x.b))
}

/// Whether `x` is a pair of 31-bit words of the circuit.
pub open spec fn is_cm(c: Circuit, x: Cm) -> bool {
    c.is_word(x.re, 31) && c.is_word(x.im, 31)
}

/// Whether `x` is four 31-bit words of the circuit.
pub open spec fn is_qm(c: Circuit, x: Qm) -> bool {
    is_cm(c, x.a) && is_cm(c, x.b)
}

/// The words of a sum.
pub open spec fn cm_add_word(x: (nat, nat), y: (nat, nat)) -> (nat, nat) {
    (field::m31_add_word(x.0, y.0), field::m31_add_word(x.1, y.1))
}

/// The words of a difference.
pub open spec fn cm_sub_word(x: (nat, nat), y: (nat, nat)) -> (nat, nat) {
    (field::m31_sub_word(x.0, y.0), field::m31_sub_word(x.1, y.1))
}

/// `(a + bi)(c + di)` with four products.
pub open spec fn cm_mul_schoolbook_word(x: (nat, nat), y: (nat, nat)) -> (nat, nat) {
    (
        field::m31_sub_word(field::m31_mul_word(x.0, y.0), field::m31_mul_word(x.1, y.1)),
        field::m31_add_word(field::m31_mul_word(x.0, y.1), field::m31_mul_word(x.1, y.0)),
    )
}

/// `(a + bi)(c + di)` with three products.
pub open spec fn cm_mul_karatsuba_word(x: (nat, nat), y: (nat, nat)) -> (nat, nat) {
    let ac = field::m31_mul_word(x.0, y.0);
    let bd = field::m31_mul_word(x.1, y.1);
    let st = field::m31_mul_word(field::m31_add_word(x.0, x.1), field::m31_add_word(y.0, y.1));
    (field::m31_sub_word(ac, bd), field::m31_sub_word(field::m31_sub_word(st, ac), bd))
}

/// `(2 + i)(a + bi)` by additions.
pub open spec fn cm_mul_r_word(x: (nat, nat)) -> (nat, nat) {
    (
        field::m31_sub_word(field::m31_add_word(x.0, x.0), x.1),
        field::m31_add_word(x.0, field::m31_add_word(x.1, x.1)),
    )
}

/// The schoolbook layout at both levels.
pub open spec fn qm_mul_schoolbook_word(
    x: ((nat, nat), (nat, nat)),
    y: ((nat, nat), (nat, nat)),
) -> ((nat, nat), (nat, nat)) {
    (
        cm_add_word(
            cm_mul_schoolbook_word(x.0, y.0),
            cm_mul_schoolbook_word((2, 1), cm_mul_schoolbook_word(x.1, y.1)),
        ),
        cm_add_word(cm_mul_schoolbook_word(x.0, y.1), cm_mul_schoolbook_word(x.1, y.0)),
    )
}

/// The Karatsuba layout at both levels.
pub open spec fn qm_mul_karatsuba_word(
    x: ((nat, nat), (nat, nat)),
    y: ((nat, nat), (nat, nat)),
) -> ((nat, nat), (nat, nat)) {
    let ac = cm_mul_karatsuba_word(x.0, y.0);
    let bd = cm_mul_karatsuba_word(x.1, y.1);
    let st = cm_mul_karatsuba_word(cm_add_word(x.0, x.1), cm_add_word(y.0, y.1));
    (cm_add_word(ac, cm_mul_r_word(bd)), cm_sub_word(cm_sub_word(st, ac), bd))
}

/// The products of matching coordinates.
pub open spec fn qm_pointwise_mul_word(
    x: ((nat, nat), (nat, nat)),
    y: ((nat, nat), (nat, nat)),
) -> ((nat, nat), (nat, nat)) {
    (
        (field::m31_mul_word(x.0.0, y.0.0), field::m31_mul_word(x.0.1, y.0.1)),
        (field::m31_mul_word(x.1.0, y.1.0), field::m31_mul_word(x.1.1, y.1.1)),
    )
}

/// The words of a sum.
pub open spec fn qm_add_word(
    x: ((nat, nat), (nat, nat)),
    y: ((nat, nat), (nat, nat)),
) -> ((nat, nat), (nat, nat)) {
    (cm_add_word(x.0, y.0), cm_add_word(x.1, y.1))
}

/// The words of a difference.
pub open spec fn qm_sub_word(
    x: ((nat, nat), (nat, nat)),
    y: ((nat, nat), (nat, nat)),
) -> ((nat, nat), (nat, nat)) {
    (cm_sub_word(x.0, y.0), cm_sub_word(x.1, y.1))
}

/// The operations of a CM31 addition.
#[verifier::opaque]
pub open spec fn cm_add_shapes() -> Seq<Shape> {
    field::m31_add_shapes() + field::m31_add_shapes()
}

fn cm_add(c: &mut Circuit, x: &Cm, y: &Cm) -> (r: Cm)
    requires
        old(c).wf(),
        is_cm(*old(c), *x),
        is_cm(*old(c), *y),
    ensures
        final(c).grows(*old(c), 8, 0),
        final(c).adds(*old(c), cm_add_shapes()),
        is_cm(*final(c), r),
        forall|env: Seq<bool>| #[trigger]
            cm_words(*final(c), env, r) == cm_add_word(
                cm_words(*old(c), env, *x),
                cm_words(*old(c), env, *y),
            ),
{
    reveal(cm_add_shapes);
    let re = m31_add(c, &x.re, &y.re);
    let im = m31_add(c, &x.im, &y.im);
    Cm { re, im }
}

/// The operations of a CM31 subtraction.
#[verifier::opaque]
pub open spec fn cm_sub_shapes() -> Seq<Shape> {
    field::m31_sub_shapes() + field::m31_sub_shapes()
}

fn cm_sub(c: &mut Circuit, x: &Cm, y: &Cm) -> (r: Cm)
    requires
        old(c).wf(),
        is_cm(*old(c), *x),
        is_cm(*old(c), *y),
    ensures
        final(c).grows(*old(c), 10, 0),
        final(c).adds(*old(c), cm_sub_shapes()),
        is_cm(*final(c), r),
        forall|env: Seq<bool>| #[trigger]
            cm_words(*final(c), env, r) == cm_sub_word(
                cm_words(*old(c), env, *x),
                cm_words(*old(c), env, *y),
            ),
{
    reveal(cm_sub_shapes);
    let re = m31_sub(c, &x.re, &y.re);
    let im = m31_sub(c, &x.im, &y.im);
    Cm { re, im }
}

/// The operations of a CM31 multiplication with four products.
#[verifier::opaque]
pub open spec fn cm_mul_schoolbook_shapes() -> Seq<Shape> {
    circuit::repeated(field::m31_mul_shapes(), 4) + field::m31_sub_shapes() + field::m31_add_shapes()
}

/// `(a + bi)(c + di)` with four products.
#[verifier::rlimit(30)]
fn cm_mul_schoolbook(c: &mut Circuit, x: &Cm, y: &Cm) -> (r: Cm)
    requires
        old(c).wf(),
        is_cm(*old(c), *x),
        is_cm(*old(c), *y),
    ensures
        final(c).grows(*old(c), 33, 4),
        final(c).adds(*old(c), cm_mul_schoolbook_shapes()),
        is_cm(*final(c), r),
        forall|env: Seq<bool>| #[trigger]
            cm_words(*final(c), env, r) == cm_mul_schoolbook_word(
                cm_words(*old(c), env, *x),
                cm_words(*old(c), env, *y),
            ),
{
    reveal(cm_mul_schoolbook_shapes);
    reveal_with_fuel(circuit::repeated, 5);
    let ghost c0 = *c;
    let ac = m31_mul(c, &x.re, &y.re);
    let bd = m31_mul(c, &x.im, &y.im);
    let ad = m31_mul(c, &x.re, &y.im);
    let bc = m31_mul(c, &x.im, &y.re);
    let ghost c1 = *c;
    let re = m31_sub(c, &ac, &bd);
    let im = m31_add(c, &ad, &bc);
    let r = Cm { re, im };
    proof {
        assert forall|env: Seq<bool>| #[trigger] cm_words(*c, env, r) == cm_mul_schoolbook_word(
            cm_words(c0, env, *x),
            cm_words(c0, env, *y),
        ) by {
            let (xv, yv) = (cm_words(c0, env, *x), cm_words(c0, env, *y));
            assert(c1.word(env, ac) == field::m31_mul_word(xv.0, yv.0));
            assert(c1.word(env, bd) == field::m31_mul_word(xv.1, yv.1));
            assert(c1.word(env, ad) == field::m31_mul_word(xv.0, yv.1));
            assert(c1.word(env, bc) == field::m31_mul_word(xv.1, yv.0));
            assert(c.word(env, re) == field::m31_sub_word(c1.word(env, ac), c1.word(env, bd)));
            assert(c.word(env, im) == field::m31_add_word(c1.word(env, ad), c1.word(env, bc)));
        }
    }
    r
}

/// The operations of a CM31 multiplication with three products.
#[verifier::opaque]
pub open spec fn cm_mul_karatsuba_shapes() -> Seq<Shape> {
    circuit::repeated(field::m31_mul_shapes(), 2) + circuit::repeated(field::m31_add_shapes(), 2) + field::m31_mul_shapes() + circuit::repeated(field::m31_sub_shapes(), 3)
}

/// `(a + bi)(c + di)` with three products.
#[verifier::rlimit(30)]
fn cm_mul_karatsuba(c: &mut Circuit, x: &Cm, y: &Cm) -> (r: Cm)
    requires
        old(c).wf(),
        is_cm(*old(c), *x),
        is_cm(*old(c), *y),
    ensures
        final(c).grows(*old(c), 41, 3),
        final(c).adds(*old(c), cm_mul_karatsuba_shapes()),
        is_cm(*final(c), r),
        forall|env: Seq<bool>| #[trigger]
            cm_words(*final(c), env, r) == cm_mul_karatsuba_word(
                cm_words(*old(c), env, *x),
                cm_words(*old(c), env, *y),
            ),
{
    reveal(cm_mul_karatsuba_shapes);
    reveal_with_fuel(circuit::repeated, 4);
    let ghost c0 = *c;
    let ac = m31_mul(c, &x.re, &y.re);
    let bd = m31_mul(c, &x.im, &y.im);
    let s = m31_add(c, &x.re, &x.im);
    let t = m31_add(c, &y.re, &y.im);
    let ghost c1 = *c;
    let st = m31_mul(c, &s, &t);
    let ghost c2 = *c;
    let cross = m31_sub(c, &st, &ac);
    let ghost c3 = *c;
    let re = m31_sub(c, &ac, &bd);
    let im = m31_sub(c, &cross, &bd);
    let r = Cm { re, im };
    proof {
        assert forall|env: Seq<bool>| #[trigger] cm_words(*c, env, r) == cm_mul_karatsuba_word(
            cm_words(c0, env, *x),
            cm_words(c0, env, *y),
        ) by {
            let (xv, yv) = (cm_words(c0, env, *x), cm_words(c0, env, *y));
            assert(c1.word(env, ac) == field::m31_mul_word(xv.0, yv.0));
            assert(c1.word(env, bd) == field::m31_mul_word(xv.1, yv.1));
            assert(c1.word(env, s) == field::m31_add_word(xv.0, xv.1));
            assert(c1.word(env, t) == field::m31_add_word(yv.0, yv.1));
            assert(c2.word(env, st) == field::m31_mul_word(c1.word(env, s), c1.word(env, t)));
            assert(c2.word(env, ac) == c1.word(env, ac));
            assert(c3.word(env, cross) == field::m31_sub_word(c2.word(env, st), c2.word(env, ac)));
            assert(c3.word(env, ac) == c1.word(env, ac));
            assert(c3.word(env, bd) == c1.word(env, bd));
            assert(c.word(env, re) == field::m31_sub_word(c3.word(env, ac), c3.word(env, bd)));
            assert(c.word(env, im) == field::m31_sub_word(c3.word(env, cross), c3.word(env, bd)));
        }
    }
    r
}

/// The operations of a multiplication by `2 + i`.
#[verifier::opaque]
pub open spec fn cm_mul_r_shapes() -> Seq<Shape> {
    circuit::repeated(field::m31_add_shapes(), 2) + field::m31_sub_shapes() + field::m31_add_shapes()
}

/// `(2 + i)(a + bi) = (2a - b) + (a + 2b)i`, by additions.
fn cm_mul_r(c: &mut Circuit, x: &Cm) -> (r: Cm)
    requires
        old(c).wf(),
        is_cm(*old(c), *x),
    ensures
        final(c).grows(*old(c), 17, 0),
        final(c).adds(*old(c), cm_mul_r_shapes()),
        is_cm(*final(c), r),
        forall|env: Seq<bool>| #[trigger]
            cm_words(*final(c), env, r) == cm_mul_r_word(cm_words(*old(c), env, *x)),
{
    reveal(cm_mul_r_shapes);
    reveal_with_fuel(circuit::repeated, 3);
    let ghost c0 = *c;
    let a2 = m31_add(c, &x.re, &x.re);
    let b2 = m31_add(c, &x.im, &x.im);
    let ghost c1 = *c;
    let re = m31_sub(c, &a2, &x.im);
    let im = m31_add(c, &x.re, &b2);
    let r = Cm { re, im };
    proof {
        assert forall|env: Seq<bool>| #[trigger] cm_words(*c, env, r) == cm_mul_r_word(
            cm_words(c0, env, *x),
        ) by {
            let xv = cm_words(c0, env, *x);
            assert(c1.word(env, a2) == field::m31_add_word(xv.0, xv.0));
            assert(c1.word(env, b2) == field::m31_add_word(xv.1, xv.1));
            assert(c1.word(env, x.re) == xv.0);
            assert(c1.word(env, x.im) == xv.1);
            assert(c.word(env, re) == field::m31_sub_word(c1.word(env, a2), c1.word(env, x.im)));
            assert(c.word(env, im) == field::m31_add_word(c1.word(env, x.re), c1.word(env, b2)));
        }
    }
    r
}

/// The operations of the schoolbook multiplication.
#[verifier::opaque]
pub open spec fn qm_mul_schoolbook_shapes() -> Seq<Shape> {
    circuit::repeated(cm_mul_schoolbook_shapes(), 5) + circuit::repeated(cm_add_shapes(), 2)
}

/// `(A + Bu)(C + Du) = (AC + R*BD) + (AD + BC)u`, where `R*BD` is a general
/// CM31 product.
#[verifier::rlimit(30)]
pub fn qm_mul_schoolbook(c: &mut Circuit, x: &Qm, y: &Qm) -> (r: Qm)
    requires
        old(c).wf(),
        is_qm(*old(c), *x),
        is_qm(*old(c), *y),
    ensures
        final(c).grows(*old(c), 181, 20),
        final(c).adds(*old(c), qm_mul_schoolbook_shapes()),
        is_qm(*final(c), r),
        forall|env: Seq<bool>| #[trigger]
            qm_words(*final(c), env, r) == qm_mul_schoolbook_word(
                qm_words(*old(c), env, *x),
                qm_words(*old(c), env, *y),
            ),
{
    reveal(qm_mul_schoolbook_shapes);
    reveal_with_fuel(circuit::repeated, 6);
    let ghost c0 = *c;
    let k = Cm { re: BigIntWires::new_constant(31, 2), im: BigIntWires::new_constant(31, 1) };
    let ac = cm_mul_schoolbook(c, &x.a, &y.a);
    let ghost c1 = *c;
    let bd = cm_mul_schoolbook(c, &x.b, &y.b);
    let ghost c2 = *c;
    proof {
        bits::lemma_word_powers();
        c2.lemma_constant(k.re, 2, 31);
        c2.lemma_constant(k.im, 1, 31);
    }
    let rbd = cm_mul_schoolbook(c, &k, &bd);
    let ghost c3 = *c;
    let ad = cm_mul_schoolbook(c, &x.a, &y.b);
    let ghost c4 = *c;
    let bc = cm_mul_schoolbook(c, &x.b, &y.a);
    let ghost c5 = *c;
    let a = cm_add(c, &ac, &rbd);
    let ghost c6 = *c;
    let b = cm_add(c, &ad, &bc);
    let r = Qm { a, b };
    proof {
        assert forall|env: Seq<bool>| #[trigger] qm_words(*c, env, r) == qm_mul_schoolbook_word(
            qm_words(c0, env, *x),
            qm_words(c0, env, *y),
        ) by {
            let (xv, yv) = (qm_words(c0, env, *x), qm_words(c0, env, *y));
            assert(cm_words(c1, env, ac) == cm_mul_schoolbook_word(xv.0, yv.0));
            assert(cm_words(c2, env, bd) == cm_mul_schoolbook_word(xv.1, yv.1));
            assert(c2.word(env, k.re) == 2);
            assert(c2.word(env, k.im) == 1);
            assert(cm_words(c2, env, k) == (2nat, 1nat));
            assert(cm_words(c3, env, rbd) == cm_mul_schoolbook_word(
                (2, 1),
                cm_words(c2, env, bd),
            ));
            assert(cm_words(c4, env, ad) == cm_mul_schoolbook_word(xv.0, yv.1));
            assert(cm_words(c5, env, bc) == cm_mul_schoolbook_word(xv.1, yv.0));
            assert(cm_words(c5, env, ac) == cm_words(c1, env, ac));
            assert(cm_words(c5, env, rbd) == cm_words(c3, env, rbd));
            assert(cm_words(c6, env, a) == cm_add_word(
                cm_words(c5, env, ac),
                cm_words(c5, env, rbd),
            ));
            assert(cm_words(c6, env, ad) == cm_words(c4, env, ad));
            assert(cm_words(c6, env, bc) == cm_words(c5, env, bc));
            assert(cm_words(*c, env, a) == cm_words(c6, env, a));
            assert(cm_words(*c, env, b) == cm_add_word(
                cm_words(c6, env, ad),
                cm_words(c6, env, bc),
            ));
        }
    }
    r
}

/// The operations of the Karatsuba multiplication.
#[verifier::opaque]
pub open spec fn qm_mul_karatsuba_shapes() -> Seq<Shape> {
    circuit::repeated(cm_mul_karatsuba_shapes(), 2) + circuit::repeated(cm_add_shapes(), 2)
        + cm_mul_karatsuba_shapes() + cm_mul_r_shapes() + cm_sub_shapes() + cm_add_shapes()
        + cm_sub_shapes()
}

/// Karatsuba at both levels; `R` applied by additions.
#[verifier::rlimit(30)]
pub fn qm_mul_karatsuba(c: &mut Circuit, x: &Qm, y: &Qm) -> (r: Qm)
    requires
        old(c).wf(),
        is_qm(*old(c), *x),
        is_qm(*old(c), *y),
    ensures
        final(c).grows(*old(c), 184, 9),
        final(c).adds(*old(c), qm_mul_karatsuba_shapes()),
        is_qm(*final(c), r),
        forall|env: Seq<bool>| #[trigger]
            qm_words(*final(c), env, r) == qm_mul_karatsuba_word(
                qm_words(*old(c), env, *x),
                qm_words(*old(c), env, *y),
            ),
{
    reveal(qm_mul_karatsuba_shapes);
    reveal_with_fuel(circuit::repeated, 3);
    let ghost c0 = *c;
    let ac = cm_mul_karatsuba(c, &x.a, &y.a);
    let ghost c1 = *c;
    let bd = cm_mul_karatsuba(c, &x.b, &y.b);
    let ghost c2 = *c;
    let s = cm_add(c, &x.a, &x.b);
    let ghost c3 = *c;
    let t = cm_add(c, &y.a, &y.b);
    let ghost c4 = *c;
    let st = cm_mul_karatsuba(c, &s, &t);
    let ghost c5 = *c;
    let rbd = cm_mul_r(c, &bd);
    let ghost c6 = *c;
    let mid = cm_sub(c, &st, &ac);
    let ghost c7 = *c;
    let a = cm_add(c, &ac, &rbd);
    let ghost c8 = *c;
    let b = cm_sub(c, &mid, &bd);
    let r = Qm { a, b };
    proof {
        assert forall|env: Seq<bool>| #[trigger] qm_words(*c, env, r) == qm_mul_karatsuba_word(
            qm_words(c0, env, *x),
            qm_words(c0, env, *y),
        ) by {
            let (xv, yv) = (qm_words(c0, env, *x), qm_words(c0, env, *y));
            assert(cm_words(c1, env, ac) == cm_mul_karatsuba_word(xv.0, yv.0));
            assert(cm_words(c2, env, bd) == cm_mul_karatsuba_word(xv.1, yv.1));
            assert(cm_words(c3, env, s) == cm_add_word(xv.0, xv.1));
            assert(cm_words(c4, env, t) == cm_add_word(yv.0, yv.1));
            assert(cm_words(c4, env, s) == cm_words(c3, env, s));
            assert(cm_words(c5, env, st) == cm_mul_karatsuba_word(
                cm_words(c4, env, s),
                cm_words(c4, env, t),
            ));
            assert(cm_words(c5, env, bd) == cm_words(c2, env, bd));
            assert(cm_words(c6, env, rbd) == cm_mul_r_word(cm_words(c5, env, bd)));
            assert(cm_words(c6, env, st) == cm_words(c5, env, st));
            assert(cm_words(c6, env, ac) == cm_words(c1, env, ac));
            assert(cm_words(c7, env, mid) == cm_sub_word(
                cm_words(c6, env, st),
                cm_words(c6, env, ac),
            ));
            assert(cm_words(c7, env, ac) == cm_words(c1, env, ac));
            assert(cm_words(c7, env, rbd) == cm_words(c6, env, rbd));
            assert(cm_words(c8, env, a) == cm_add_word(
                cm_words(c7, env, ac),
                cm_words(c7, env, rbd),
            ));
            assert(cm_words(c8, env, mid) == cm_words(c7, env, mid));
            assert(cm_words(c8, env, bd) == cm_words(c2, env, bd));
            assert(cm_words(*c, env, a) == cm_words(c8, env, a));
            assert(cm_words(*c, env, b) == cm_sub_word(
                cm_words(c8, env, mid),
                cm_words(c8, env, bd),
            ));
        }
    }
    r
}

/// The operations of the products of matching coordinates.
#[verifier::opaque]
pub open spec fn qm_pointwise_mul_shapes() -> Seq<Shape> {
    circuit::repeated(field::m31_mul_shapes(), 4)
}

/// The four products of matching coordinates.
pub fn qm_pointwise_mul(c: &mut Circuit, x: &Qm, y: &Qm) -> (r: Qm)
    requires
        old(c).wf(),
        is_qm(*old(c), *x),
        is_qm(*old(c), *y),
    ensures
        final(c).grows(*old(c), 24, 4),
        final(c).adds(*old(c), qm_pointwise_mul_shapes()),
        is_qm(*final(c), r),
        forall|env: Seq<bool>| #[trigger]
            qm_words(*final(c), env, r) == qm_pointwise_mul_word(
                qm_words(*old(c), env, *x),
                qm_words(*old(c), env, *y),
            ),
{
    reveal(qm_pointwise_mul_shapes);
    reveal_with_fuel(circuit::repeated, 5);
    let r0 = m31_mul(c, &x.a.re, &y.a.re);
    let r1 = m31_mul(c, &x.a.im, &y.a.im);
    let r2 = m31_mul(c, &x.b.re, &y.b.re);
    let r3 = m31_mul(c, &x.b.im, &y.b.im);
    Qm { a: Cm { re: r0, im: r1 }, b: Cm { re: r2, im: r3 } }
}

/// The operations of the addition.
#[verifier::opaque]
pub open spec fn qm_add_shapes() -> Seq<Shape> {
    circuit::repeated(field::m31_add_shapes(), 4)
}

/// The sum, coordinate by coordinate.
pub fn qm_add(c: &mut Circuit, x: &Qm, y: &Qm) -> (r: Qm)
    requires
        old(c).wf(),
        is_qm(*old(c), *x),
        is_qm(*old(c), *y),
    ensures
        final(c).grows(*old(c), 16, 0),
        final(c).adds(*old(c), qm_add_shapes()),
        is_qm(*final(c), r),
        forall|env: Seq<bool>| #[trigger]
            qm_words(*final(c), env, r) == qm_add_word(
                qm_words(*old(c), env, *x),
                qm_words(*old(c), env, *y),
            ),
{
    reveal(qm_add_shapes);
    reveal(cm_add_shapes);
    reveal_with_fuel(circuit::repeated, 5);
    let ghost c0 = *c;
    let a = cm_add(c, &x.a, &y.a);
    let ghost c1 = *c;
    let b = cm_add(c, &x.b, &y.b);
    let r = Qm { a, b };
    proof {
        assert forall|env: Seq<bool>| #[trigger] qm_words(*c, env, r) == qm_add_word(
            qm_words(c0, env, *x),
            qm_words(c0, env, *y),
        ) by {
            assert(cm_words(c1, env, a) == cm_words(*c, env, a));
            assert(cm_words(c1, env, x.b) == cm_words(c0, env, x.b));
            assert(cm_words(c1, env, y.b) == cm_words(c0, env, y.b));
            assert(cm_words(*c, env, b) == cm_add_word(
                cm_words(c1, env, x.b),
                cm_words(c1, env, y.b),
            ));
        }
    }
    r
}

/// The operations of the subtraction.
#[verifier::opaque]
pub open spec fn qm_sub_shapes() -> Seq<Shape> {
    circuit::repeated(field::m31_sub_shapes(), 4)
}

/// The difference, coordinate by coordinate.
pub fn qm_sub(c: &mut Circuit, x: &Qm, y: &Qm) -> (r: Qm)
    requires
        old(c).wf(),
        is_qm(*old(c), *x),
        is_qm(*old(c), *y),
    ensures
        final(c).grows(*old(c), 20, 0),
        final(c).adds(*old(c), qm_sub_shapes()),
        is_qm(*final(c), r),
        forall|env: Seq<bool>| #[trigger]
            qm_words(*final(c), env, r) == qm_sub_word(
                qm_words(*old(c), env, *x),
                qm_words(*old(c), env, *y),
            ),
{
    reveal(qm_sub_shapes);
    reveal(cm_sub_shapes);
    reveal_with_fuel(circuit::repeated, 5);
    let ghost c0 = *c;
    let a = cm_sub(c, &x.a, &y.a);
    let ghost c1 = *c;
    let b = cm_sub(c, &x.b, &y.b);
    let r = Qm { a, b };
    proof {
        assert forall|env: Seq<bool>| #[trigger] qm_words(*c, env, r) == qm_sub_word(
            qm_words(c0, env, *x),
            qm_words(c0, env, *y),
        ) by {
            assert(cm_words(c1, env, a) == cm_words(*c, env, a));
            assert(cm_words(c1, env, x.b) == cm_words(c0, env, x.b));
            assert(cm_words(c1, env, y.b) == cm_words(c0, env, y.b));
            assert(cm_words(*c, env, b) == cm_sub_word(
                cm_words(c1, env, x.b),
                cm_words(c1, env, y.b),
            ));
        }
    }
    r
}

/// Multiplication of complex numbers with integer coordinates.
pub open spec fn complex_mul(x: (int, int), y: (int, int)) -> (int, int) {
    (x.0 * y.0 - x.1 * y.1, x.0 * y.1 + x.1 * y.0)
}

/// Both coordinates modulo `2^31 - 1`.
pub open spec fn cm_mod(v: (int, int)) -> (nat, nat) {
    ((v.0 % (M31_P as int)) as nat, (v.1 % (M31_P as int)) as nat)
}

/// The product in CM31.
pub open spec fn cm_product(x: (nat, nat), y: (nat, nat)) -> (nat, nat) {
    cm_mod(complex_mul((x.0 as int, x.1 as int), (y.0 as int, y.1 as int)))
}

/// The product in QM31: `(A + Bu)(C + Du) = (AC + (2 + i)BD) + (AD + BC)u`.
pub open spec fn qm_product(
    x: ((nat, nat), (nat, nat)),
    y: ((nat, nat), (nat, nat)),
) -> ((nat, nat), (nat, nat)) {
    let (a, b) = ((x.0.0 as int, x.0.1 as int), (x.1.0 as int, x.1.1 as int));
    let (c, d) = ((y.0.0 as int, y.0.1 as int), (y.1.0 as int, y.1.1 as int));
    let (ac, bd) = (complex_mul(a, c), complex_mul(b, d));
    let (ad, bc) = (complex_mul(a, d), complex_mul(b, c));
    let rbd = complex_mul((2, 1), bd);
    (cm_mod((ac.0 + rbd.0, ac.1 + rbd.1)), cm_mod((ad.0 + bc.0, ad.1 + bc.1)))
}

/// The sum in QM31.
pub open spec fn qm_sum(
    x: ((nat, nat), (nat, nat)),
    y: ((nat, nat), (nat, nat)),
) -> ((nat, nat), (nat, nat)) {
    (
        cm_mod(((x.0.0 + y.0.0) as int, (x.0.1 + y.0.1) as int)),
        cm_mod(((x.1.0 + y.1.0) as int, (x.1.1 + y.1.1) as int)),
    )
}

/// The difference in QM31.
pub open spec fn qm_difference(
    x: ((nat, nat), (nat, nat)),
    y: ((nat, nat), (nat, nat)),
) -> ((nat, nat), (nat, nat)) {
    (cm_mod((x.0.0 - y.0.0, x.0.1 - y.0.1)), cm_mod((x.1.0 - y.1.0, x.1.1 - y.1.1)))
}

/// The products of matching coordinates in M31.
pub open spec fn qm_pointwise_product(
    x: ((nat, nat), (nat, nat)),
    y: ((nat, nat), (nat, nat)),
) -> ((nat, nat), (nat, nat)) {
    (
        cm_mod(((x.0.0 * y.0.0) as int, (x.0.1 * y.0.1) as int)),
        cm_mod(((x.1.0 * y.1.0) as int, (x.1.1 * y.1.1) as int)),
    )
}

/// Coordinates below `2^31 - 1`.
pub open spec fn cm_reduced(x: (nat, nat)) -> bool {
    x.0 < M31_P && x.1 < M31_P
}

/// Coordinates below `2^31 - 1`.
pub open spec fn qm_reduced(x: ((nat, nat), (nat, nat))) -> bool {
    cm_reduced(x.0) && cm_reduced(x.1)
}

/// Whether a reduced word represents an integer modulo `2^31 - 1`.
spec fn stands_for(w: nat, v: int) -> bool {
    w < M31_P && w == v % (M31_P as int)
}

spec fn cm_stands_for(w: (nat, nat), v: (int, int)) -> bool {
    stands_for(w.0, v.0) && stands_for(w.1, v.1)
}

proof fn lemma_mul_stands(w1: nat, v1: int, w2: nat, v2: int)
    requires
        stands_for(w1, v1),
        stands_for(w2, v2),
    ensures
        stands_for(field::m31_mul_word(w1, w2), v1 * v2),
{
    lemma_mul_mod_noop(v1, v2, M31_P as int);
}

proof fn lemma_add_stands(w1: nat, v1: int, w2: nat, v2: int)
    requires
        stands_for(w1, v1),
        stands_for(w2, v2),
    ensures
        stands_for(field::m31_add_word(w1, w2), v1 + v2),
{
    lemma_add_mod_noop(v1, v2, M31_P as int);
    crate::montgomery::law_m31(w1, w2);
}

proof fn lemma_sub_stands(w1: nat, v1: int, w2: nat, v2: int)
    requires
        stands_for(w1, v1),
        stands_for(w2, v2),
    ensures
        stands_for(field::m31_sub_word(w1, w2), v1 - v2),
{
    lemma_sub_mod_noop(v1, v2, M31_P as int);
    crate::montgomery::law_m31(w1, w2);
    lemma_mod_add_multiples_vanish(w1 - w2, M31_P as int);
}

proof fn lemma_cm_add_stands(x: (nat, nat), xv: (int, int), y: (nat, nat), yv: (int, int))
    requires
        cm_stands_for(x, xv),
        cm_stands_for(y, yv),
    ensures
        cm_stands_for(cm_add_word(x, y), (xv.0 + yv.0, xv.1 + yv.1)),
{
    lemma_add_stands(x.0, xv.0, y.0, yv.0);
    lemma_add_stands(x.1, xv.1, y.1, yv.1);
}

proof fn lemma_cm_sub_stands(x: (nat, nat), xv: (int, int), y: (nat, nat), yv: (int, int))
    requires
        cm_stands_for(x, xv),
        cm_stands_for(y, yv),
    ensures
        cm_stands_for(cm_sub_word(x, y), (xv.0 - yv.0, xv.1 - yv.1)),
{
    lemma_sub_stands(x.0, xv.0, y.0, yv.0);
    lemma_sub_stands(x.1, xv.1, y.1, yv.1);
}

proof fn lemma_schoolbook_stands(x: (nat, nat), xv: (int, int), y: (nat, nat), yv: (int, int))
    requires
        cm_stands_for(x, xv),
        cm_stands_for(y, yv),
    ensures
        cm_stands_for(cm_mul_schoolbook_word(x, y), complex_mul(xv, yv)),
{
    lemma_mul_stands(x.0, xv.0, y.0, yv.0);
    lemma_mul_stands(x.1, xv.1, y.1, yv.1);
    lemma_mul_stands(x.0, xv.0, y.1, yv.1);
    lemma_mul_stands(x.1, xv.1, y.0, yv.0);
    let (ac, bd) = (field::m31_mul_word(x.0, y.0), field::m31_mul_word(x.1, y.1));
    let (ad, bc) = (field::m31_mul_word(x.0, y.1), field::m31_mul_word(x.1, y.0));
    lemma_sub_stands(ac, xv.0 * yv.0, bd, xv.1 * yv.1);
    lemma_add_stands(ad, xv.0 * yv.1, bc, xv.1 * yv.0);
}

proof fn lemma_karatsuba_stands(x: (nat, nat), xv: (int, int), y: (nat, nat), yv: (int, int))
    requires
        cm_stands_for(x, xv),
        cm_stands_for(y, yv),
    ensures
        cm_stands_for(cm_mul_karatsuba_word(x, y), complex_mul(xv, yv)),
{
    lemma_mul_stands(x.0, xv.0, y.0, yv.0);
    lemma_mul_stands(x.1, xv.1, y.1, yv.1);
    lemma_add_stands(x.0, xv.0, x.1, xv.1);
    lemma_add_stands(y.0, yv.0, y.1, yv.1);
    let (s, t) = (field::m31_add_word(x.0, x.1), field::m31_add_word(y.0, y.1));
    let (ac, bd) = (field::m31_mul_word(x.0, y.0), field::m31_mul_word(x.1, y.1));
    let st = field::m31_mul_word(s, t);
    let (acv, bdv) = (xv.0 * yv.0, xv.1 * yv.1);
    let stv = (xv.0 + xv.1) * (yv.0 + yv.1);
    lemma_mul_stands(s, xv.0 + xv.1, t, yv.0 + yv.1);
    lemma_sub_stands(ac, acv, bd, bdv);
    lemma_sub_stands(st, stv, ac, acv);
    lemma_sub_stands(field::m31_sub_word(st, ac), stv - acv, bd, bdv);
    assert(stv - acv - bdv == xv.0 * yv.1 + xv.1 * yv.0) by (nonlinear_arith)
        requires
            stv == (xv.0 + xv.1) * (yv.0 + yv.1),
            acv == xv.0 * yv.0,
            bdv == xv.1 * yv.1,
    ;
}

proof fn lemma_mul_r_stands(x: (nat, nat), xv: (int, int))
    requires
        cm_stands_for(x, xv),
    ensures
        cm_stands_for(cm_mul_r_word(x), complex_mul((2, 1), xv)),
{
    lemma_add_stands(x.0, xv.0, x.0, xv.0);
    lemma_add_stands(x.1, xv.1, x.1, xv.1);
    lemma_sub_stands(field::m31_add_word(x.0, x.0), xv.0 + xv.0, x.1, xv.1);
    lemma_add_stands(x.0, xv.0, field::m31_add_word(x.1, x.1), xv.1 + xv.1);
}

/// On reduced operands both CM31 layouts give the product in CM31.
pub proof fn law_cm_layouts(x: (nat, nat), y: (nat, nat))
    requires
        cm_reduced(x),
        cm_reduced(y),
    ensures
        cm_mul_schoolbook_word(x, y) == cm_product(x, y),
        cm_mul_karatsuba_word(x, y) == cm_product(x, y),
{
    let (xv, yv) = ((x.0 as int, x.1 as int), (y.0 as int, y.1 as int));
    lemma_schoolbook_stands(x, xv, y, yv);
    lemma_karatsuba_stands(x, xv, y, yv);
}

/// On reduced operands both QM31 layouts give the product in QM31.
pub proof fn law_qm_layouts(x: ((nat, nat), (nat, nat)), y: ((nat, nat), (nat, nat)))
    requires
        qm_reduced(x),
        qm_reduced(y),
    ensures
        qm_mul_schoolbook_word(x, y) == qm_product(x, y),
        qm_mul_karatsuba_word(x, y) == qm_product(x, y),
        qm_reduced(qm_product(x, y)),
{
    let (a, b) = ((x.0.0 as int, x.0.1 as int), (x.1.0 as int, x.1.1 as int));
    let (c, d) = ((y.0.0 as int, y.0.1 as int), (y.1.0 as int, y.1.1 as int));
    let (ac, bd) = (complex_mul(a, c), complex_mul(b, d));
    let (ad, bc) = (complex_mul(a, d), complex_mul(b, c));
    let rbd = complex_mul((2, 1), bd);
    // Schoolbook.
    lemma_schoolbook_stands(x.0, a, y.0, c);
    lemma_schoolbook_stands(x.1, b, y.1, d);
    lemma_schoolbook_stands(x.0, a, y.1, d);
    lemma_schoolbook_stands(x.1, b, y.0, c);
    lemma_schoolbook_stands((2, 1), (2, 1), cm_mul_schoolbook_word(x.1, y.1), bd);
    lemma_cm_add_stands(
        cm_mul_schoolbook_word(x.0, y.0),
        ac,
        cm_mul_schoolbook_word((2, 1), cm_mul_schoolbook_word(x.1, y.1)),
        rbd,
    );
    lemma_cm_add_stands(
        cm_mul_schoolbook_word(x.0, y.1),
        ad,
        cm_mul_schoolbook_word(x.1, y.0),
        bc,
    );
    // Karatsuba.
    let (s, t) = (cm_add_word(x.0, x.1), cm_add_word(y.0, y.1));
    let (sv, tv) = ((a.0 + b.0, a.1 + b.1), (c.0 + d.0, c.1 + d.1));
    let stv = complex_mul(sv, tv);
    let (acw, bdw) = (cm_mul_karatsuba_word(x.0, y.0), cm_mul_karatsuba_word(x.1, y.1));
    let stw = cm_mul_karatsuba_word(s, t);
    lemma_cm_add_stands(x.0, a, x.1, b);
    lemma_cm_add_stands(y.0, c, y.1, d);
    lemma_karatsuba_stands(x.0, a, y.0, c);
    lemma_karatsuba_stands(x.1, b, y.1, d);
    lemma_karatsuba_stands(s, sv, t, tv);
    lemma_mul_r_stands(bdw, bd);
    lemma_cm_add_stands(acw, ac, cm_mul_r_word(bdw), rbd);
    lemma_cm_sub_stands(stw, stv, acw, ac);
    lemma_cm_sub_stands(cm_sub_word(stw, acw), (stv.0 - ac.0, stv.1 - ac.1), bdw, bd);
    lemma_cross_terms(a, b, c, d);
}

/// `(a + b)(c + d) - ac - bd = ad + bc`.
proof fn lemma_cross_terms(a: (int, int), b: (int, int), c: (int, int), d: (int, int))
    ensures
        ({
            let st = complex_mul((a.0 + b.0, a.1 + b.1), (c.0 + d.0, c.1 + d.1));
            let (ac, bd) = (complex_mul(a, c), complex_mul(b, d));
            let (ad, bc) = (complex_mul(a, d), complex_mul(b, c));
            &&& st.0 - ac.0 - bd.0 == ad.0 + bc.0
            &&& st.1 - ac.1 - bd.1 == ad.1 + bc.1
        }),
{
    lemma_expand(a.0, b.0, c.0, d.0);
    lemma_expand(a.1, b.1, c.1, d.1);
    lemma_expand(a.0, b.0, c.1, d.1);
    lemma_expand(a.1, b.1, c.0, d.0);
}

proof fn lemma_expand(a: int, b: int, c: int, d: int)
    ensures
        (a + b) * (c + d) == a * c + a * d + b * c + b * d,
{
    assert((a + b) * (c + d) == a * c + a * d + b * c + b * d) by (nonlinear_arith);
}

/// On reduced operands sums, differences and pointwise products are those of
/// the coordinates modulo `2^31 - 1`.
pub proof fn law_qm_coordinatewise(x: ((nat, nat), (nat, nat)), y: ((nat, nat), (nat, nat)))
    requires
        qm_reduced(x),
        qm_reduced(y),
    ensures
        qm_add_word(x, y) == qm_sum(x, y),
        qm_sub_word(x, y) == qm_difference(x, y),
        qm_pointwise_mul_word(x, y) == qm_pointwise_product(x, y),
        qm_reduced(qm_sum(x, y)),
        qm_reduced(qm_difference(x, y)),
        qm_reduced(qm_pointwise_product(x, y)),
{
    let (a, b) = ((x.0.0 as int, x.0.1 as int), (x.1.0 as int, x.1.1 as int));
    let (c, d) = ((y.0.0 as int, y.0.1 as int), (y.1.0 as int, y.1.1 as int));
    lemma_cm_add_stands(x.0, a, y.0, c);
    lemma_cm_add_stands(x.1, b, y.1, d);
    lemma_cm_sub_stands(x.0, a, y.0, c);
    lemma_cm_sub_stands(x.1, b, y.1, d);
}

/// The product of QM31 elements with integer coordinates.
spec fn qm_exact(x: ((int, int), (int, int)), y: ((int, int), (int, int))) -> (
    (int, int),
    (int, int),
) {
    let (ac, bd) = (complex_mul(x.0, y.0), complex_mul(x.1, y.1));
    let (ad, bc) = (complex_mul(x.0, y.1), complex_mul(x.1, y.0));
    let rbd = complex_mul((2, 1), bd);
    ((ac.0 + rbd.0, ac.1 + rbd.1), (ad.0 + bc.0, ad.1 + bc.1))
}

spec fn qm_stands_for(w: ((nat, nat), (nat, nat)), v: ((int, int), (int, int))) -> bool {
    cm_stands_for(w.0, v.0) && cm_stands_for(w.1, v.1)
}

/// The coordinates as integers.
spec fn qm_int(x: ((nat, nat), (nat, nat))) -> ((int, int), (int, int)) {
    ((x.0.0 as int, x.0.1 as int), (x.1.0 as int, x.1.1 as int))
}

/// The product depends on what the operands stand for alone.
proof fn lemma_qm_product_stands(
    x: ((nat, nat), (nat, nat)),
    xv: ((int, int), (int, int)),
    y: ((nat, nat), (nat, nat)),
    yv: ((int, int), (int, int)),
)
    requires
        qm_stands_for(x, xv),
        qm_stands_for(y, yv),
    ensures
        qm_stands_for(qm_product(x, y), qm_exact(xv, yv)),
{
    law_qm_layouts(x, y);
    let (a, b, c, d) = (xv.0, xv.1, yv.0, yv.1);
    let bd = cm_mul_schoolbook_word(x.1, y.1);
    lemma_schoolbook_stands(x.0, a, y.0, c);
    lemma_schoolbook_stands(x.1, b, y.1, d);
    lemma_schoolbook_stands(x.0, a, y.1, d);
    lemma_schoolbook_stands(x.1, b, y.0, c);
    lemma_schoolbook_stands((2, 1), (2, 1), bd, complex_mul(b, d));
    lemma_cm_add_stands(
        cm_mul_schoolbook_word(x.0, y.0),
        complex_mul(a, c),
        cm_mul_schoolbook_word((2, 1), bd),
        complex_mul((2, 1), complex_mul(b, d)),
    );
    lemma_cm_add_stands(
        cm_mul_schoolbook_word(x.0, y.1),
        complex_mul(a, d),
        cm_mul_schoolbook_word(x.1, y.0),
        complex_mul(b, c),
    );
}

/// A sum stands for the sum of what the summands stand for.
proof fn lemma_qm_sum_stands(
    x: ((nat, nat), (nat, nat)),
    xv: ((int, int), (int, int)),
    y: ((nat, nat), (nat, nat)),
    yv: ((int, int), (int, int)),
)
    requires
        qm_stands_for(x, xv),
        qm_stands_for(y, yv),
    ensures
        qm_stands_for(
            qm_sum(x, y),
            ((xv.0.0 + yv.0.0, xv.0.1 + yv.0.1), (xv.1.0 + yv.1.0, xv.1.1 + yv.1.1)),
        ),
{
    let p = M31_P as int;
    lemma_add_mod_noop(xv.0.0, yv.0.0, p);
    lemma_add_mod_noop(xv.0.1, yv.0.1, p);
    lemma_add_mod_noop(xv.1.0, yv.1.0, p);
    lemma_add_mod_noop(xv.1.1, yv.1.1, p);
}

/// Complex multiplication is associative.
proof fn lemma_complex_assoc(x: (int, int), y: (int, int), z: (int, int))
    ensures
        complex_mul(complex_mul(x, y), z) == complex_mul(x, complex_mul(y, z)),
{
    let (a, b, c, d, e, f) = (x.0, x.1, y.0, y.1, z.0, z.1);
    lemma_mul_is_distributive_sub_other_way(e, a * c, b * d);
    lemma_mul_is_distributive_sub_other_way(f, a * c, b * d);
    lemma_mul_is_distributive_add_other_way(e, a * d, b * c);
    lemma_mul_is_distributive_add_other_way(f, a * d, b * c);
    lemma_mul_is_distributive_sub(a, c * e, d * f);
    lemma_mul_is_distributive_sub(b, c * e, d * f);
    lemma_mul_is_distributive_add(a, c * f, d * e);
    lemma_mul_is_distributive_add(b, c * f, d * e);
    lemma_mul_is_associative(a, c, e);
    lemma_mul_is_associative(a, c, f);
    lemma_mul_is_associative(a, d, e);
    lemma_mul_is_associative(a, d, f);
    lemma_mul_is_associative(b, c, e);
    lemma_mul_is_associative(b, c, f);
    lemma_mul_is_associative(b, d, e);
    lemma_mul_is_associative(b, d, f);
}

/// Complex multiplication is commutative.
proof fn lemma_complex_comm(x: (int, int), y: (int, int))
    ensures
        complex_mul(x, y) == complex_mul(y, x),
{
    lemma_mul_is_commutative(x.0, y.0);
    lemma_mul_is_commutative(x.1, y.1);
    lemma_mul_is_commutative(x.0, y.1);
    lemma_mul_is_commutative(x.1, y.0);
}

spec fn complex_add(x: (int, int), y: (int, int)) -> (int, int) {
    (x.0 + y.0, x.1 + y.1)
}

/// Complex multiplication distributes over addition.
proof fn lemma_complex_dist(x: (int, int), y: (int, int), z: (int, int))
    ensures
        complex_mul(x, complex_add(y, z)) == complex_add(complex_mul(x, y), complex_mul(x, z)),
        complex_mul(complex_add(y, z), x) == complex_add(complex_mul(y, x), complex_mul(z, x)),
{
    lemma_mul_is_distributive_add(x.0, y.0, z.0);
    lemma_mul_is_distributive_add(x.1, y.1, z.1);
    lemma_mul_is_distributive_add(x.0, y.1, z.1);
    lemma_mul_is_distributive_add(x.1, y.0, z.0);
    lemma_complex_comm(complex_add(y, z), x);
    lemma_complex_comm(y, x);
    lemma_complex_comm(z, x);
}

/// Multiplication with integer coordinates is associative.
proof fn lemma_exact_assoc(
    x: ((int, int), (int, int)),
    y: ((int, int), (int, int)),
    z: ((int, int), (int, int)),
)
    ensures
        qm_exact(qm_exact(x, y), z) == qm_exact(x, qm_exact(y, z)),
{
    let r = (2int, 1int);
    let (a, b, c, d, e, f) = (x.0, x.1, y.0, y.1, z.0, z.1);
    let (bd, ac, ad, bc) = (
        complex_mul(b, d),
        complex_mul(a, c),
        complex_mul(a, d),
        complex_mul(b, c),
    );
    let (df, ce, cf, de) = (
        complex_mul(d, f),
        complex_mul(c, e),
        complex_mul(c, f),
        complex_mul(d, e),
    );
    let (rbd, rdf) = (complex_mul(r, bd), complex_mul(r, df));
    // The triple products, with `r` outermost.
    lemma_complex_assoc(a, c, e);
    lemma_complex_assoc(a, c, f);
    lemma_complex_assoc(a, d, e);
    lemma_complex_assoc(a, d, f);
    lemma_complex_assoc(b, c, e);
    lemma_complex_assoc(b, c, f);
    lemma_complex_assoc(b, d, e);
    lemma_complex_assoc(b, d, f);
    lemma_complex_assoc(r, bd, e);
    lemma_complex_assoc(r, bd, f);
    lemma_complex_assoc(a, r, df);
    lemma_complex_assoc(r, a, df);
    lemma_complex_comm(a, r);
    lemma_complex_assoc(b, r, df);
    lemma_complex_assoc(r, b, df);
    lemma_complex_comm(b, r);
    // The sums.
    lemma_complex_dist(e, ac, rbd);
    lemma_complex_dist(f, ac, rbd);
    lemma_complex_dist(e, ad, bc);
    lemma_complex_dist(f, ad, bc);
    lemma_complex_dist(a, ce, rdf);
    lemma_complex_dist(b, ce, rdf);
    lemma_complex_dist(a, cf, de);
    lemma_complex_dist(b, cf, de);
    lemma_complex_dist(r, complex_mul(ad, f), complex_mul(bc, f));
    lemma_complex_dist(r, complex_mul(b, cf), complex_mul(b, de));
}

/// Reduced coordinates stand for themselves.
proof fn lemma_qm_stands_itself(x: ((nat, nat), (nat, nat)))
    requires
        qm_reduced(x),
    ensures
        qm_stands_for(x, qm_int(x)),
{
    lemma_small_mod(x.0.0, M31_P as nat);
    lemma_small_mod(x.0.1, M31_P as nat);
    lemma_small_mod(x.1.0, M31_P as nat);
    lemma_small_mod(x.1.1, M31_P as nat);
}

proof fn lemma_qm_comm(x: ((nat, nat), (nat, nat)), y: ((nat, nat), (nat, nat)))
    ensures
        qm_product(x, y) == qm_product(y, x),
{
    let (xv, yv) = (qm_int(x), qm_int(y));
    lemma_complex_comm(xv.0, yv.0);
    lemma_complex_comm(xv.1, yv.1);
    lemma_complex_comm(xv.0, yv.1);
    lemma_complex_comm(xv.1, yv.0);
}

proof fn lemma_qm_assoc(
    x: ((nat, nat), (nat, nat)),
    y: ((nat, nat), (nat, nat)),
    z: ((nat, nat), (nat, nat)),
)
    requires
        qm_reduced(x),
        qm_reduced(y),
        qm_reduced(z),
    ensures
        qm_product(qm_product(x, y), z) == qm_product(x, qm_product(y, z)),
{
    let (xv, yv, zv) = (qm_int(x), qm_int(y), qm_int(z));
    lemma_qm_stands_itself(x);
    lemma_qm_stands_itself(y);
    lemma_qm_stands_itself(z);
    lemma_qm_product_stands(x, xv, y, yv);
    lemma_qm_product_stands(y, yv, z, zv);
    lemma_qm_product_stands(qm_product(x, y), qm_exact(xv, yv), z, zv);
    lemma_qm_product_stands(x, xv, qm_product(y, z), qm_exact(yv, zv));
    lemma_exact_assoc(xv, yv, zv);
}

proof fn lemma_qm_dist(
    x: ((nat, nat), (nat, nat)),
    y: ((nat, nat), (nat, nat)),
    z: ((nat, nat), (nat, nat)),
)
    requires
        qm_reduced(x),
        qm_reduced(y),
        qm_reduced(z),
    ensures
        qm_product(x, qm_sum(y, z)) == qm_sum(qm_product(x, y), qm_product(x, z)),
{
    let (xv, yv, zv) = (qm_int(x), qm_int(y), qm_int(z));
    let sum = (complex_add(yv.0, zv.0), complex_add(yv.1, zv.1));
    lemma_qm_stands_itself(x);
    lemma_qm_stands_itself(y);
    lemma_qm_stands_itself(z);
    lemma_qm_product_stands(x, xv, y, yv);
    lemma_qm_product_stands(x, xv, z, zv);
    lemma_qm_sum_stands(y, yv, z, zv);
    lemma_qm_product_stands(x, xv, qm_sum(y, z), sum);
    lemma_qm_sum_stands(qm_product(x, y), qm_exact(xv, yv), qm_product(x, z), qm_exact(xv, zv));
    lemma_exact_dist(xv, yv, zv);
}

/// Multiplication with integer coordinates distributes over addition.
proof fn lemma_exact_dist(
    x: ((int, int), (int, int)),
    y: ((int, int), (int, int)),
    z: ((int, int), (int, int)),
)
    ensures
        qm_exact(x, (complex_add(y.0, z.0), complex_add(y.1, z.1))) == (
            complex_add(qm_exact(x, y).0, qm_exact(x, z).0),
            complex_add(qm_exact(x, y).1, qm_exact(x, z).1),
        ),
{
    lemma_complex_dist(x.0, y.0, z.0);
    lemma_complex_dist(x.0, y.1, z.1);
    lemma_complex_dist(x.1, y.0, z.0);
    lemma_complex_dist(x.1, y.1, z.1);
    lemma_complex_dist((2, 1), complex_mul(x.1, y.1), complex_mul(x.1, z.1));
}

proof fn lemma_qm_unit(x: ((nat, nat), (nat, nat)))
    requires
        qm_reduced(x),
    ensures
        qm_product(x, ((1, 0), (0, 0))) == x,
{
    lemma_qm_stands_itself(x);
}

/// QM31 is a commutative ring: its product is reduced, commutative,
/// associative and distributes over the sum, with unit 1.
pub proof fn law_qm_ring(
    x: ((nat, nat), (nat, nat)),
    y: ((nat, nat), (nat, nat)),
    z: ((nat, nat), (nat, nat)),
)
    requires
        qm_reduced(x),
        qm_reduced(y),
        qm_reduced(z),
    ensures
        qm_reduced(qm_product(x, y)),
        qm_product(x, y) == qm_product(y, x),
        qm_product(qm_product(x, y), z) == qm_product(x, qm_product(y, z)),
        qm_product(x, qm_sum(y, z)) == qm_sum(qm_product(x, y), qm_product(x, z)),
        qm_product(x, ((1, 0), (0, 0))) == x,
{
    law_qm_layouts(x, y);
    lemma_qm_comm(x, y);
    lemma_qm_assoc(x, y, z);
    lemma_qm_dist(x, y, z);
    lemma_qm_unit(x);
}

/// In QM31, `u` is a square root of `2 + i`, and `i` one of -1.
pub proof fn law_qm_roots()
    ensures
        qm_product(((0, 0), (1, 0)), ((0, 0), (1, 0))) == ((2nat, 1nat), (0nat, 0nat)),
        cm_product((0, 1), (0, 1)) == ((M31_P - 1) as nat, 0nat),
{
}

/// The norm of a CM31 element.
pub open spec fn cm_norm(x: (nat, nat)) -> nat {
    (x.0 * x.0 + x.1 * x.1) % (M31_P as nat)
}

/// The sum of the squares of a product's coordinates is the product of those
/// sums.
proof fn lemma_norm_exact(x: (int, int), y: (int, int))
    ensures
        ({
            let v = complex_mul(x, y);
            v.0 * v.0 + v.1 * v.1 == (x.0 * x.0 + x.1 * x.1) * (y.0 * y.0 + y.1 * y.1)
        }),
{
    let (a, b, c, d) = (x.0, x.1, y.0, y.1);
    let (m, n, s, t) = (a * c, b * d, a * d, b * c);
    assert((m - n) * (m - n) == m * m - 2 * (m * n) + n * n) by (nonlinear_arith);
    assert((s + t) * (s + t) == s * s + 2 * (s * t) + t * t) by (nonlinear_arith);
    assert((a * c) * (b * d) == (a * d) * (b * c)) by (nonlinear_arith);
    assert((a * c) * (a * c) == (a * a) * (c * c)) by (nonlinear_arith);
    assert((b * d) * (b * d) == (b * b) * (d * d)) by (nonlinear_arith);
    assert((a * d) * (a * d) == (a * a) * (d * d)) by (nonlinear_arith);
    assert((b * c) * (b * c) == (b * b) * (c * c)) by (nonlinear_arith);
    lemma_mul_is_distributive_add_other_way(c * c + d * d, a * a, b * b);
    lemma_mul_is_distributive_add(a * a, c * c, d * d);
    lemma_mul_is_distributive_add(b * b, c * c, d * d);
}

/// CM31 is a commutative ring with unit 1, and its norm keeps products.
pub proof fn law_cm_ring(x: (nat, nat), y: (nat, nat), z: (nat, nat))
    requires
        cm_reduced(x),
        cm_reduced(y),
        cm_reduced(z),
    ensures
        cm_reduced(cm_product(x, y)),
        cm_product(x, y) == cm_product(y, x),
        cm_product(cm_product(x, y), z) == cm_product(x, cm_product(y, z)),
        cm_product(x, (1, 0)) == x,
        cm_norm(cm_product(x, y)) == (cm_norm(x) * cm_norm(y)) % (M31_P as nat),
{
    let p = M31_P as int;
    let xv = (x.0 as int, x.1 as int);
    let yv = (y.0 as int, y.1 as int);
    let zv = (z.0 as int, z.1 as int);
    lemma_complex_comm(xv, yv);
    law_cm_layouts(x, y);
    law_cm_layouts(y, z);
    lemma_schoolbook_stands(x, xv, y, yv);
    lemma_schoolbook_stands(y, yv, z, zv);
    let (xy, yz) = (cm_product(x, y), cm_product(y, z));
    law_cm_layouts(xy, z);
    law_cm_layouts(x, yz);
    lemma_schoolbook_stands(xy, complex_mul(xv, yv), z, zv);
    lemma_schoolbook_stands(x, xv, yz, complex_mul(yv, zv));
    lemma_complex_assoc(xv, yv, zv);
    lemma_small_mod(x.0, M31_P as nat);
    lemma_small_mod(x.1, M31_P as nat);
    // The norm.
    let v = complex_mul(xv, yv);
    lemma_mul_mod_noop(v.0, v.0, p);
    lemma_mul_mod_noop(v.1, v.1, p);
    lemma_add_mod_noop(v.0 * v.0, v.1 * v.1, p);
    lemma_add_mod_noop((xy.0 * xy.0) as int, (xy.1 * xy.1) as int, p);
    lemma_mul_mod_noop(xv.0 * xv.0 + xv.1 * xv.1, yv.0 * yv.0 + yv.1 * yv.1, p);
    lemma_norm_exact(xv, yv);
}

/// `2^31 - 1`.
pub const P: u64 = 0x7fff_ffff;

/// The product in M31.
pub open spec fn m_product(a: nat, b: nat) -> nat {
    (a * b) % 0x7fff_ffff
}

/// The sum in M31.
pub open spec fn m_sum(a: nat, b: nat) -> nat {
    (a + b) % 0x7fff_ffff
}

/// The difference in M31 of an `a` and a `b` of at most `a + 2^31 - 1`.
pub open spec fn m_difference(a: nat, b: nat) -> nat {
    ((a + 0x7fff_ffff - b) as nat) % 0x7fff_ffff
}

/// Differences undo sums, are reduced, and are zero only of equal elements.
pub proof fn law_difference(a: nat, b: nat)
    requires
        a < 0x7fff_ffff,
        b < 0x7fff_ffff,
    ensures
        m_difference(m_sum(a, b), b) == a,
        m_sum(m_difference(a, b), b) == a,
        m_difference(a, b) < 0x7fff_ffff,
        m_difference(a, b) == 0 <==> a == b,
{
}

/// The product in M31 on native integers.
pub fn nm(a: u64, b: u64) -> (r: u64)
    requires
        a * b <= u64::MAX,
    ensures
        r == m_product(a as nat, b as nat),
{
    a * b % P
}

/// The sum in M31 on native integers.
pub fn na(a: u64, b: u64) -> (r: u64)
    requires
        a + b <= u64::MAX,
    ensures
        r == m_sum(a as nat, b as nat),
{
    (a + b) % P
}

/// The difference in M31 on native integers.
pub fn ns(a: u64, b: u64) -> (r: u64)
    requires
        b <= a + P <= u64::MAX,
    ensures
        r == m_difference(a as nat, b as nat),
{
    (a + P - b) % P
}

/// The coordinates of a CM31 element.
pub open spec fn cm_of(x: Seq<u64>, k: int) -> (nat, nat) {
    (x[k] as nat, x[k + 1] as nat)
}

/// The coordinates of a QM31 element.
pub open spec fn qm_of(x: Seq<u64>) -> ((nat, nat), (nat, nat)) {
    (cm_of(x, 0), cm_of(x, 2))
}

/// Whether the products of coordinates fit.
pub open spec fn products_fit(x: Seq<u64>, y: Seq<u64>) -> bool {
    forall|i: int, j: int|
        0 <= i < x.len() && 0 <= j < y.len() ==> #[trigger] (x[i] * y[j]) <= u64::MAX
}

/// The CM31 product on native integers.
#[verifier::rlimit(30)]
pub fn ncm(x: [u64; 2], y: [u64; 2]) -> (r: [u64; 2])
    requires
        products_fit(x@, y@),
    ensures
        cm_of(r@, 0) == cm_product(cm_of(x@, 0), cm_of(y@, 0)),
        cm_reduced(cm_of(r@, 0)),
{
    assert(x@[0] * y@[0] <= u64::MAX && x@[1] * y@[1] <= u64::MAX && x@[0] * y@[1] <= u64::MAX
        && x@[1] * y@[0] <= u64::MAX);
    let (ac, bd) = (nm(x[0], y[0]), nm(x[1], y[1]));
    let (ad, bc) = (nm(x[0], y[1]), nm(x[1], y[0]));
    proof {
        let (x0, x1, y0, y1) = (x@[0] as int, x@[1] as int, y@[0] as int, y@[1] as int);
        lemma_sub_stands(ac as nat, x0 * y0, bd as nat, x1 * y1);
        lemma_add_stands(ad as nat, x0 * y1, bc as nat, x1 * y0);
        crate::montgomery::law_m31(ac as nat, bd as nat);
        crate::montgomery::law_m31(ad as nat, bc as nat);
    }
    [ns(ac, bd), na(ad, bc)]
}

/// The QM31 product on native integers.
#[verifier::rlimit(30)]
pub fn nqm(x: [u64; 4], y: [u64; 4]) -> (r: [u64; 4])
    requires
        products_fit(x@, y@),
    ensures
        qm_of(r@) == qm_product(qm_of(x@), qm_of(y@)),
{
    assert forall|i: int, j: int| 0 <= i < 4 && 0 <= j < 4 implies #[trigger] (x@[i] * y@[j])
        <= u64::MAX by {}
    let a: [u64; 2] = [x[0], x[1]];
    let b: [u64; 2] = [x[2], x[3]];
    let d: [u64; 2] = [y[0], y[1]];
    let e: [u64; 2] = [y[2], y[3]];
    proof {
        lemma_halves_fit(x@, y@, a@, b@, d@, e@);
    }
    let ac = ncm(a, d);
    let be = ncm(b, e);
    let two_i: [u64; 2] = [2, 1];
    proof {
        assert forall|i: int, j: int| 0 <= i < 2 && 0 <= j < 2 implies #[trigger] (two_i@[i]
            * be@[j]) <= u64::MAX by {
            circuit::lemma_product_bound(two_i@[i] as nat, 3, be@[j] as nat, 0x7fff_ffff);
        }
    }
    let rbd = ncm(two_i, be);
    let ad = ncm(a, e);
    let bc = ncm(b, d);
    proof {
        let (av, bv) = ((x@[0] as int, x@[1] as int), (x@[2] as int, x@[3] as int));
        let (dv, ev) = ((y@[0] as int, y@[1] as int), (y@[2] as int, y@[3] as int));
        lemma_schoolbook_stands((2, 1), (2, 1), cm_of(be@, 0), complex_mul(bv, ev));
        law_cm_layouts((2, 1), cm_of(be@, 0));
        lemma_cm_add_stands(
            cm_of(ac@, 0),
            complex_mul(av, dv),
            cm_of(rbd@, 0),
            complex_mul((2, 1), complex_mul(bv, ev)),
        );
        lemma_cm_add_stands(
            cm_of(ad@, 0),
            complex_mul(av, ev),
            cm_of(bc@, 0),
            complex_mul(bv, dv),
        );
        crate::montgomery::law_m31(ac@[0] as nat, rbd@[0] as nat);
        crate::montgomery::law_m31(ac@[1] as nat, rbd@[1] as nat);
        crate::montgomery::law_m31(ad@[0] as nat, bc@[0] as nat);
        crate::montgomery::law_m31(ad@[1] as nat, bc@[1] as nat);
    }
    [na(ac[0], rbd[0]), na(ac[1], rbd[1]), na(ad[0], bc[0]), na(ad[1], bc[1])]
}

proof fn lemma_halves_fit(
    x: Seq<u64>,
    y: Seq<u64>,
    a: Seq<u64>,
    b: Seq<u64>,
    d: Seq<u64>,
    e: Seq<u64>,
)
    requires
        x.len() == 4,
        y.len() == 4,
        products_fit(x, y),
        a =~= x.subrange(0, 2),
        b =~= x.subrange(2, 4),
        d =~= y.subrange(0, 2),
        e =~= y.subrange(2, 4),
    ensures
        products_fit(a, d),
        products_fit(b, e),
        products_fit(a, e),
        products_fit(b, d),
{
    assert forall|i: int, j: int| 0 <= i < 2 && 0 <= j < 2 implies #[trigger] (a[i] * d[j])
        <= u64::MAX by {
        assert(x[i] * y[j] <= u64::MAX);
    }
    assert forall|i: int, j: int| 0 <= i < 2 && 0 <= j < 2 implies #[trigger] (b[i] * e[j])
        <= u64::MAX by {
        assert(x[i + 2] * y[j + 2] <= u64::MAX);
    }
    assert forall|i: int, j: int| 0 <= i < 2 && 0 <= j < 2 implies #[trigger] (a[i] * e[j])
        <= u64::MAX by {
        assert(x[i] * y[j + 2] <= u64::MAX);
    }
    assert forall|i: int, j: int| 0 <= i < 2 && 0 <= j < 2 implies #[trigger] (b[i] * d[j])
        <= u64::MAX by {
        assert(x[i + 2] * y[j] <= u64::MAX);
    }
}

proof fn lemma_reduced_products_fit(x: Seq<u64>, y: Seq<u64>)
    requires
        x.len() == 4,
        y.len() == 4,
        qm_reduced(qm_of(x)),
        qm_reduced(qm_of(y)),
    ensures
        products_fit(x, y),
{
    assert forall|i: int, j: int| 0 <= i < 4 && 0 <= j < 4 implies #[trigger] (x[i] * y[j])
        <= u64::MAX by {
        circuit::lemma_product_bound(x[i] as nat, 0x1_0000_0000, y[j] as nat, 0x1_0000_0000);
    }
}

fn native_add(x: [u64; 4], y: [u64; 4]) -> (r: [u64; 4])
    requires
        qm_reduced(qm_of(x@)),
        qm_reduced(qm_of(y@)),
    ensures
        qm_of(r@) == qm_sum(qm_of(x@), qm_of(y@)),
{
    [na(x[0], y[0]), na(x[1], y[1]), na(x[2], y[2]), na(x[3], y[3])]
}

/// Adding the prime before subtracting changes nothing modulo it.
proof fn lemma_difference_stands(a: nat, b: nat)
    requires
        b <= a + 0x7fff_ffff,
    ensures
        m_difference(a, b) == (a - b) % (M31_P as int),
{
    lemma_mod_add_multiples_vanish(a - b, 0x7fff_ffff);
}

#[verifier::rlimit(30)]
fn native_sub(x: [u64; 4], y: [u64; 4]) -> (r: [u64; 4])
    requires
        qm_reduced(qm_of(x@)),
        qm_reduced(qm_of(y@)),
    ensures
        qm_of(r@) == qm_difference(qm_of(x@), qm_of(y@)),
{
    proof {
        lemma_difference_stands(x@[0] as nat, y@[0] as nat);
        lemma_difference_stands(x@[1] as nat, y@[1] as nat);
        lemma_difference_stands(x@[2] as nat, y@[2] as nat);
        lemma_difference_stands(x@[3] as nat, y@[3] as nat);
    }
    [ns(x[0], y[0]), ns(x[1], y[1]), ns(x[2], y[2]), ns(x[3], y[3])]
}

fn native_pointwise_mul(x: [u64; 4], y: [u64; 4]) -> (r: [u64; 4])
    requires
        qm_reduced(qm_of(x@)),
        qm_reduced(qm_of(y@)),
    ensures
        qm_of(r@) == qm_pointwise_product(qm_of(x@), qm_of(y@)),
{
    proof {
        lemma_reduced_products_fit(x@, y@);
        assert(x@[0] * y@[0] <= u64::MAX && x@[1] * y@[1] <= u64::MAX && x@[2] * y@[2] <= u64::MAX
            && x@[3] * y@[3] <= u64::MAX);
    }
    [nm(x[0], y[0]), nm(x[1], y[1]), nm(x[2], y[2]), nm(x[3], y[3])]
}

/// The operations that are measured, in the order of their names.
#[derive(Clone, Copy, Debug, PartialEq, Eq, Structural)]
pub enum QmOp {
    Add,
    MulKaratsuba,
    MulSchoolbook,
    PointwiseMul,
    Sub,
}

/// What the outputs are checked against.
pub const REFERENCE: &'static str = "M31/CM31/QM31 arithmetic restated natively over u64";

impl QmOp {
    /// The name under which the operation's count is recorded.
    pub open spec fn label(self) -> &'static str {
        match self {
            QmOp::Add => "qm31_add",
            QmOp::MulKaratsuba => "qm31_mul_karatsuba",
            QmOp::MulSchoolbook => "qm31_mul_schoolbook",
            QmOp::PointwiseMul => "qm31_pointwise_mul",
            QmOp::Sub => "qm31_sub",
        }
    }

    /// The name under which the operation's count is recorded.
    pub fn name(self) -> (r: &'static str)
        ensures
            r == self.label(),
    {
        match self {
            QmOp::Add => "qm31_add",
            QmOp::MulKaratsuba => "qm31_mul_karatsuba",
            QmOp::MulSchoolbook => "qm31_mul_schoolbook",
            QmOp::PointwiseMul => "qm31_pointwise_mul",
            QmOp::Sub => "qm31_sub",
        }
    }

    /// The numbers that the gadget's result words carry.
    pub open spec fn result(
        self,
        x: ((nat, nat), (nat, nat)),
        y: ((nat, nat), (nat, nat)),
    ) -> ((nat, nat), (nat, nat)) {
        match self {
            QmOp::Add => qm_add_word(x, y),
            QmOp::MulKaratsuba => qm_mul_karatsuba_word(x, y),
            QmOp::MulSchoolbook => qm_mul_schoolbook_word(x, y),
            QmOp::PointwiseMul => qm_pointwise_mul_word(x, y),
            QmOp::Sub => qm_sub_word(x, y),
        }
    }

    /// The operation in QM31.
    pub open spec fn reference(
        self,
        x: ((nat, nat), (nat, nat)),
        y: ((nat, nat), (nat, nat)),
    ) -> ((nat, nat), (nat, nat)) {
        match self {
            QmOp::Add => qm_sum(x, y),
            QmOp::MulKaratsuba | QmOp::MulSchoolbook => qm_product(x, y),
            QmOp::PointwiseMul => qm_pointwise_product(x, y),
            QmOp::Sub => qm_difference(x, y),
        }
    }

    /// The operation on native integers.
    pub fn native(self, x: [u64; 4], y: [u64; 4]) -> (r: [u64; 4])
        requires
            qm_reduced(qm_of(x@)),
            qm_reduced(qm_of(y@)),
        ensures
            qm_of(r@) == self.reference(qm_of(x@), qm_of(y@)),
    {
        match self {
            QmOp::Add => native_add(x, y),
            QmOp::MulKaratsuba | QmOp::MulSchoolbook => {
                proof {
                    lemma_reduced_products_fit(x@, y@);
                }
                nqm(x, y)
            },
            QmOp::PointwiseMul => native_pointwise_mul(x, y),
            QmOp::Sub => native_sub(x, y),
        }
    }

    /// The shapes of the circuit's operations.
    pub open spec fn shapes(self) -> Seq<Shape> {
        match self {
            QmOp::Add => qm_add_shapes(),
            QmOp::MulKaratsuba => qm_mul_karatsuba_shapes(),
            QmOp::MulSchoolbook => qm_mul_schoolbook_shapes(),
            QmOp::PointwiseMul => qm_pointwise_mul_shapes(),
            QmOp::Sub => qm_sub_shapes(),
        }
    }

    /// The word operations of the circuit.
    pub open spec fn ops(self) -> nat {
        match self {
            QmOp::Add => 16,
            QmOp::MulKaratsuba => 184,
            QmOp::MulSchoolbook => 181,
            QmOp::PointwiseMul => 24,
            QmOp::Sub => 20,
        }
    }

    /// The products of two words among them.
    pub open spec fn products(self) -> nat {
        match self {
            QmOp::Add | QmOp::Sub => 0,
            QmOp::MulKaratsuba => 9,
            QmOp::MulSchoolbook => 20,
            QmOp::PointwiseMul => 4,
        }
    }

    /// Appends the operation's gadget to a circuit.
    pub fn build(self, c: &mut Circuit, x: &Qm, y: &Qm) -> (r: Qm)
        requires
            old(c).wf(),
            is_qm(*old(c), *x),
            is_qm(*old(c), *y),
        ensures
            final(c).grows(*old(c), self.ops(), self.products()),
            final(c).adds(*old(c), self.shapes()),
            is_qm(*final(c), r),
            forall|env: Seq<bool>| #[trigger]
                qm_words(*final(c), env, r) == self.result(
                    qm_words(*old(c), env, *x),
                    qm_words(*old(c), env, *y),
                ),
    {
        match self {
            QmOp::Add => qm_add(c, x, y),
            QmOp::MulKaratsuba => qm_mul_karatsuba(c, x, y),
            QmOp::MulSchoolbook => qm_mul_schoolbook(c, x, y),
            QmOp::PointwiseMul => qm_pointwise_mul(c, x, y),
            QmOp::Sub => qm_sub(c, x, y),
        }
    }

    /// The operation over a message of 32 bytes: the coordinates of the
    /// operands in the low 31 bits of its words, those of the result in the
    /// low four words of the output.
    pub fn plan(self) -> (r: Plan)
        ensures
            r.wf(),
            r.circuit.n_inputs == 256,
            r.circuit.ops@.len() == self.ops(),
            circuit::products_of(r.circuit.ops@) == self.products(),
            circuit::shapes_of(r.circuit.ops@) == self.shapes(),
            forall|env: Seq<bool>|
                env.len() == 256 ==> #[trigger] qm_output(r, env) == self.result(
                    qm_input(env, 0),
                    qm_input(env, 16),
                ),
    {
        let mut c = Circuit::new(256);
        let message = InputMessageWires::new(32);
        let ghost c0 = c;
        let x = input_qm(&c, &message, 0);
        let y = input_qm(&c, &message, 16);
        let out = self.build(&mut c, &x, &y);
        let bits = padded_words(&out);
        let r = Plan { circuit: c, output: pack_output(&bits) };
        proof {
            lemma_padded_output(r, out, bits@);
            assert forall|env: Seq<bool>| env.len() == 256 implies #[trigger] qm_output(r, env)
                == self.result(qm_input(env, 0), qm_input(env, 16)) by {
                assert(qm_words(c, env, out) == self.result(
                    qm_words(c0, env, x),
                    qm_words(c0, env, y),
                ));
            }
        }
        r
    }
}

/// The coordinates that the low four output words carry.
pub open spec fn qm_output(p: Plan, env: Seq<bool>) -> ((nat, nat), (nat, nat)) {
    (
        (p.output_word(env, 0), p.output_word(env, 1)),
        (p.output_word(env, 2), p.output_word(env, 3)),
    )
}

/// The low 31 bits of the input word at byte `off`.
pub open spec fn input_coordinate(env: Seq<bool>, off: int) -> nat {
    bits::bits_value(env.subrange(8 * off, 8 * off + 31))
}

/// The element whose coordinates are four input words from byte `off` on.
pub open spec fn qm_input(env: Seq<bool>, off: int) -> ((nat, nat), (nat, nat)) {
    (
        (input_coordinate(env, off), input_coordinate(env, off + 4)),
        (input_coordinate(env, off + 8), input_coordinate(env, off + 12)),
    )
}

/// The element whose coordinates are four message words from byte `off` on.
fn input_qm(c: &Circuit, message: &InputMessageWires, off: usize) -> (r: Qm)
    requires
        message.is_input(),
        message.byte_arr@.len() == 32,
        c.n_inputs == 256,
        off <= 16,
    ensures
        is_qm(*c, r),
        forall|env: Seq<bool>|
            env.len() == 256 ==> #[trigger] qm_words(*c, env, r) == qm_input(env, off as int),
{
    let w0 = word(&message.byte_arr, off, 31);
    let w1 = word(&message.byte_arr, off + 4, 31);
    let w2 = word(&message.byte_arr, off + 8, 31);
    let w3 = word(&message.byte_arr, off + 12, 31);
    proof {
        plan::lemma_input_word(*c, *message, w0, off as int, 31);
        plan::lemma_input_word(*c, *message, w1, off + 4, 31);
        plan::lemma_input_word(*c, *message, w2, off + 8, 31);
        plan::lemma_input_word(*c, *message, w3, off + 12, 31);
    }
    Qm { a: Cm { re: w0, im: w1 }, b: Cm { re: w2, im: w3 } }
}

/// A word extended to 32 wires.
fn padded32(w: &BigIntWires) -> (r: BigIntWires)
    requires
        w.bits@.len() == 31,
    ensures
        r.bits@ == circuit::zero_wires(0) + w.bits@ + circuit::zero_wires(1),
{
    w.place(0, 32)
}

/// The wires of the four coordinates, each extended to 32.
fn padded_words(x: &Qm) -> (r: Vec<WireId>)
    requires
        x.a.re.bits@.len() == 31,
        x.a.im.bits@.len() == 31,
        x.b.re.bits@.len() == 31,
        x.b.im.bits@.len() == 31,
    ensures
        r@.len() == 128,
        r@.subrange(0, 32) == circuit::zero_wires(0) + x.a.re.bits@ + circuit::zero_wires(1),
        r@.subrange(32, 64) == circuit::zero_wires(0) + x.a.im.bits@ + circuit::zero_wires(1),
        r@.subrange(64, 96) == circuit::zero_wires(0) + x.b.re.bits@ + circuit::zero_wires(1),
        r@.subrange(96, 128) == circuit::zero_wires(0) + x.b.im.bits@ + circuit::zero_wires(1),
{
    let mut r: Vec<WireId> = Vec::new();
    r.extend_from_slice(&padded32(&x.a.re).bits);
    r.extend_from_slice(&padded32(&x.a.im).bits);
    r.extend_from_slice(&padded32(&x.b.re).bits);
    r.extend_from_slice(&padded32(&x.b.im).bits);
    r
}

/// A plan whose output wires are an element's padded words puts out the element.
proof fn lemma_padded_output(p: Plan, x: Qm, bits: Seq<WireId>)
    requires
        p.circuit.wf(),
        is_qm(p.circuit, x),
        bits.len() == 128,
        bits.subrange(0, 32) == circuit::zero_wires(0) + x.a.re.bits@ + circuit::zero_wires(1),
        bits.subrange(32, 64) == circuit::zero_wires(0) + x.a.im.bits@ + circuit::zero_wires(1),
        bits.subrange(64, 96) == circuit::zero_wires(0) + x.b.re.bits@ + circuit::zero_wires(1),
        bits.subrange(96, 128) == circuit::zero_wires(0) + x.b.im.bits@ + circuit::zero_wires(1),
        p.output.wires() == bits + circuit::zero_wires(128),
    ensures
        p.wf(),
        forall|env: Seq<bool>| #[trigger] qm_output(p, env) == qm_words(p.circuit, env, x),
{
    lemma_padded_word(p, x.a.re, bits, 0);
    lemma_padded_word(p, x.a.im, bits, 1);
    lemma_padded_word(p, x.b.re, bits, 2);
    lemma_padded_word(p, x.b.im, bits, 3);
    assert forall|i: int| 0 <= i < 256 implies p.circuit.has(#[trigger] p.output.wires()[i]) by {
        if i < 128 {
            let j = i / 32;
            assert(p.output.wires()[i] == bits.subrange(32 * j, 32 * j + 32)[i % 32]);
        }
    }
}

proof fn lemma_padded_word(p: Plan, w: BigIntWires, bits: Seq<WireId>, j: int)
    requires
        0 <= j < 4,
        p.circuit.is_word(w, 31),
        bits.len() == 128,
        bits.subrange(32 * j, 32 * j + 32) == circuit::zero_wires(0) + w.bits@
            + circuit::zero_wires(1),
        p.output.wires() == bits + circuit::zero_wires(128),
    ensures
        forall|i: int| 32 * j <= i < 32 * j + 32 ==> p.circuit.has(#[trigger] bits[i]),
        forall|env: Seq<bool>| #[trigger] p.output_word(env, j) == p.circuit.word(env, w),
{
    assert forall|i: int| 32 * j <= i < 32 * j + 32 implies p.circuit.has(#[trigger] bits[i]) by {
        assert(bits[i] == bits.subrange(32 * j, 32 * j + 32)[i - 32 * j]);
        if i - 32 * j < 31 {
            assert(p.circuit.has(w.bits@[i - 32 * j]));
        }
    }
    assert forall|env: Seq<bool>| #[trigger] p.output_word(env, j) == p.circuit.word(env, w) by {
        let outs = circuit::outputs_of(p.circuit.ops@, env);
        let low = circuit::wires_value(outs, env, w.bits@);
        let top = circuit::wires_value(outs, env, circuit::zero_wires(1));
        assert forall|i: int| 0 <= i < 32 implies p.output_bits(env).subrange(
            32 * j,
            32 * j + 32,
        )[i] == (low + top)[i] by {
            assert(p.output.wires()[32 * j + i] == bits.subrange(32 * j, 32 * j + 32)[i]);
        }
        assert(p.output_bits(env).subrange(32 * j, 32 * j + 32) =~= low + top);
        bits::lemma_bits_value_concat(low, top);
        bits::lemma_bits_value_zeros(top);
        lemma_mul_by_zero_is_zero(pow2(low.len()) as int);
    }
}

/// The message that holds two operands, each coordinate cut to a word.
pub fn message(x: [u64; 4], y: [u64; 4]) -> (r: Vec<u8>)
    ensures
        r@.len() == 32,
        forall|i: int|
            0 <= i < 4 ==> #[trigger] plan::le_word(r@, 4 * i) == (x@[i] as nat) % 0x1_0000_0000,
        forall|i: int|
            0 <= i < 4 ==> #[trigger] plan::le_word(r@, 16 + 4 * i) == (y@[i] as nat)
                % 0x1_0000_0000,
{
    let mut r: Vec<u8> = Vec::new();
    let mut k: usize = 0;
    while k < 8
        invariant
            k <= 8,
            r@.len() == 4 * k,
            forall|i: int|
                0 <= i < 4 && i < k ==> #[trigger] plan::le_word(r@, 4 * i) == (x@[i] as nat)
                    % 0x1_0000_0000,
            forall|i: int|
                0 <= i < 4 && i + 4 < k ==> #[trigger] plan::le_word(r@, 16 + 4 * i) == (
                y@[i] as nat) % 0x1_0000_0000,
        decreases 8 - k,
    {
        let v: u64 = if k < 4 {
            x[k]
        } else {
            y[k - 4]
        };
        let ghost before = r@;
        plan::push_word(&mut r, (v % 0x1_0000_0000) as u32);
        proof {
            assert forall|j: int| 0 <= j && j + 4 <= before.len() implies #[trigger] plan::le_word(
                r@,
                j,
            ) == plan::le_word(before, j) by {
                assert(forall|i: int| 0 <= i < before.len() ==> r@[i] == r@.take(
                    before.len() as int,
                )[i]);
            }
        }
        k += 1;
    }
    r
}

/// The coordinates of an element cut to 31 bits.
pub open spec fn cut(x: ((nat, nat), (nat, nat))) -> ((nat, nat), (nat, nat)) {
    (
        (x.0.0 % 0x8000_0000, x.0.1 % 0x8000_0000),
        (x.1.0 % 0x8000_0000, x.1.1 % 0x8000_0000),
    )
}

proof fn lemma_message_coordinate(m: Seq<u8>, off: int, v: nat)
    requires
        0 <= off,
        off + 4 <= m.len(),
        plan::le_word(m, off) == v % 0x1_0000_0000,
    ensures
        input_coordinate(plan::byte_bits(m), off) == v % 0x8000_0000,
{
    bits::lemma_word_powers();
    plan::lemma_message_word(m, off, 31);
    assert((v % 0x1_0000_0000) % 0x8000_0000 == v % 0x8000_0000);
}

/// Evaluates an operation's circuit on two operands.
pub fn run(op: QmOp, x: [u64; 4], y: [u64; 4]) -> (r: [u64; 4])
    ensures
        qm_of(r@) == op.result(cut(qm_of(x@)), cut(qm_of(y@))),
{
    let p = op.plan();
    let m = message(x, y);
    let ghost env = plan::byte_bits(m@);
    proof {
        assert(plan::le_word(m@, 4 * 0int) == (x@[0] as nat) % 0x1_0000_0000);
        assert(plan::le_word(m@, 4 * 1int) == (x@[1] as nat) % 0x1_0000_0000);
        assert(plan::le_word(m@, 4 * 2int) == (x@[2] as nat) % 0x1_0000_0000);
        assert(plan::le_word(m@, 4 * 3int) == (x@[3] as nat) % 0x1_0000_0000);
        assert(plan::le_word(m@, 16 + 4 * 0int) == (y@[0] as nat) % 0x1_0000_0000);
        assert(plan::le_word(m@, 16 + 4 * 1int) == (y@[1] as nat) % 0x1_0000_0000);
        assert(plan::le_word(m@, 16 + 4 * 2int) == (y@[2] as nat) % 0x1_0000_0000);
        assert(plan::le_word(m@, 16 + 4 * 3int) == (y@[3] as nat) % 0x1_0000_0000);
        lemma_message_coordinate(m@, 0, x@[0] as nat);
        lemma_message_coordinate(m@, 4, x@[1] as nat);
        lemma_message_coordinate(m@, 8, x@[2] as nat);
        lemma_message_coordinate(m@, 12, x@[3] as nat);
        lemma_message_coordinate(m@, 16, y@[0] as nat);
        lemma_message_coordinate(m@, 20, y@[1] as nat);
        lemma_message_coordinate(m@, 24, y@[2] as nat);
        lemma_message_coordinate(m@, 28, y@[3] as nat);
        assert(qm_output(p, env) == op.result(cut(qm_of(x@)), cut(qm_of(y@))));
    }
    let out = p.evaluate(&m);
    proof {
        assert(plan::le_word(out@, 4 * 0int) == p.output_word(env, 0));
        assert(plan::le_word(out@, 4 * 1int) == p.output_word(env, 1));
        assert(plan::le_word(out@, 4 * 2int) == p.output_word(env, 2));
        assert(plan::le_word(out@, 4 * 3int) == p.output_word(env, 3));
    }
    read_qm(&out)
}

/// The coordinates in the low four words of an output.
pub open spec fn qm_read(out: Seq<u8>) -> ((nat, nat), (nat, nat)) {
    (
        (plan::le_word(out, 0), plan::le_word(out, 4)),
        (plan::le_word(out, 8), plan::le_word(out, 12)),
    )
}

fn read_qm(out: &[u8; 32]) -> (r: [u64; 4])
    ensures
        qm_of(r@) == qm_read(out@),
{
    [
        plan::read_le_word(out, 0) as u64,
        plan::read_le_word(out, 4) as u64,
        plan::read_le_word(out, 8) as u64,
        plan::read_le_word(out, 12) as u64,
    ]
}

/// The operand pairs an operation is checked on.
pub open spec fn pairs() -> Seq<(((nat, nat), (nat, nat)), ((nat, nat), (nat, nat)))> {
    seq![
        (((1nat, 2nat), (3nat, 4nat)), ((5nat, 6nat), (7nat, 8nat))),
        (
            ((0x7fff_fffenat, 0x7fff_fffenat), (0x7fff_fffenat, 0x7fff_fffenat)),
            ((0x7fff_fffenat, 0x7fff_fffenat), (0x7fff_fffenat, 0x7fff_fffenat)),
        ),
        (
            ((0x1234_5678nat, 0x0765_4321nat), (0x5a5a_5a5anat, 0x3c3c_3c3cnat)),
            ((0x0f0f_0f0fnat, 0x7fff_0000nat), (0x0000_ffffnat, 0x1357_9bdfnat)),
        ),
        (((0nat, 0nat), (0nat, 0x7fff_fffenat)), ((0nat, 0nat), (0nat, 0x7fff_fffenat))),
    ]
}

/// Operand pair `k`.
pub fn input(k: usize) -> (r: ([u64; 4], [u64; 4]))
    requires
        k < 4,
    ensures
        (qm_of(r.0@), qm_of(r.1@)) == pairs()[k as int],
        qm_reduced(qm_of(r.0@)),
        qm_reduced(qm_of(r.1@)),
{
    if k == 0 {
        ([1, 2, 3, 4], [5, 6, 7, 8])
    } else if k == 1 {
        ([P - 1, P - 1, P - 1, P - 1], [P - 1, P - 1, P - 1, P - 1])
    } else if k == 2 {
        (
            [0x1234_5678, 0x0765_4321, 0x5a5a_5a5a, 0x3c3c_3c3c],
            [0x0f0f_0f0f, 0x7fff_0000, 0x0000_ffff, 0x1357_9bdf],
        )
    } else {
        ([0, 0, 0, P - 1], [0, 0, 0, P - 1])
    }
}

/// Which outcomes carry the reference result in their low four words.
pub open spec fn matches(op: QmOp, outcomes: Seq<Outcome>) -> Seq<bool> {
    Seq::new(
        outcomes.len(),
        |k: int| qm_read(outcomes[k].output@) == op.reference(pairs()[k].0, pairs()[k].1),
    )
}

fn same(x: [u64; 4], y: [u64; 4]) -> (r: bool)
    ensures
        r == (qm_of(x@) == qm_of(y@)),
{
    x[0] == y[0] && x[1] == y[1] && x[2] == y[2] && x[3] == y[3]
}

/// The gadget of an operation from the outcomes of its plan, one for each
/// operand pair of [`input`].
pub fn measure_op(op: QmOp, outcomes: &Vec<Outcome>) -> (r: Result<Gadget, MeasureError>)
    requires
        outcomes@.len() == 4,
    ensures
        gadget::checked(outcomes@, matches(op, outcomes@), op.label(), REFERENCE, r),
{
    let mut ok: Vec<bool> = Vec::new();
    let mut k: usize = 0;
    while k < outcomes.len()
        invariant
            k <= outcomes@.len() == 4,
            ok@ =~= matches(op, outcomes@).take(k as int),
        decreases outcomes@.len() - k,
    {
        let (x, y) = input(k);
        ok.push(same(read_qm(&outcomes[k].output), op.native(x, y)));
        k += 1;
    }
    assert(ok@ =~= matches(op, outcomes@));
    gadget::check(op.name(), REFERENCE, outcomes, &ok)
}

/// All operations, in the order of their names.
pub open spec fn all_ops() -> Seq<QmOp> {
    seq![QmOp::Add, QmOp::MulKaratsuba, QmOp::MulSchoolbook, QmOp::PointwiseMul, QmOp::Sub]
}

/// All operations, in the order of their names.
pub fn operations() -> (r: Vec<QmOp>)
    ensures
        r@ == all_ops(),
{
    let r: Vec<QmOp> = vec![
        QmOp::Add,
        QmOp::MulKaratsuba,
        QmOp::MulSchoolbook,
        QmOp::PointwiseMul,
        QmOp::Sub,
    ];
    assert(r@ =~= all_ops());
    r
}

/// Whether `r` is the check of operation `i` on the outcomes in row `i`.
pub open spec fn op_checked(
    outcomes: Seq<Vec<Outcome>>,
    i: int,
    r: Result<Gadget, MeasureError>,
) -> bool {
    let op = all_ops()[i];
    gadget::checked(outcomes[i]@, matches(op, outcomes[i]@), op.label(), REFERENCE, r)
}

/// Whether operation `i` passes its check on the outcomes in row `i`.
pub open spec fn op_passes(outcomes: Seq<Vec<Outcome>>, i: int) -> bool {
    exists|g: Gadget| #[trigger] op_checked(outcomes, i, Ok(g))
}

/// The named gadgets of all operations, or the first fault among them. Row
/// `i` of `outcomes` belongs to operation `i` of [`operations`].
pub fn measure(outcomes: &Vec<Vec<Outcome>>) -> (r: Result<
    Vec<(&'static str, Gadget)>,
    MeasureError,
>)
    requires
        outcomes@.len() == 5,
        forall|i: int| 0 <= i < 5 ==> (#[trigger] outcomes@[i])@.len() == 4,
    ensures
        match r {
            Ok(v) => v@.len() == 5 && forall|i: int|
                0 <= i < 5 ==> (#[trigger] v@[i]).0 == all_ops()[i].label() && op_checked(
                    outcomes@,
                    i,
                    Ok(v@[i].1),
                ),
            Err(e) => exists|i: int|
                0 <= i < 5 && #[trigger] op_checked(outcomes@, i, Err(e)) && forall|j: int|
                    0 <= j < i ==> #[trigger] op_passes(outcomes@, j),
        },
{
    let ops = operations();
    let mut v: Vec<(&'static str, Gadget)> = Vec::new();
    while v.len() < ops.len()
        invariant
            v@.len() <= 5,
            ops@ == all_ops(),
            outcomes@.len() == 5,
            forall|i: int| 0 <= i < 5 ==> (#[trigger] outcomes@[i])@.len() == 4,
            forall|i: int|
                0 <= i < v@.len() ==> (#[trigger] v@[i]).0 == all_ops()[i].label() && op_checked(
                    outcomes@,
                    i,
                    Ok(v@[i].1),
                ),
        decreases 5 - v@.len(),
    {
        let i = v.len();
        match measure_op(ops[i], &outcomes[i]) {
            Ok(g) => v.push((ops[i].name(), g)),
            Err(e) => {
                proof {
                    assert(op_checked(outcomes@, i as int, Err(e)));
                    assert forall|j: int| 0 <= j < i implies #[trigger] op_passes(
                        outcomes@,
                        j,
                    ) by {
                        assert(op_checked(outcomes@, j, Ok(v@[j].1)));
                    }
                }
                return Err(e);
            },
        }
    }
    Ok(v)
}

/// On reduced operands every operation's circuit gives the operation in QM31.
pub proof fn law_circuit_is_reference(
    op: QmOp,
    x: ((nat, nat), (nat, nat)),
    y: ((nat, nat), (nat, nat)),
)
    requires
        qm_reduced(x),
        qm_reduced(y),
    ensures
        op.result(cut(x), cut(y)) == op.reference(x, y),
        qm_reduced(op.reference(x, y)),
{
    lemma_cut_reduced(x);
    lemma_cut_reduced(y);
    match op {
        QmOp::MulKaratsuba | QmOp::MulSchoolbook => law_qm_layouts(x, y),
        _ => law_qm_coordinatewise(x, y),
    }
}

proof fn lemma_cut_reduced(x: ((nat, nat), (nat, nat)))
    requires
        qm_reduced(x),
    ensures
        cut(x) == x,
{
}

/// The operations on all coordinates are those on one, four times over, of the
/// same shapes.
pub proof fn law_fourfold()
    ensures
        QmOp::Add.shapes() == circuit::repeated(field::FieldOp::M31Add.shapes(), 4),
        QmOp::Sub.shapes() == circuit::repeated(field::FieldOp::M31Sub.shapes(), 4),
        QmOp::PointwiseMul.shapes() == circuit::repeated(field::FieldOp::M31Mul.shapes(), 4),
        QmOp::Add.ops() == 4 * field::FieldOp::M31Add.ops(),
        QmOp::Sub.ops() == 4 * field::FieldOp::M31Sub.ops(),
        QmOp::PointwiseMul.ops() == 4 * field::FieldOp::M31Mul.ops(),
        QmOp::PointwiseMul.products() == 4 * field::FieldOp::M31Mul.products(),
{
    reveal(qm_add_shapes);
    reveal(qm_sub_shapes);
    reveal(qm_pointwise_mul_shapes);
}

/// Sums, differences and pointwise products are taken coordinate by
/// coordinate, modulo `2^31 - 1`.
pub proof fn law_coordinates(x: ((nat, nat), (nat, nat)), y: ((nat, nat), (nat, nat)))
    ensures
        ({
            let r = qm_sum(x, y);
            &&& r.0.0 == (x.0.0 + y.0.0) % 0x7fff_ffff
            &&& r.0.1 == (x.0.1 + y.0.1) % 0x7fff_ffff
            &&& r.1.0 == (x.1.0 + y.1.0) % 0x7fff_ffff
            &&& r.1.1 == (x.1.1 + y.1.1) % 0x7fff_ffff
        }),
        ({
            let r = qm_difference(x, y);
            &&& r.0.0 == (x.0.0 - y.0.0) % 0x7fff_ffff
            &&& r.0.1 == (x.0.1 - y.0.1) % 0x7fff_ffff
            &&& r.1.0 == (x.1.0 - y.1.0) % 0x7fff_ffff
            &&& r.1.1 == (x.1.1 - y.1.1) % 0x7fff_ffff
        }),
        ({
            let r = qm_pointwise_product(x, y);
            &&& r.0.0 == (x.0.0 * y.0.0) % 0x7fff_ffff
            &&& r.0.1 == (x.0.1 * y.0.1) % 0x7fff_ffff
            &&& r.1.0 == (x.1.0 * y.1.0) % 0x7fff_ffff
            &&& r.1.1 == (x.1.1 * y.1.1) % 0x7fff_ffff
        }),
{
}

/// The product in QM31, coordinate by coordinate, from `i^2 = -1` and
/// `u^2 = 2 + i`.
pub proof fn law_product_coordinates(x: ((nat, nat), (nat, nat)), y: ((nat, nat), (nat, nat)))
    ensures
        ({
            let (a, b, c, d) = (x.0.0 as int, x.0.1 as int, x.1.0 as int, x.1.1 as int);
            let (e, f, g, h) = (y.0.0 as int, y.0.1 as int, y.1.0 as int, y.1.1 as int);
            let r = qm_product(x, y);
            &&& r.0.0 == (a * e - b * f + 2 * (c * g) - 2 * (d * h) - c * h - d * g) % 0x7fff_ffff
            &&& r.0.1 == (a * f + b * e + 2 * (c * h) + 2 * (d * g) + c * g - d * h) % 0x7fff_ffff
            &&& r.1.0 == (a * g - b * h + c * e - d * f) % 0x7fff_ffff
            &&& r.1.1 == (a * h + b * g + c * f + d * e) % 0x7fff_ffff
        }),
        ({
            let r = cm_product(x.0, y.0);
            &&& r.0 == (x.0.0 * y.0.0 - x.0.1 * y.0.1) % 0x7fff_ffff
            &&& r.1 == (x.0.0 * y.0.1 + x.0.1 * y.0.0) % 0x7fff_ffff
        }),
{
}

/// The words of sums, differences and pointwise products are those of the
/// coordinates, whatever their size.
pub proof fn law_words_by_coordinate(x: ((nat, nat), (nat, nat)), y: ((nat, nat), (nat, nat)))
    ensures
        ({
            let r = qm_add_word(x, y);
            &&& r.0.0 == field::m31_add_word(x.0.0, y.0.0)
            &&& r.0.1 == field::m31_add_word(x.0.1, y.0.1)
            &&& r.1.0 == field::m31_add_word(x.1.0, y.1.0)
            &&& r.1.1 == field::m31_add_word(x.1.1, y.1.1)
        }),
        ({
            let r = qm_sub_word(x, y);
            &&& r.0.0 == field::m31_sub_word(x.0.0, y.0.0)
            &&& r.0.1 == field::m31_sub_word(x.0.1, y.0.1)
            &&& r.1.0 == field::m31_sub_word(x.1.0, y.1.0)
            &&& r.1.1 == field::m31_sub_word(x.1.1, y.1.1)
        }),
        ({
            let r = qm_pointwise_mul_word(x, y);
            &&& r.0.0 == (x.0.0 * y.0.0) % 0x7fff_ffff
            &&& r.0.1 == (x.0.1 * y.0.1) % 0x7fff_ffff
            &&& r.1.0 == (x.1.0 * y.1.0) % 0x7fff_ffff
            &&& r.1.1 == (x.1.1 * y.1.1) % 0x7fff_ffff
        }),
{
}

/// An element is reduced exactly where its four coordinates are below
/// `2^31 - 1`, and cutting leaves the low 31 bits of each.
pub proof fn law_reduced(x: ((nat, nat), (nat, nat)))
    ensures
        qm_reduced(x) <==> x.0.0 < 0x7fff_ffff && x.0.1 < 0x7fff_ffff && x.1.0 < 0x7fff_ffff
            && x.1.1 < 0x7fff_ffff,
        cut(x).0.0 == x.0.0 % 0x8000_0000,
        cut(x).0.1 == x.0.1 % 0x8000_0000,
        cut(x).1.0 == x.1.0 % 0x8000_0000,
        cut(x).1.1 == x.1.1 % 0x8000_0000,
{
}

/// The native operations are those modulo `2^31 - 1`.
pub proof fn law_native_operations(a: nat, b: nat)
    ensures
        (m_product(a, b) - a * b) % 0x7fff_ffff == 0 && m_product(a, b) < 0x7fff_ffff,
        (m_sum(a, b) - (a + b)) % 0x7fff_ffff == 0 && m_sum(a, b) < 0x7fff_ffff,
        b <= a + 0x7fff_ffff ==> (m_difference(a, b) + b - a) % 0x7fff_ffff == 0,
        P == 0x8000_0000 - 1,
{
}

/// Coordinates stand in order, and an output's are its first four words.
pub proof fn law_coordinates_stand_in_order(v: Seq<u64>, out: Seq<u8>)
    requires
        v.len() == 4,
        out.len() == 32,
    ensures
        qm_of(v).0.0 == v[0] && qm_of(v).0.1 == v[1] && qm_of(v).1.0 == v[2] && qm_of(v).1.1 == v[3],
        qm_read(out).0.0 == plan::le_word(out, 0),
        qm_read(out).0.1 == plan::le_word(out, 4),
        qm_read(out).1.0 == plan::le_word(out, 8),
        qm_read(out).1.1 == plan::le_word(out, 12),
{
}

/// Each operation goes by its own name, and its reference is the operation in
/// QM31 that the name says.
pub proof fn law_operations(
    op: QmOp,
    x: ((nat, nat), (nat, nat)),
    y: ((nat, nat), (nat, nat)),
)
    ensures
        match op {
            QmOp::Add => op.label()@ == "qm31_add"@ && op.reference(x, y) == qm_sum(x, y),
            QmOp::MulKaratsuba => op.label()@ == "qm31_mul_karatsuba"@ && op.reference(x, y)
                == qm_product(x, y),
            QmOp::MulSchoolbook => op.label()@ == "qm31_mul_schoolbook"@ && op.reference(x, y)
                == qm_product(x, y),
            QmOp::PointwiseMul => op.label()@ == "qm31_pointwise_mul"@ && op.reference(x, y)
                == qm_pointwise_product(x, y),
            QmOp::Sub => op.label()@ == "qm31_sub"@ && op.reference(x, y) == qm_difference(x, y),
        },
        REFERENCE@ == "M31/CM31/QM31 arithmetic restated natively over u64"@,
        all_ops().len() == 5,
        all_ops().contains(op),
        all_ops().no_duplicates(),
{
    let v = all_ops();
    assert(v[0] == QmOp::Add && v[1] == QmOp::MulKaratsuba && v[2] == QmOp::MulSchoolbook && v[3]
        == QmOp::PointwiseMul && v[4] == QmOp::Sub);
}

/// What the multiplications are made of: the schoolbook layout of 20 products,
/// nine sums and five differences in M31, the Karatsuba layout of nine
/// products, 15 sums and 14 differences.
pub proof fn law_multiplications(s: Shape)
    ensures
        circuit::count_of(QmOp::MulSchoolbook.shapes(), s) == 20 * circuit::count_of(
            field::m31_mul_shapes(),
            s,
        ) + 9 * circuit::count_of(field::m31_add_shapes(), s) + 5 * circuit::count_of(
            field::m31_sub_shapes(),
            s,
        ),
        circuit::count_of(QmOp::MulKaratsuba.shapes(), s) == 9 * circuit::count_of(
            field::m31_mul_shapes(),
            s,
        ) + 15 * circuit::count_of(field::m31_add_shapes(), s) + 14 * circuit::count_of(
            field::m31_sub_shapes(),
            s,
        ),
        QmOp::MulSchoolbook.ops() == 20 * 6 + 9 * 4 + 5 * 5,
        QmOp::MulKaratsuba.ops() == 9 * 6 + 15 * 4 + 14 * 5,
{
    lemma_cm_counts(s);
    let (cs, ck, ca) = (cm_mul_schoolbook_shapes(), cm_mul_karatsuba_shapes(), cm_add_shapes());
    let (cd, cr) = (cm_sub_shapes(), cm_mul_r_shapes());
    circuit::lemma_count_repeated(cs, 5, s);
    circuit::lemma_count_repeated(ca, 2, s);
    circuit::lemma_count_repeated(ck, 2, s);
    let (c5, c2, k2) = (
        circuit::repeated(cs, 5),
        circuit::repeated(ca, 2),
        circuit::repeated(ck, 2),
    );
    assert(circuit::count_of(qm_mul_schoolbook_shapes(), s) == circuit::count_of(c5, s)
        + circuit::count_of(c2, s)) by {
        reveal(qm_mul_schoolbook_shapes);
        circuit::lemma_count_joined(c5, c2, s);
    }
    assert(circuit::count_of(qm_mul_karatsuba_shapes(), s) == circuit::count_of(k2, s)
        + circuit::count_of(c2, s) + circuit::count_of(ck, s) + circuit::count_of(cr, s) + 2
        * circuit::count_of(cd, s) + circuit::count_of(ca, s)) by {
        reveal(qm_mul_karatsuba_shapes);
        circuit::lemma_count_joined(k2, c2, s);
        circuit::lemma_count_joined(k2 + c2, ck, s);
        circuit::lemma_count_joined(k2 + c2 + ck, cr, s);
        circuit::lemma_count_joined(k2 + c2 + ck + cr, cd, s);
        circuit::lemma_count_joined(k2 + c2 + ck + cr + cd, ca, s);
        circuit::lemma_count_joined(k2 + c2 + ck + cr + cd + ca, cd, s);
    }
}

/// What the CM31 operations are made of.
proof fn lemma_cm_counts(s: Shape)
    ensures
        ({
            let m = circuit::count_of(field::m31_mul_shapes(), s);
            let a = circuit::count_of(field::m31_add_shapes(), s);
            let d = circuit::count_of(field::m31_sub_shapes(), s);
            &&& circuit::count_of(cm_add_shapes(), s) == 2 * a
            &&& circuit::count_of(cm_sub_shapes(), s) == 2 * d
            &&& circuit::count_of(cm_mul_schoolbook_shapes(), s) == 4 * m + d + a
            &&& circuit::count_of(cm_mul_karatsuba_shapes(), s) == 3 * m + 2 * a + 3 * d
            &&& circuit::count_of(cm_mul_r_shapes(), s) == 3 * a + d
        }),
{
    let (m, a, d) = (field::m31_mul_shapes(), field::m31_add_shapes(), field::m31_sub_shapes());
    circuit::lemma_count_repeated(m, 4, s);
    circuit::lemma_count_repeated(m, 2, s);
    circuit::lemma_count_repeated(a, 2, s);
    circuit::lemma_count_repeated(d, 3, s);
    let (m4, m2, a2, d3) = (
        circuit::repeated(m, 4),
        circuit::repeated(m, 2),
        circuit::repeated(a, 2),
        circuit::repeated(d, 3),
    );
    assert(circuit::count_of(cm_add_shapes(), s) == 2 * circuit::count_of(a, s)) by {
        reveal(cm_add_shapes);
        circuit::lemma_count_joined(a, a, s);
    }
    assert(circuit::count_of(cm_sub_shapes(), s) == 2 * circuit::count_of(d, s)) by {
        reveal(cm_sub_shapes);
        circuit::lemma_count_joined(d, d, s);
    }
    assert(circuit::count_of(cm_mul_schoolbook_shapes(), s) == circuit::count_of(m4, s)
        + circuit::count_of(d, s) + circuit::count_of(a, s)) by {
        reveal(cm_mul_schoolbook_shapes);
        circuit::lemma_count_joined(m4, d, s);
        circuit::lemma_count_joined(m4 + d, a, s);
    }
    assert(circuit::count_of(cm_mul_karatsuba_shapes(), s) == circuit::count_of(m2, s)
        + circuit::count_of(a2, s) + circuit::count_of(m, s) + circuit::count_of(d3, s)) by {
        reveal(cm_mul_karatsuba_shapes);
        circuit::lemma_count_joined(m2, a2, s);
        circuit::lemma_count_joined(m2 + a2, m, s);
        circuit::lemma_count_joined(m2 + a2 + m, d3, s);
    }
    assert(circuit::count_of(cm_mul_r_shapes(), s) == circuit::count_of(a2, s) + circuit::count_of(
        d,
        s,
    ) + circuit::count_of(a, s)) by {
        reveal(cm_mul_r_shapes);
        circuit::lemma_count_joined(a2, d, s);
        circuit::lemma_count_joined(a2 + d, a, s);
    }
}

/// The products of two words in a multiplication: three in a CM31 product by
/// Karatsuba and nine in all, four in one by the schoolbook and twenty in all.
pub proof fn law_products()
    ensures
        circuit::count_of(QmOp::MulKaratsuba.shapes(), Shape::MulKaratsuba(31)) == 3 * 3,
        circuit::count_of(QmOp::MulSchoolbook.shapes(), Shape::MulKaratsuba(31)) == 5 * 4,
        QmOp::MulKaratsuba.products() == 9,
        QmOp::MulSchoolbook.products() == 20,
        QmOp::PointwiseMul.products() == 4,
        QmOp::Add.products() == 0,
        QmOp::Sub.products() == 0,
{
    field::law_gadget_sizes(field::FieldOp::M31Mul);
    field::law_gadget_sizes(field::FieldOp::M31Add);
    field::law_gadget_sizes(field::FieldOp::M31Sub);
    law_multiplications(Shape::MulKaratsuba(31));
}

/// The checked operands are reduced: small ones, the largest, patterns, and
/// the largest last coordinate alone.
pub proof fn law_checked_pairs(k: int)
    requires
        0 <= k < 4,
    ensures
        pairs().len() == 4,
        qm_reduced(pairs()[k].0) && qm_reduced(pairs()[k].1),
        pairs()[0] == (((1nat, 2nat), (3nat, 4nat)), ((5nat, 6nat), (7nat, 8nat))),
        pairs()[1].0 == pairs()[1].1 && pairs()[1].0.0 == pairs()[1].0.1,
        pairs()[1].0.0 == ((P - 1) as nat, (P - 1) as nat),
        pairs()[2].0 == ((0x1234_5678nat, 0x0765_4321nat), (0x5a5a_5a5anat, 0x3c3c_3c3cnat)),
        pairs()[2].1 == ((0x0f0f_0f0fnat, 0x7fff_0000nat), (0x0000_ffffnat, 0x1357_9bdfnat)),
        pairs()[3].0 == pairs()[3].1 && pairs()[3].0 == ((0nat, 0nat), (0nat, (P - 1) as nat)),
{
}

/// An outcome passes exactly where its first four words are the coordinates
/// of the reference of its operands.
pub proof fn law_outcomes_are_compared(op: QmOp, outcomes: Seq<Outcome>, k: int)
    requires
        0 <= k < outcomes.len() <= 4,
    ensures
        matches(op, outcomes).len() == outcomes.len(),
        matches(op, outcomes)[k] <==> ({
            let (o, r) = (outcomes[k].output@, op.reference(pairs()[k].0, pairs()[k].1));
            &&& plan::le_word(o, 0) == r.0.0
            &&& plan::le_word(o, 4) == r.0.1
            &&& plan::le_word(o, 8) == r.1.0
            &&& plan::le_word(o, 12) == r.1.1
        }),
{
}

/// Operation `i` is checked on row `i`, under its own name, and passes exactly
/// where that check gives a gadget.
pub proof fn law_rows_are_checked(
    outcomes: Seq<Vec<Outcome>>,
    i: int,
    r: Result<Gadget, MeasureError>,
)
    requires
        0 <= i < outcomes.len() <= 5,
        op_checked(outcomes, i, r),
        outcomes[i]@.len() == 4,
    ensures
        gadget::checked(
            outcomes[i]@,
            matches(all_ops()[i], outcomes[i]@),
            all_ops()[i].label(),
            REFERENCE,
            r,
        ),
        r is Ok ==> op_passes(outcomes, i),
        r is Err ==> !op_passes(outcomes, i),
{
    let ok = matches(all_ops()[i], outcomes[i]@);
    if r is Ok {
        assert(op_checked(outcomes, i, Ok(r->Ok_0)));
    } else if op_passes(outcomes, i) {
        let g = choose|g: Gadget| #[trigger] op_checked(outcomes, i, Ok(g));
        assert(op_checked(outcomes, i, Ok(g)));
        let k = r->Err_0.input as int;
        assert(gadget::fault_at(outcomes[i]@, ok, k) is None);
    }
}

proof fn lemma_residues_multiply(a: nat, b: nat)
    ensures
        field::m31_mul_word(a, b) == field::m31_mul_word(a % 0x7fff_ffff, b % 0x7fff_ffff),
{
    lemma_mul_mod_noop(a as int, b as int, M31_P as int);
}

proof fn lemma_residue_of_sum(a: nat, b: nat)
    ensures
        field::m31_add_word(a, b) % 0x7fff_ffff == field::m31_add_word(
            a % 0x7fff_ffff,
            b % 0x7fff_ffff,
        ) % 0x7fff_ffff,
{
    lemma_add_mod_noop(a as int, b as int, M31_P as int);
}

/// Products in CM31 go by the residues of the coordinates, in both layouts.
proof fn lemma_cm_residues(x: (nat, nat), y: (nat, nat))
    ensures
        ({
            let (u, v) = (
                (x.0 % 0x7fff_ffff, x.1 % 0x7fff_ffff),
                (y.0 % 0x7fff_ffff, y.1 % 0x7fff_ffff),
            );
            &&& cm_mul_schoolbook_word(x, y) == cm_mul_schoolbook_word(u, v)
            &&& cm_mul_karatsuba_word(x, y) == cm_mul_karatsuba_word(u, v)
        }),
{
    let (u, v) = ((x.0 % 0x7fff_ffff, x.1 % 0x7fff_ffff), (y.0 % 0x7fff_ffff, y.1 % 0x7fff_ffff));
    lemma_residues_multiply(x.0, y.0);
    lemma_residues_multiply(x.1, y.1);
    lemma_residues_multiply(x.0, y.1);
    lemma_residues_multiply(x.1, y.0);
    lemma_residue_of_sum(x.0, x.1);
    lemma_residue_of_sum(y.0, y.1);
    lemma_residues_multiply(field::m31_add_word(x.0, x.1), field::m31_add_word(y.0, y.1));
    lemma_residues_multiply(field::m31_add_word(u.0, u.1), field::m31_add_word(v.0, v.1));
}

/// Products in QM31 go by the residues of the coordinates, in both layouts:
/// operands that agree modulo `2^31 - 1` have the same product, which is that
/// of the reduced ones.
pub proof fn law_residues_decide(x: ((nat, nat), (nat, nat)), y: ((nat, nat), (nat, nat)))
    ensures
        ({
            let u = (
                (x.0.0 % 0x7fff_ffff, x.0.1 % 0x7fff_ffff),
                (x.1.0 % 0x7fff_ffff, x.1.1 % 0x7fff_ffff),
            );
            let v = (
                (y.0.0 % 0x7fff_ffff, y.0.1 % 0x7fff_ffff),
                (y.1.0 % 0x7fff_ffff, y.1.1 % 0x7fff_ffff),
            );
            &&& qm_mul_schoolbook_word(x, y) == qm_product(u, v)
            &&& qm_mul_karatsuba_word(x, y) == qm_product(u, v)
        }),
{
    let u = (
        (x.0.0 % 0x7fff_ffff, x.0.1 % 0x7fff_ffff),
        (x.1.0 % 0x7fff_ffff, x.1.1 % 0x7fff_ffff),
    );
    let v = (
        (y.0.0 % 0x7fff_ffff, y.0.1 % 0x7fff_ffff),
        (y.1.0 % 0x7fff_ffff, y.1.1 % 0x7fff_ffff),
    );
    lemma_cm_residues(x.0, y.0);
    lemma_cm_residues(x.1, y.1);
    lemma_cm_residues(x.0, y.1);
    lemma_cm_residues(x.1, y.0);
    lemma_residue_of_sum(x.0.0, x.1.0);
    lemma_residue_of_sum(x.0.1, x.1.1);
    lemma_residue_of_sum(y.0.0, y.1.0);
    lemma_residue_of_sum(y.0.1, y.1.1);
    lemma_cm_residues(cm_add_word(x.0, x.1), cm_add_word(y.0, y.1));
    lemma_cm_residues(cm_add_word(u.0, u.1), cm_add_word(v.0, v.1));
    law_qm_layouts(u, v);
}

/// An operand's coordinates are the low 31 bits of four message words, and a
/// result's are four output words.
pub proof fn law_operands_in_order(m: Seq<u8>, off: int, p: Plan, env: Seq<bool>)
    requires
        0 <= off,
        off + 16 <= m.len(),
    ensures
        qm_input(plan::byte_bits(m), off).0.0 == plan::le_word(m, off) % 0x8000_0000,
        qm_input(plan::byte_bits(m), off).0.1 == plan::le_word(m, off + 4) % 0x8000_0000,
        qm_input(plan::byte_bits(m), off).1.0 == plan::le_word(m, off + 8) % 0x8000_0000,
        qm_input(plan::byte_bits(m), off).1.1 == plan::le_word(m, off + 12) % 0x8000_0000,
        qm_output(p, env).0.0 == p.output_word(env, 0),
        qm_output(p, env).0.1 == p.output_word(env, 1),
        qm_output(p, env).1.0 == p.output_word(env, 2),
        qm_output(p, env).1.1 == p.output_word(env, 3),
{
    plan::lemma_le_word(m, off);
    plan::lemma_le_word(m, off + 4);
    plan::lemma_le_word(m, off + 8);
    plan::lemma_le_word(m, off + 12);
    lemma_message_coordinate(m, off, plan::le_word(m, off));
    lemma_message_coordinate(m, off + 4, plan::le_word(m, off + 4));
    lemma_message_coordinate(m, off + 8, plan::le_word(m, off + 8));
    lemma_message_coordinate(m, off + 12, plan::le_word(m, off + 12));
}

} // verus!
