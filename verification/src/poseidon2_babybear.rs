//! The Poseidon2 permutation over BabyBear with width 24, `x^7`, 8 full and 21
//! partial rounds, on Montgomery words.

use vstd::arithmetic::div_mod::*;
use vstd::arithmetic::power::*;
use vstd::prelude::*;

use crate::bits;
use crate::circuit;
use crate::circuit::{BigIntWires, Circuit, Shape};
use crate::field;
use crate::field::{constant, mod_add, monty_mul, monty_mul_const, BABYBEAR_MU, BABYBEAR_P};
use crate::montgomery;
use crate::poseidon2;

verus! {

broadcast use {
    circuit::lemma_shapes_grouped,
    circuit::lemma_shapes_then_none,
    circuit::lemma_none_then_shapes,
};

/// The width of the permutation.
pub const CELLS: usize = 24;

/// Full rounds before, and again behind, the partial ones.
pub const ROUNDS_HALF_FULL: usize = 4;

/// Partial rounds.
pub const ROUNDS_PARTIAL: usize = 21;

/// The word of a sum.
pub open spec fn bb_add_word(a: nat, b: nat) -> nat {
    field::mod_add_word(a, b, BABYBEAR_P as nat)
}

/// The word of a product.
pub open spec fn bb_mul_word(a: nat, b: nat) -> nat {
    field::redc_word(a * b, BABYBEAR_P as nat, BABYBEAR_MU as nat)
}

/// `x^7` by four multiplications.
pub open spec fn bb_sbox_word(x: nat) -> nat {
    let x2 = bb_mul_word(x, x);
    let x4 = bb_mul_word(x2, x2);
    let x6 = bb_mul_word(x4, x2);
    bb_mul_word(x6, x)
}

/// The word of a double.
pub open spec fn bb_double_word(x: nat) -> nat {
    bb_add_word(x, x)
}

/// Four cells times the 4x4 matrix, by additions and doublings.
pub open spec fn bb_circulant_words(x0: nat, x1: nat, x2: nat, x3: nat) -> Seq<nat> {
    let t0 = bb_add_word(x0, x1);
    let t1 = bb_add_word(x2, x3);
    let t2 = bb_add_word(bb_double_word(x1), t1);
    let t3 = bb_add_word(bb_double_word(x3), t0);
    let t4 = bb_add_word(bb_double_word(bb_double_word(t1)), t3);
    let t5 = bb_add_word(bb_double_word(bb_double_word(t0)), t2);
    seq![bb_add_word(t3, t5), t5, bb_add_word(t2, t4), t4]
}

/// Every group of four cells times the 4x4 matrix.
#[verifier::opaque]
pub open spec fn bb_groups_words(x: Seq<nat>) -> Seq<nat> {
    Seq::new(
        24,
        |i: int|
            bb_circulant_words(
                x[4 * (i / 4)],
                x[4 * (i / 4) + 1],
                x[4 * (i / 4) + 2],
                x[4 * (i / 4) + 3],
            )[i % 4],
    )
}

/// The sum of cell `j` over the first `k` groups of four.
pub open spec fn bb_column_sum(y: Seq<nat>, j: int, k: nat) -> nat
    decreases k,
{
    if k <= 1 {
        y[j]
    } else {
        bb_add_word(bb_column_sum(y, j, (k - 1) as nat), y[4 * (k - 1) + j])
    }
}

/// The external linear layer.
#[verifier::opaque]
pub open spec fn bb_m_ext_words(x: Seq<nat>) -> Seq<nat> {
    let y = bb_groups_words(x);
    Seq::new(24, |i: int| bb_add_word(y[i], bb_column_sum(y, i % 4, 6)))
}

/// The sum of the first `k` cells.
pub open spec fn bb_row_sum(x: Seq<nat>, k: nat) -> nat
    decreases k,
{
    if k <= 1 {
        x[0]
    } else {
        bb_add_word(bb_row_sum(x, (k - 1) as nat), x[k - 1])
    }
}

/// The internal linear layer: the sum of all cells, plus each cell times its
/// diagonal entry.
#[verifier::opaque]
pub open spec fn bb_m_int_words(x: Seq<nat>, diag: Seq<u32>) -> Seq<nat> {
    Seq::new(
        24,
        |i: int| bb_add_word(bb_row_sum(x, 24), bb_mul_word(x[i], diag[i] as nat)),
    )
}

/// Round constants and S-boxes on all cells.
#[verifier::opaque]
pub open spec fn bb_full_sboxes_words(x: Seq<nat>, rc: Seq<u32>, round: int) -> Seq<nat> {
    Seq::new(24, |i: int| bb_sbox_word(bb_add_word(x[i], rc[24 * round + i] as nat)))
}

/// The words after a full round.
pub open spec fn bb_full_round_words(x: Seq<nat>, rc: Seq<u32>, round: int) -> Seq<nat> {
    bb_m_ext_words(bb_full_sboxes_words(x, rc, round))
}

/// The words after a partial round.
pub open spec fn bb_partial_round_words(
    x: Seq<nat>,
    rc: Seq<u32>,
    diag: Seq<u32>,
    round: int,
) -> Seq<nat> {
    bb_m_int_words(x.update(0, bb_sbox_word(bb_add_word(x[0], rc[24 * round] as nat))), diag)
}

/// The state after `k` rounds; rounds 4 to 24 are partial.
pub open spec fn bb_rounds_words(x: Seq<nat>, rc: Seq<u32>, diag: Seq<u32>, k: nat) -> Seq<nat>
    decreases k,
{
    if k == 0 {
        bb_m_ext_words(x)
    } else {
        let before = bb_rounds_words(x, rc, diag, (k - 1) as nat);
        if 4 <= k - 1 < 25 {
            bb_partial_round_words(before, rc, diag, k - 1)
        } else {
            bb_full_round_words(before, rc, k - 1)
        }
    }
}

/// The words that the BabyBear permutation gives.
pub open spec fn bb_permutation_words(x: Seq<nat>, rc: Seq<u32>, diag: Seq<u32>) -> Seq<nat> {
    bb_rounds_words(x, rc, diag, 29)
}

/// Every round keeps the number of words.
pub proof fn lemma_rounds_len(x: Seq<nat>, rc: Seq<u32>, diag: Seq<u32>, k: nat)
    ensures
        bb_rounds_words(x, rc, diag, k).len() == 24,
{
    reveal(bb_m_ext_words);
    reveal(bb_m_int_words);
}

fn bb_add(c: &mut Circuit, a: &BigIntWires, b: &BigIntWires) -> (r: BigIntWires)
    requires
        old(c).wf(),
        old(c).is_word(*a, 32),
        old(c).is_word(*b, 32),
    ensures
        final(c).grows(*old(c), 4, 0),
        final(c).adds(*old(c), field::mod_add_shapes()),
        final(c).is_word(r, 32),
        forall|env: Seq<bool>| #[trigger]
            final(c).word(env, r) == bb_add_word(old(c).word(env, *a), old(c).word(env, *b)),
{
    mod_add(c, a, b, BABYBEAR_P)
}

fn bb_mul(c: &mut Circuit, a: &BigIntWires, b: &BigIntWires) -> (r: BigIntWires)
    requires
        old(c).wf(),
        old(c).is_word(*a, 32),
        old(c).is_word(*b, 32),
    ensures
        final(c).grows(*old(c), 6, 1),
        final(c).adds(*old(c), field::monty_mul_shapes(BABYBEAR_P, BABYBEAR_MU)),
        final(c).is_word(r, 32),
        forall|env: Seq<bool>| #[trigger]
            final(c).word(env, r) == bb_mul_word(old(c).word(env, *a), old(c).word(env, *b)),
{
    monty_mul(c, a, b, BABYBEAR_P, BABYBEAR_MU)
}

/// The operations of the S-box.
#[verifier::opaque]
pub open spec fn bb_sbox_shapes() -> Seq<Shape> {
    circuit::repeated(field::monty_mul_shapes(BABYBEAR_P, BABYBEAR_MU), 4)
}

/// `x^7`: `x2 = x * x`, `x4 = x2 * x2`, `x6 = x4 * x2`, `x7 = x6 * x`.
fn bb_sbox(c: &mut Circuit, x: &BigIntWires) -> (r: BigIntWires)
    requires
        old(c).wf(),
        old(c).is_word(*x, 32),
    ensures
        final(c).grows(*old(c), 24, 4),
        final(c).adds(*old(c), bb_sbox_shapes()),
        final(c).is_word(r, 32),
        forall|env: Seq<bool>| #[trigger]
            final(c).word(env, r) == bb_sbox_word(old(c).word(env, *x)),
{
    reveal(bb_sbox_shapes);
    reveal_with_fuel(circuit::repeated, 5);
    let ghost c0 = *c;
    let x2 = bb_mul(c, x, x);
    let ghost c1 = *c;
    let x4 = bb_mul(c, &x2, &x2);
    let ghost c2 = *c;
    let x6 = bb_mul(c, &x4, &x2);
    let ghost c3 = *c;
    let r = bb_mul(c, &x6, x);
    proof {
        assert forall|env: Seq<bool>| #[trigger] c.word(env, r) == bb_sbox_word(
            c0.word(env, *x),
        ) by {
            let xv = c0.word(env, *x);
            assert(c1.word(env, x2) == bb_mul_word(xv, xv));
            assert(c2.word(env, x4) == bb_mul_word(c1.word(env, x2), c1.word(env, x2)));
            assert(c2.word(env, x2) == c1.word(env, x2));
            assert(c3.word(env, x6) == bb_mul_word(c2.word(env, x4), c2.word(env, x2)));
            assert(c3.word(env, *x) == xv);
        }
    }
    r
}

fn bb_double(c: &mut Circuit, x: &BigIntWires) -> (r: BigIntWires)
    requires
        old(c).wf(),
        old(c).is_word(*x, 32),
    ensures
        final(c).grows(*old(c), 4, 0),
        final(c).adds(*old(c), field::mod_add_shapes()),
        final(c).is_word(r, 32),
        forall|env: Seq<bool>| #[trigger]
            final(c).word(env, r) == bb_double_word(old(c).word(env, *x)),
{
    bb_add(c, x, x)
}

/// Twice doubled.
fn bb_quadruple(c: &mut Circuit, x: &BigIntWires) -> (r: BigIntWires)
    requires
        old(c).wf(),
        old(c).is_word(*x, 32),
    ensures
        final(c).grows(*old(c), 8, 0),
        final(c).adds(*old(c), circuit::repeated(field::mod_add_shapes(), 2)),
        final(c).is_word(r, 32),
        forall|env: Seq<bool>| #[trigger]
            final(c).word(env, r) == bb_double_word(bb_double_word(old(c).word(env, *x))),
{
    reveal_with_fuel(circuit::repeated, 3);
    let ghost c0 = *c;
    let x2 = bb_double(c, x);
    let ghost c1 = *c;
    let r = bb_double(c, &x2);
    proof {
        assert forall|env: Seq<bool>| #[trigger] c.word(env, r) == bb_double_word(
            bb_double_word(c0.word(env, *x)),
        ) by {
            assert(c1.word(env, x2) == bb_double_word(c0.word(env, *x)));
        }
    }
    r
}

/// A sum whose first term is doubled.
fn bb_double_add(c: &mut Circuit, x: &BigIntWires, y: &BigIntWires) -> (r: BigIntWires)
    requires
        old(c).wf(),
        old(c).is_word(*x, 32),
        old(c).is_word(*y, 32),
    ensures
        final(c).grows(*old(c), 8, 0),
        final(c).adds(*old(c), circuit::repeated(field::mod_add_shapes(), 2)),
        final(c).is_word(r, 32),
        forall|env: Seq<bool>| #[trigger]
            final(c).word(env, r) == bb_add_word(
                bb_double_word(old(c).word(env, *x)),
                old(c).word(env, *y),
            ),
{
    reveal_with_fuel(circuit::repeated, 3);
    let ghost c0 = *c;
    let x2 = bb_double(c, x);
    let ghost c1 = *c;
    let r = bb_add(c, &x2, y);
    proof {
        assert forall|env: Seq<bool>| #[trigger] c.word(env, r) == bb_add_word(
            bb_double_word(c0.word(env, *x)),
            c0.word(env, *y),
        ) by {
            assert(c1.word(env, x2) == bb_double_word(c0.word(env, *x)));
            assert(c1.word(env, *y) == c0.word(env, *y));
        }
    }
    r
}

/// A sum whose first term is quadrupled.
fn bb_quadruple_add(c: &mut Circuit, x: &BigIntWires, y: &BigIntWires) -> (r: BigIntWires)
    requires
        old(c).wf(),
        old(c).is_word(*x, 32),
        old(c).is_word(*y, 32),
    ensures
        final(c).grows(*old(c), 12, 0),
        final(c).adds(*old(c), circuit::repeated(field::mod_add_shapes(), 3)),
        final(c).is_word(r, 32),
        forall|env: Seq<bool>| #[trigger]
            final(c).word(env, r) == bb_add_word(
                bb_double_word(bb_double_word(old(c).word(env, *x))),
                old(c).word(env, *y),
            ),
{
    reveal_with_fuel(circuit::repeated, 4);
    let ghost c0 = *c;
    let x4 = bb_quadruple(c, x);
    let ghost c1 = *c;
    let r = bb_add(c, &x4, y);
    proof {
        assert forall|env: Seq<bool>| #[trigger] c.word(env, r) == bb_add_word(
            bb_double_word(bb_double_word(c0.word(env, *x))),
            c0.word(env, *y),
        ) by {
            assert(c1.word(env, x4) == bb_double_word(bb_double_word(c0.word(env, *x))));
            assert(c1.word(env, *y) == c0.word(env, *y));
        }
    }
    r
}

/// The operations of the 4x4 matrix.
#[verifier::opaque]
pub open spec fn bb_circulant_shapes() -> Seq<Shape> {
    circuit::repeated(field::mod_add_shapes(), 14)
}

/// Four cells times the 4x4 matrix; the products by 2 and 4 are doublings.
#[verifier::rlimit(30)]
fn bb_circulant(
    c: &mut Circuit,
    x0: &BigIntWires,
    x1: &BigIntWires,
    x2: &BigIntWires,
    x3: &BigIntWires,
) -> (r: (BigIntWires, BigIntWires, BigIntWires, BigIntWires))
    requires
        old(c).wf(),
        old(c).is_word(*x0, 32),
        old(c).is_word(*x1, 32),
        old(c).is_word(*x2, 32),
        old(c).is_word(*x3, 32),
    ensures
        final(c).grows(*old(c), 56, 0),
        final(c).adds(*old(c), bb_circulant_shapes()),
        final(c).is_word(r.0, 32),
        final(c).is_word(r.1, 32),
        final(c).is_word(r.2, 32),
        final(c).is_word(r.3, 32),
        forall|env: Seq<bool>| #[trigger]
            poseidon2::words4(*final(c), env, r) == bb_circulant_words(
                old(c).word(env, *x0),
                old(c).word(env, *x1),
                old(c).word(env, *x2),
                old(c).word(env, *x3),
            ),
{
    reveal(bb_circulant_shapes);
    reveal_with_fuel(circuit::repeated, 15);
    let ghost c0 = *c;
    let t0 = bb_add(c, x0, x1);
    let ghost c1 = *c;
    let t1 = bb_add(c, x2, x3);
    let ghost c2 = *c;
    let t2 = bb_double_add(c, x1, &t1);
    let ghost c3 = *c;
    let t3 = bb_double_add(c, x3, &t0);
    let ghost c4 = *c;
    let t4 = bb_quadruple_add(c, &t1, &t3);
    let ghost c5 = *c;
    let t5 = bb_quadruple_add(c, &t0, &t2);
    let ghost c6 = *c;
    let t6 = bb_add(c, &t3, &t5);
    let ghost c7 = *c;
    let t7 = bb_add(c, &t2, &t4);
    let r = (t6, t5, t7, t4);
    proof {
        assert forall|env: Seq<bool>| #[trigger] poseidon2::words4(*c, env, r) == bb_circulant_words(
            c0.word(env, *x0),
            c0.word(env, *x1),
            c0.word(env, *x2),
            c0.word(env, *x3),
        ) by {
            let (v0, v1) = (c0.word(env, *x0), c0.word(env, *x1));
            let (v2, v3) = (c0.word(env, *x2), c0.word(env, *x3));
            let w0 = bb_add_word(v0, v1);
            assert(c1.word(env, t0) == w0);
            let w1 = bb_add_word(v2, v3);
            assert(c1.word(env, *x2) == v2 && c1.word(env, *x3) == v3);
            assert(c2.word(env, t1) == w1);
            let w2 = bb_add_word(bb_double_word(v1), w1);
            assert(c2.word(env, *x1) == v1);
            assert(c3.word(env, t2) == w2);
            let w3 = bb_add_word(bb_double_word(v3), w0);
            assert(c3.word(env, *x3) == v3 && c3.word(env, t0) == w0);
            assert(c4.word(env, t3) == w3);
            let w4 = bb_add_word(bb_double_word(bb_double_word(w1)), w3);
            assert(c4.word(env, t1) == w1);
            assert(c5.word(env, t4) == w4);
            let w5 = bb_add_word(bb_double_word(bb_double_word(w0)), w2);
            assert(c5.word(env, t0) == w0 && c5.word(env, t2) == w2);
            assert(c6.word(env, t5) == w5);
            assert(c6.word(env, t3) == w3);
            assert(c7.word(env, t6) == bb_add_word(w3, w5));
            assert(c7.word(env, t2) == w2 && c7.word(env, t4) == w4);
            assert(c.word(env, t7) == bb_add_word(w2, w4));
            assert(c.word(env, t6) == bb_add_word(w3, w5));
            assert(c.word(env, t5) == w5);
            assert(c.word(env, t4) == w4);
            assert(poseidon2::words4(*c, env, r) =~= bb_circulant_words(v0, v1, v2, v3));
        }
    }
    r
}

/// The operations of the 4x4 matrix on every group.
#[verifier::opaque]
pub open spec fn bb_groups_shapes() -> Seq<Shape> {
    circuit::repeated(bb_circulant_shapes(), 6)
}

/// Every group of four cells times the 4x4 matrix.
#[verifier::rlimit(30)]
fn bb_groups(c: &mut Circuit, cells: &Vec<BigIntWires>) -> (r: Vec<BigIntWires>)
    requires
        old(c).wf(),
        cells@.len() == 24,
        old(c).is_row(cells@, 32),
    ensures
        final(c).grows(*old(c), 336, 0),
        final(c).adds(*old(c), bb_groups_shapes()),
        r@.len() == 24,
        final(c).is_row(r@, 32),
        forall|env: Seq<bool>| #[trigger]
            final(c).words(env, r@) == bb_groups_words(old(c).words(env, cells@)),
{
    reveal(bb_groups_shapes);
    let ghost c0 = *c;
    let mut r: Vec<BigIntWires> = Vec::new();
    let mut g: usize = 0;
    while g < 6
        invariant
            g <= 6,
            cells@.len() == 24,
            c0.is_row(cells@, 32),
            c.grows(c0, 56 * g as nat, 0),
            c.adds(c0, circuit::repeated(bb_circulant_shapes(), g as nat)),
            r@.len() == 4 * g,
            c.is_row(r@, 32),
            forall|env: Seq<bool>, i: int|
                0 <= i < 4 * g ==> #[trigger] c.words(env, r@)[i] == bb_groups_words(
                    c0.words(env, cells@),
                )[i],
        decreases 6 - g,
    {
        let ghost (c1, r1) = (*c, r@);
        proof {
            poseidon2::lemma_row_kept(c0, c1, cells@, 32);
            assert(c1.is_word(cells@[4 * g as int], 32));
            assert(c1.is_word(cells@[4 * g + 1], 32));
            assert(c1.is_word(cells@[4 * g + 2], 32));
            assert(c1.is_word(cells@[4 * g + 3], 32));
        }
        let q = bb_circulant(
            c,
            &cells[4 * g],
            &cells[4 * g + 1],
            &cells[4 * g + 2],
            &cells[4 * g + 3],
        );
        let ghost q0 = q;
        r.push(q.0);
        r.push(q.1);
        r.push(q.2);
        r.push(q.3);
        proof {
            poseidon2::lemma_row_kept(c1, *c, r1, 32);
            assert forall|i: int| 0 <= i < r@.len() implies c.is_word(#[trigger] r@[i], 32) by {
                if i < 4 * g {
                    assert(c.is_word(r1[i], 32));
                }
            }
            assert forall|env: Seq<bool>, i: int| 0 <= i < 4 * (g + 1) implies #[trigger] c.words(
                env,
                r@,
            )[i] == bb_groups_words(c0.words(env, cells@))[i] by {
                if i < 4 * g {
                    assert(c.words(env, r1)[i] == c1.words(env, r1)[i]);
                    assert(c.words(env, r@)[i] == c.words(env, r1)[i]);
                } else {
                    reveal(bb_groups_words);
                    let x = c0.words(env, cells@);
                    assert(c1.words(env, cells@) == x);
                    assert(c1.word(env, cells@[4 * g as int]) == x[4 * g as int]);
                    assert(c1.word(env, cells@[4 * g + 1]) == x[4 * g + 1]);
                    assert(c1.word(env, cells@[4 * g + 2]) == x[4 * g + 2]);
                    assert(c1.word(env, cells@[4 * g + 3]) == x[4 * g + 3]);
                    let w = poseidon2::words4(*c, env, q0);
                    assert(w == bb_circulant_words(
                        x[4 * g as int],
                        x[4 * g + 1],
                        x[4 * g + 2],
                        x[4 * g + 3],
                    ));
                    assert(i / 4 == g);
                    assert(c.words(env, r@)[i] == w[i % 4]);
                }
            }
        }
        g += 1;
    }
    proof {
        assert forall|env: Seq<bool>| #[trigger] c.words(env, r@) == bb_groups_words(
            c0.words(env, cells@),
        ) by {
            reveal(bb_groups_words);
            assert(c.words(env, r@) =~= bb_groups_words(c0.words(env, cells@)));
        }
    }
    r
}

/// The operations of the sum of a column.
#[verifier::opaque]
pub open spec fn bb_column_shapes() -> Seq<Shape> {
    circuit::repeated(field::mod_add_shapes(), 5)
}

/// The sum of cell `j` over all groups of four.
fn bb_column(c: &mut Circuit, y: &Vec<BigIntWires>, j: usize) -> (r: BigIntWires)
    requires
        old(c).wf(),
        y@.len() == 24,
        old(c).is_row(y@, 32),
        j < 4,
    ensures
        final(c).grows(*old(c), 20, 0),
        final(c).adds(*old(c), bb_column_shapes()),
        final(c).is_word(r, 32),
        forall|env: Seq<bool>| #[trigger]
            final(c).word(env, r) == bb_column_sum(old(c).words(env, y@), j as int, 6),
{
    reveal(bb_column_shapes);
    let ghost c0 = *c;
    assert(c0.is_word(y@[j as int], 32));
    let mut r = y[j].dup();
    proof {
        c0.lemma_same_wires(y@[j as int], r);
    }
    let mut k: usize = 1;
    while k < 6
        invariant
            1 <= k <= 6,
            j < 4,
            y@.len() == 24,
            c0.is_row(y@, 32),
            c.grows(c0, 4 * (k - 1) as nat, 0),
            c.adds(c0, circuit::repeated(field::mod_add_shapes(), (k - 1) as nat)),
            c.is_word(r, 32),
            forall|env: Seq<bool>| #[trigger]
                c.word(env, r) == bb_column_sum(c0.words(env, y@), j as int, k as nat),
        decreases 6 - k,
    {
        let ghost (c1, r1) = (*c, r);
        proof {
            poseidon2::lemma_row_kept(c0, c1, y@, 32);
            assert(c1.is_word(y@[4 * k + j], 32));
        }
        r = bb_add(c, &r, &y[4 * k + j]);
        proof {
            assert forall|env: Seq<bool>| #[trigger] c.word(env, r) == bb_column_sum(
                c0.words(env, y@),
                j as int,
                (k + 1) as nat,
            ) by {
                assert(c1.word(env, r1) == bb_column_sum(c0.words(env, y@), j as int, k as nat));
                assert(c1.words(env, y@) == c0.words(env, y@));
                assert(c1.word(env, y@[4 * k + j]) == c1.words(env, y@)[4 * k + j]);
            }
        }
        k += 1;
    }
    r
}

/// The operations of the sums of the columns.
#[verifier::opaque]
pub open spec fn bb_columns_shapes() -> Seq<Shape> {
    circuit::repeated(bb_column_shapes(), 4)
}

/// The sums of [`bb_column`] for the four cells of a group.
fn bb_columns(c: &mut Circuit, y: &Vec<BigIntWires>) -> (r: Vec<BigIntWires>)
    requires
        old(c).wf(),
        y@.len() == 24,
        old(c).is_row(y@, 32),
    ensures
        final(c).grows(*old(c), 80, 0),
        final(c).adds(*old(c), bb_columns_shapes()),
        r@.len() == 4,
        final(c).is_row(r@, 32),
        forall|env: Seq<bool>, j: int|
            0 <= j < 4 ==> #[trigger] final(c).words(env, r@)[j] == bb_column_sum(
                old(c).words(env, y@),
                j,
                6,
            ),
{
    reveal(bb_columns_shapes);
    let ghost c0 = *c;
    let mut r: Vec<BigIntWires> = Vec::new();
    while r.len() < 4
        invariant
            r@.len() <= 4,
            y@.len() == 24,
            c0.is_row(y@, 32),
            c.grows(c0, 20 * r@.len(), 0),
            c.adds(c0, circuit::repeated(bb_column_shapes(), r@.len())),
            c.is_row(r@, 32),
            forall|env: Seq<bool>, j: int|
                0 <= j < r@.len() ==> #[trigger] c.words(env, r@)[j] == bb_column_sum(
                    c0.words(env, y@),
                    j,
                    6,
                ),
        decreases 4 - r@.len(),
    {
        let ghost (c1, r1) = (*c, r@);
        let k = r.len();
        proof {
            poseidon2::lemma_row_kept(c0, c1, y@, 32);
        }
        let s = bb_column(c, y, k);
        let ghost s0 = s;
        r.push(s);
        proof {
            poseidon2::lemma_row_kept(c1, *c, r1, 32);
            assert forall|i: int| 0 <= i < r@.len() implies c.is_word(#[trigger] r@[i], 32) by {
                if i < k {
                    assert(c.is_word(r1[i], 32));
                }
            }
            assert forall|env: Seq<bool>, j: int| 0 <= j < r@.len() implies #[trigger] c.words(
                env,
                r@,
            )[j] == bb_column_sum(c0.words(env, y@), j, 6) by {
                if j < k {
                    assert(c.words(env, r1)[j] == c1.words(env, r1)[j]);
                    assert(c.words(env, r@)[j] == c.words(env, r1)[j]);
                } else {
                    assert(c.word(env, s0) == bb_column_sum(c1.words(env, y@), j, 6));
                    assert(c1.words(env, y@) == c0.words(env, y@));
                }
            }
        }
    }
    r
}

/// The operations of the external linear layer.
#[verifier::opaque]
pub open spec fn bb_m_ext_shapes() -> Seq<Shape> {
    bb_groups_shapes() + bb_columns_shapes() + circuit::repeated(field::mod_add_shapes(), 24)
}

/// The external linear layer.
#[verifier::rlimit(30)]
fn bb_m_ext(c: &mut Circuit, cells: &Vec<BigIntWires>) -> (r: Vec<BigIntWires>)
    requires
        old(c).wf(),
        cells@.len() == 24,
        old(c).is_row(cells@, 32),
    ensures
        final(c).grows(*old(c), 512, 0),
        final(c).adds(*old(c), bb_m_ext_shapes()),
        r@.len() == 24,
        final(c).is_row(r@, 32),
        forall|env: Seq<bool>| #[trigger]
            final(c).words(env, r@) == bb_m_ext_words(old(c).words(env, cells@)),
{
    reveal(bb_m_ext_shapes);
    let ghost c0 = *c;
    let y = bb_groups(c, cells);
    let ghost c1 = *c;
    let sums = bb_columns(c, &y);
    let ghost c2 = *c;
    proof {
        poseidon2::lemma_row_kept(c1, c2, y@, 32);
    }
    let mut r: Vec<BigIntWires> = Vec::new();
    while r.len() < 24
        invariant
            r@.len() <= 24,
            y@.len() == 24,
            sums@.len() == 4,
            c2.is_row(y@, 32),
            c2.is_row(sums@, 32),
            c.grows(c2, 4 * r@.len(), 0),
            c.adds(c2, circuit::repeated(field::mod_add_shapes(), r@.len())),
            c.is_row(r@, 32),
            forall|env: Seq<bool>, i: int|
                0 <= i < r@.len() ==> #[trigger] c.words(env, r@)[i] == bb_add_word(
                    c2.words(env, y@)[i],
                    c2.words(env, sums@)[i % 4],
                ),
        decreases 24 - r@.len(),
    {
        let ghost (c3, r3) = (*c, r@);
        let k = r.len();
        proof {
            poseidon2::lemma_row_kept(c2, c3, y@, 32);
            poseidon2::lemma_row_kept(c2, c3, sums@, 32);
            assert(c3.is_word(y@[k as int], 32));
            assert(c3.is_word(sums@[(k % 4) as int], 32));
        }
        let s = bb_add(c, &y[k], &sums[k % 4]);
        let ghost s0 = s;
        r.push(s);
        proof {
            poseidon2::lemma_row_kept(c3, *c, r3, 32);
            assert forall|i: int| 0 <= i < r@.len() implies c.is_word(#[trigger] r@[i], 32) by {
                if i < k {
                    assert(c.is_word(r3[i], 32));
                }
            }
            assert forall|env: Seq<bool>, i: int| 0 <= i < r@.len() implies #[trigger] c.words(
                env,
                r@,
            )[i] == bb_add_word(c2.words(env, y@)[i], c2.words(env, sums@)[i % 4]) by {
                if i < k {
                    assert(c.words(env, r3)[i] == c3.words(env, r3)[i]);
                    assert(c.words(env, r@)[i] == c.words(env, r3)[i]);
                } else {
                    assert(c3.words(env, y@) == c2.words(env, y@));
                    assert(c3.words(env, sums@) == c2.words(env, sums@));
                    assert(c.word(env, s0) == bb_add_word(
                        c3.words(env, y@)[i],
                        c3.words(env, sums@)[i % 4],
                    ));
                }
            }
        }
    }
    proof {
        assert forall|env: Seq<bool>| #[trigger] c.words(env, r@) == bb_m_ext_words(
            c0.words(env, cells@),
        ) by {
            reveal(bb_m_ext_words);
            let yv = bb_groups_words(c0.words(env, cells@));
            assert(c1.words(env, y@) == yv);
            assert(c2.words(env, y@) == yv);
            assert forall|i: int| 0 <= i < 24 implies c.words(env, r@)[i] == bb_add_word(
                yv[i],
                bb_column_sum(yv, i % 4, 6),
            ) by {
                assert(c2.words(env, sums@)[i % 4] == bb_column_sum(
                    c1.words(env, y@),
                    i % 4,
                    6,
                ));
            }
            assert(c.words(env, r@) =~= bb_m_ext_words(c0.words(env, cells@)));
        }
    }
    r
}

/// The operations of the sum of all cells.
#[verifier::opaque]
pub open spec fn bb_row_shapes() -> Seq<Shape> {
    circuit::repeated(field::mod_add_shapes(), 23)
}

/// The sum of all cells.
fn bb_row(c: &mut Circuit, cells: &Vec<BigIntWires>) -> (r: BigIntWires)
    requires
        old(c).wf(),
        cells@.len() == 24,
        old(c).is_row(cells@, 32),
    ensures
        final(c).grows(*old(c), 92, 0),
        final(c).adds(*old(c), bb_row_shapes()),
        final(c).is_word(r, 32),
        forall|env: Seq<bool>| #[trigger]
            final(c).word(env, r) == bb_row_sum(old(c).words(env, cells@), 24),
{
    reveal(bb_row_shapes);
    let ghost c0 = *c;
    assert(c0.is_word(cells@[0], 32));
    let mut r = cells[0].dup();
    proof {
        c0.lemma_same_wires(cells@[0], r);
    }
    let mut k: usize = 1;
    while k < 24
        invariant
            1 <= k <= 24,
            cells@.len() == 24,
            c0.is_row(cells@, 32),
            c.grows(c0, 4 * (k - 1) as nat, 0),
            c.adds(c0, circuit::repeated(field::mod_add_shapes(), (k - 1) as nat)),
            c.is_word(r, 32),
            forall|env: Seq<bool>| #[trigger]
                c.word(env, r) == bb_row_sum(c0.words(env, cells@), k as nat),
        decreases 24 - k,
    {
        let ghost (c1, r1) = (*c, r);
        proof {
            poseidon2::lemma_row_kept(c0, c1, cells@, 32);
            assert(c1.is_word(cells@[k as int], 32));
        }
        r = bb_add(c, &r, &cells[k]);
        proof {
            assert forall|env: Seq<bool>| #[trigger] c.word(env, r) == bb_row_sum(
                c0.words(env, cells@),
                (k + 1) as nat,
            ) by {
                assert(c1.word(env, r1) == bb_row_sum(c0.words(env, cells@), k as nat));
                assert(c1.words(env, cells@) == c0.words(env, cells@));
                assert(c1.word(env, cells@[k as int]) == c1.words(env, cells@)[k as int]);
            }
        }
        k += 1;
    }
    r
}

/// The operations of the first `k` cells' products with the diagonal and sums.
pub open spec fn bb_diagonal_shapes(diag: Seq<u32>, k: nat) -> Seq<Shape>
    decreases k,
{
    if k == 0 {
        Seq::empty()
    } else {
        bb_diagonal_shapes(diag, (k - 1) as nat) + field::monty_mul_const_shapes(
            diag[k - 1],
            BABYBEAR_P,
            BABYBEAR_MU,
        ) + field::mod_add_shapes()
    }
}

/// The operations of the internal linear layer.
#[verifier::opaque]
pub open spec fn bb_m_int_shapes(diag: Seq<u32>) -> Seq<Shape> {
    bb_row_shapes() + bb_diagonal_shapes(diag, 24)
}

/// The internal linear layer.
#[verifier::rlimit(30)]
fn bb_m_int(c: &mut Circuit, cells: &Vec<BigIntWires>, diag: &Vec<u32>) -> (r: Vec<BigIntWires>)
    requires
        old(c).wf(),
        cells@.len() == 24,
        old(c).is_row(cells@, 32),
        diag@.len() == 24,
    ensures
        final(c).grows(*old(c), 332, 0),
        final(c).adds(*old(c), bb_m_int_shapes(diag@)),
        r@.len() == 24,
        final(c).is_row(r@, 32),
        forall|env: Seq<bool>| #[trigger]
            final(c).words(env, r@) == bb_m_int_words(old(c).words(env, cells@), diag@),
{
    reveal(bb_m_int_shapes);
    let ghost c0 = *c;
    let sum = bb_row(c, cells);
    let ghost c1 = *c;
    proof {
        poseidon2::lemma_row_kept(c0, c1, cells@, 32);
    }
    let mut r: Vec<BigIntWires> = Vec::new();
    while r.len() < 24
        invariant
            r@.len() <= 24,
            cells@.len() == 24,
            diag@.len() == 24,
            c1.is_row(cells@, 32),
            c1.is_word(sum, 32),
            c.grows(c1, 10 * r@.len(), 0),
            c.adds(c1, bb_diagonal_shapes(diag@, r@.len())),
            c.is_row(r@, 32),
            forall|env: Seq<bool>, i: int|
                0 <= i < r@.len() ==> #[trigger] c.words(env, r@)[i] == bb_add_word(
                    c1.word(env, sum),
                    bb_mul_word(c1.words(env, cells@)[i], diag@[i] as nat),
                ),
        decreases 24 - r@.len(),
    {
        let ghost (c3, r3) = (*c, r@);
        let k = r.len();
        proof {
            poseidon2::lemma_row_kept(c1, c3, cells@, 32);
            assert(c3.is_word(cells@[k as int], 32));
        }
        let d = monty_mul_const(c, &cells[k], diag[k], BABYBEAR_P, BABYBEAR_MU);
        let ghost c4 = *c;
        let s = bb_add(c, &sum, &d);
        let ghost s0 = s;
        r.push(s);
        proof {
            poseidon2::lemma_row_kept(c3, *c, r3, 32);
            assert forall|i: int| 0 <= i < r@.len() implies c.is_word(#[trigger] r@[i], 32) by {
                if i < k {
                    assert(c.is_word(r3[i], 32));
                }
            }
            assert forall|env: Seq<bool>, i: int| 0 <= i < r@.len() implies #[trigger] c.words(
                env,
                r@,
            )[i] == bb_add_word(
                c1.word(env, sum),
                bb_mul_word(c1.words(env, cells@)[i], diag@[i] as nat),
            ) by {
                if i < k {
                    assert(c.words(env, r3)[i] == c3.words(env, r3)[i]);
                    assert(c.words(env, r@)[i] == c.words(env, r3)[i]);
                } else {
                    assert(c3.words(env, cells@) == c1.words(env, cells@));
                    assert(c3.word(env, cells@[i]) == c3.words(env, cells@)[i]);
                    assert(c4.word(env, d) == bb_mul_word(
                        c1.words(env, cells@)[i],
                        diag@[i] as nat,
                    ));
                    assert(c4.word(env, sum) == c1.word(env, sum));
                    assert(c.word(env, s0) == bb_add_word(c4.word(env, sum), c4.word(env, d)));
                }
            }
        }
    }
    proof {
        assert forall|env: Seq<bool>| #[trigger] c.words(env, r@) == bb_m_int_words(
            c0.words(env, cells@),
            diag@,
        ) by {
            reveal(bb_m_int_words);
            let x = c0.words(env, cells@);
            assert(c1.words(env, cells@) == x);
            assert(c1.word(env, sum) == bb_row_sum(x, 24));
            assert(c.words(env, r@) =~= bb_m_int_words(x, diag@));
        }
    }
    r
}

/// The operations of a round constant and the S-box.
#[verifier::opaque]
pub open spec fn bb_constant_sbox_shapes() -> Seq<Shape> {
    field::mod_add_shapes() + bb_sbox_shapes()
}

/// A cell plus a round constant, through the S-box.
fn bb_constant_sbox(c: &mut Circuit, x: &BigIntWires, rc: u32) -> (r: BigIntWires)
    requires
        old(c).wf(),
        old(c).is_word(*x, 32),
    ensures
        final(c).grows(*old(c), 28, 4),
        final(c).adds(*old(c), bb_constant_sbox_shapes()),
        final(c).is_word(r, 32),
        forall|env: Seq<bool>| #[trigger]
            final(c).word(env, r) == bb_sbox_word(bb_add_word(old(c).word(env, *x), rc as nat)),
{
    reveal(bb_constant_sbox_shapes);
    let ghost c0 = *c;
    let k = constant(rc);
    proof {
        bits::lemma_word_powers();
        c0.lemma_constant(k, rc as nat, 32);
    }
    let s = bb_add(c, x, &k);
    let ghost c1 = *c;
    let r = bb_sbox(c, &s);
    proof {
        assert forall|env: Seq<bool>| #[trigger] c.word(env, r) == bb_sbox_word(
            bb_add_word(c0.word(env, *x), rc as nat),
        ) by {
            assert(c0.word(env, k) == rc);
            assert(c1.word(env, s) == bb_add_word(c0.word(env, *x), rc as nat));
        }
    }
    r
}

/// Round constants and S-boxes on all cells.
fn bb_full_sboxes(
    c: &mut Circuit,
    cells: &Vec<BigIntWires>,
    rc: &Vec<u32>,
    round: usize,
) -> (r: Vec<BigIntWires>)
    requires
        old(c).wf(),
        cells@.len() == 24,
        old(c).is_row(cells@, 32),
        rc@.len() == 696,
        round < 29,
    ensures
        final(c).grows(*old(c), 672, 96),
        final(c).adds(*old(c), circuit::repeated(bb_constant_sbox_shapes(), 24)),
        r@.len() == 24,
        final(c).is_row(r@, 32),
        forall|env: Seq<bool>| #[trigger]
            final(c).words(env, r@) == bb_full_sboxes_words(
                old(c).words(env, cells@),
                rc@,
                round as int,
            ),
{
    let ghost c0 = *c;
    let mut r: Vec<BigIntWires> = Vec::new();
    while r.len() < 24
        invariant
            r@.len() <= 24,
            cells@.len() == 24,
            rc@.len() == 696,
            round < 29,
            c0.is_row(cells@, 32),
            c.grows(c0, 28 * r@.len(), 4 * r@.len()),
            c.adds(c0, circuit::repeated(bb_constant_sbox_shapes(), r@.len())),
            c.is_row(r@, 32),
            forall|env: Seq<bool>, i: int|
                0 <= i < r@.len() ==> #[trigger] c.words(env, r@)[i] == bb_sbox_word(
                    bb_add_word(c0.words(env, cells@)[i], rc@[24 * round + i] as nat),
                ),
        decreases 24 - r@.len(),
    {
        let ghost (c3, r3) = (*c, r@);
        let k = r.len();
        proof {
            poseidon2::lemma_row_kept(c0, c3, cells@, 32);
            assert(c3.is_word(cells@[k as int], 32));
        }
        let s = bb_constant_sbox(c, &cells[k], rc[CELLS * round + k]);
        let ghost s0 = s;
        r.push(s);
        proof {
            poseidon2::lemma_row_kept(c3, *c, r3, 32);
            assert forall|i: int| 0 <= i < r@.len() implies c.is_word(#[trigger] r@[i], 32) by {
                if i < k {
                    assert(c.is_word(r3[i], 32));
                }
            }
            assert forall|env: Seq<bool>, i: int| 0 <= i < r@.len() implies #[trigger] c.words(
                env,
                r@,
            )[i] == bb_sbox_word(
                bb_add_word(c0.words(env, cells@)[i], rc@[24 * round + i] as nat),
            ) by {
                if i < k {
                    assert(c.words(env, r3)[i] == c3.words(env, r3)[i]);
                    assert(c.words(env, r@)[i] == c.words(env, r3)[i]);
                } else {
                    assert(c3.words(env, cells@) == c0.words(env, cells@));
                    assert(c3.word(env, cells@[i]) == c3.words(env, cells@)[i]);
                    assert(c.word(env, s0) == bb_sbox_word(
                        bb_add_word(c3.word(env, cells@[i]), rc@[24 * round + i] as nat),
                    ));
                }
            }
        }
    }
    proof {
        assert forall|env: Seq<bool>| #[trigger] c.words(env, r@) == bb_full_sboxes_words(
            c0.words(env, cells@),
            rc@,
            round as int,
        ) by {
            reveal(bb_full_sboxes_words);
            assert(c.words(env, r@) =~= bb_full_sboxes_words(
                c0.words(env, cells@),
                rc@,
                round as int,
            ));
        }
    }
    r
}

/// The operations of a full round.
#[verifier::opaque]
pub open spec fn bb_full_round_shapes() -> Seq<Shape> {
    circuit::repeated(bb_constant_sbox_shapes(), 24) + bb_m_ext_shapes()
}

fn bb_full_round(
    c: &mut Circuit,
    cells: &Vec<BigIntWires>,
    rc: &Vec<u32>,
    round: usize,
) -> (r: Vec<BigIntWires>)
    requires
        old(c).wf(),
        cells@.len() == 24,
        old(c).is_row(cells@, 32),
        rc@.len() == 696,
        round < 29,
    ensures
        final(c).grows(*old(c), 1184, 96),
        final(c).adds(*old(c), bb_full_round_shapes()),
        r@.len() == 24,
        final(c).is_row(r@, 32),
        forall|env: Seq<bool>| #[trigger]
            final(c).words(env, r@) == bb_full_round_words(
                old(c).words(env, cells@),
                rc@,
                round as int,
            ),
{
    reveal(bb_full_round_shapes);
    let ghost c0 = *c;
    let s = bb_full_sboxes(c, cells, rc, round);
    let ghost c1 = *c;
    let r = bb_m_ext(c, &s);
    proof {
        assert forall|env: Seq<bool>| #[trigger] c.words(env, r@) == bb_full_round_words(
            c0.words(env, cells@),
            rc@,
            round as int,
        ) by {
            assert(c1.words(env, s@) == bb_full_sboxes_words(
                c0.words(env, cells@),
                rc@,
                round as int,
            ));
        }
    }
    r
}

/// The operations of a partial round.
#[verifier::opaque]
pub open spec fn bb_partial_round_shapes(diag: Seq<u32>) -> Seq<Shape> {
    bb_constant_sbox_shapes() + bb_m_int_shapes(diag)
}

fn bb_partial_round(
    c: &mut Circuit,
    cells: &Vec<BigIntWires>,
    rc: &Vec<u32>,
    diag: &Vec<u32>,
    round: usize,
) -> (r: Vec<BigIntWires>)
    requires
        old(c).wf(),
        cells@.len() == 24,
        old(c).is_row(cells@, 32),
        rc@.len() == 696,
        diag@.len() == 24,
        round < 29,
    ensures
        final(c).grows(*old(c), 360, 4),
        final(c).adds(*old(c), bb_partial_round_shapes(diag@)),
        r@.len() == 24,
        final(c).is_row(r@, 32),
        forall|env: Seq<bool>| #[trigger]
            final(c).words(env, r@) == bb_partial_round_words(
                old(c).words(env, cells@),
                rc@,
                diag@,
                round as int,
            ),
{
    reveal(bb_partial_round_shapes);
    let ghost c0 = *c;
    assert(c0.is_word(cells@[0], 32));
    let s = bb_constant_sbox(c, &cells[0], rc[CELLS * round]);
    let ghost (c1, s0) = (*c, s);
    let mut next = poseidon2::dup_row(cells);
    let ghost copy = next@;
    proof {
        poseidon2::lemma_row_kept(c0, c1, cells@, 32);
        poseidon2::lemma_dup_row(c1, cells@, copy, 32);
    }
    next.set(0, s);
    proof {
        assert forall|i: int| 0 <= i < 24 implies c1.is_word(#[trigger] next@[i], 32) by {
            if i > 0 {
                assert(c1.is_word(copy[i], 32));
            }
        }
    }
    let r = bb_m_int(c, &next, diag);
    proof {
        assert forall|env: Seq<bool>| #[trigger] c.words(env, r@) == bb_partial_round_words(
            c0.words(env, cells@),
            rc@,
            diag@,
            round as int,
        ) by {
            let x = c0.words(env, cells@);
            assert(c1.words(env, copy) == c1.words(env, cells@));
            assert(c1.words(env, cells@) == x);
            assert(c1.word(env, s0) == bb_sbox_word(bb_add_word(x[0], rc@[24 * round] as nat)));
            assert forall|i: int| 0 < i < 24 implies c1.words(env, next@)[i] == x[i] by {
                assert(c1.words(env, copy)[i] == x[i]);
            }
            assert(c1.words(env, next@) =~= x.update(
                0,
                bb_sbox_word(bb_add_word(x[0], rc@[24 * round] as nat)),
            ));
        }
    }
    r
}

/// The operations of the first linear layer and `k` rounds.
pub open spec fn bb_rounds_shapes(diag: Seq<u32>, k: nat) -> Seq<Shape>
    decreases k,
{
    if k == 0 {
        bb_m_ext_shapes()
    } else if 4 <= k - 1 < 25 {
        bb_rounds_shapes(diag, (k - 1) as nat) + bb_partial_round_shapes(diag)
    } else {
        bb_rounds_shapes(diag, (k - 1) as nat) + bb_full_round_shapes()
    }
}

/// The BabyBear permutation with given round constants and diagonal, both in
/// Montgomery form.
#[verifier::rlimit(30)]
pub fn bb_permutation(
    c: &mut Circuit,
    cells: &Vec<BigIntWires>,
    rc: &Vec<u32>,
    diag: &Vec<u32>,
) -> (r: Vec<BigIntWires>)
    requires
        old(c).wf(),
        cells@.len() == 24,
        old(c).is_row(cells@, 32),
        rc@.len() == 696,
        diag@.len() == 24,
    ensures
        final(c).grows(*old(c), 17544, 852),
        final(c).adds(*old(c), bb_rounds_shapes(diag@, 29)),
        r@.len() == 24,
        final(c).is_row(r@, 32),
        forall|env: Seq<bool>| #[trigger]
            final(c).words(env, r@) == bb_permutation_words(
                old(c).words(env, cells@),
                rc@,
                diag@,
            ),
{
    let ghost c0 = *c;
    let mut r = bb_m_ext(c, cells);
    let mut round: usize = 0;
    while round < 2 * ROUNDS_HALF_FULL + ROUNDS_PARTIAL
        invariant
            round <= 29,
            rc@.len() == 696,
            diag@.len() == 24,
            r@.len() == 24,
            c.is_row(r@, 32),
            c.grows(c0, bb_ops(round as nat), bb_products(round as nat)),
            c.adds(c0, bb_rounds_shapes(diag@, round as nat)),
            forall|env: Seq<bool>| #[trigger]
                c.words(env, r@) == bb_rounds_words(
                    c0.words(env, cells@),
                    rc@,
                    diag@,
                    round as nat,
                ),
        decreases 29 - round,
    {
        let ghost (c1, r1) = (*c, r@);
        if ROUNDS_HALF_FULL <= round && round < ROUNDS_HALF_FULL + ROUNDS_PARTIAL {
            r = bb_partial_round(c, &r, rc, diag, round);
        } else {
            r = bb_full_round(c, &r, rc, round);
        }
        proof {
            assert(c.grows(c0, bb_ops((round + 1) as nat), bb_products((round + 1) as nat)));
            assert(c.adds(c0, bb_rounds_shapes(diag@, (round + 1) as nat)));
            assert forall|env: Seq<bool>| #[trigger] c.words(env, r@) == bb_rounds_words(
                c0.words(env, cells@),
                rc@,
                diag@,
                (round + 1) as nat,
            ) by {
                assert(c1.words(env, r1) == bb_rounds_words(
                    c0.words(env, cells@),
                    rc@,
                    diag@,
                    round as nat,
                ));
            }
        }
        round += 1;
    }
    r
}

/// Operations after the first linear layer and `k` rounds.
spec fn bb_ops(k: nat) -> nat {
    if k <= 4 {
        512 + 1184 * k
    } else if k <= 25 {
        (5248 + 360 * (k - 4)) as nat
    } else {
        (12808 + 1184 * (k - 25)) as nat
    }
}

/// Products after `k` rounds.
spec fn bb_products(k: nat) -> nat {
    if k <= 4 {
        96 * k
    } else if k <= 25 {
        (384 + 4 * (k - 4)) as nat
    } else {
        (468 + 96 * (k - 25)) as nat
    }
}

/// Row `r` of the 4x4 matrix times four elements.
pub open spec fn matrix_row(r: int, x0: nat, x1: nat, x2: nat, x3: nat) -> nat {
    if r == 0 {
        5 * x0 + 7 * x1 + x2 + 3 * x3
    } else if r == 1 {
        4 * x0 + 6 * x1 + x2 + x3
    } else if r == 2 {
        x0 + 3 * x1 + 5 * x2 + 7 * x3
    } else {
        x0 + x1 + 4 * x2 + 6 * x3
    }
}

/// Every group of four elements times the 4x4 matrix.
#[verifier::opaque]
pub open spec fn groups_values(x: Seq<nat>) -> Seq<nat> {
    Seq::new(
        24,
        |i: int|
            matrix_row(
                i % 4,
                x[4 * (i / 4)],
                x[4 * (i / 4) + 1],
                x[4 * (i / 4) + 2],
                x[4 * (i / 4) + 3],
            ),
    )
}

/// The sum of element `j` over the first `k` groups of four.
pub open spec fn column_value(y: Seq<nat>, j: int, k: nat) -> nat
    decreases k,
{
    if k <= 1 {
        y[j]
    } else {
        column_value(y, j, (k - 1) as nat) + y[4 * (k - 1) + j]
    }
}

/// The external linear layer on field elements.
#[verifier::opaque]
pub open spec fn m_ext_values(x: Seq<nat>) -> Seq<nat> {
    let y = groups_values(x);
    Seq::new(24, |i: int| (y[i] + column_value(y, i % 4, 6)) % (BABYBEAR_P as nat))
}

/// The sum of the first `k` elements.
pub open spec fn row_value(x: Seq<nat>, k: nat) -> nat
    decreases k,
{
    if k <= 1 {
        x[0]
    } else {
        row_value(x, (k - 1) as nat) + x[k - 1]
    }
}

/// The internal linear layer on field elements.
#[verifier::opaque]
pub open spec fn m_int_values(x: Seq<nat>, diag: Seq<nat>) -> Seq<nat> {
    Seq::new(24, |i: int| (row_value(x, 24) + x[i] * diag[i]) % (BABYBEAR_P as nat))
}

/// The S-box on a field element, a round constant added first.
pub open spec fn sbox_value(x: nat, rc: nat) -> nat {
    (pow((x + rc) as int, 7) % (BABYBEAR_P as int)) as nat
}

/// Round constants and S-boxes on all elements.
#[verifier::opaque]
pub open spec fn full_sboxes_values(x: Seq<nat>, rc: Seq<nat>, round: int) -> Seq<nat> {
    Seq::new(24, |i: int| sbox_value(x[i], rc[24 * round + i]))
}

/// The state of field elements after `k` rounds.
pub open spec fn rounds_values(x: Seq<nat>, rc: Seq<nat>, diag: Seq<nat>, k: nat) -> Seq<nat>
    decreases k,
{
    if k == 0 {
        m_ext_values(x)
    } else {
        let before = rounds_values(x, rc, diag, (k - 1) as nat);
        if 4 <= k - 1 < 25 {
            m_int_values(before.update(0, sbox_value(before[0], rc[24 * (k - 1)])), diag)
        } else {
            m_ext_values(full_sboxes_values(before, rc, k - 1))
        }
    }
}

/// The permutation of 24 field elements.
pub open spec fn permutation_values(x: Seq<nat>, rc: Seq<nat>, diag: Seq<nat>) -> Seq<nat> {
    rounds_values(x, rc, diag, 29)
}

spec fn bb_stands(w: nat, v: nat) -> bool {
    montgomery::stands_for(w, v, BABYBEAR_P as nat)
}

spec fn bb_all_stand(ws: Seq<nat>, vs: Seq<nat>) -> bool {
    montgomery::all_stand_for(ws, vs, BABYBEAR_P as nat)
}

proof fn lemma_bb_add_stands(w1: nat, v1: nat, w2: nat, v2: nat)
    requires
        bb_stands(w1, v1),
        bb_stands(w2, v2),
    ensures
        bb_stands(bb_add_word(w1, w2), v1 + v2),
{
    montgomery::law_parameters();
    montgomery::lemma_add_stands(w1, v1, w2, v2, BABYBEAR_P as nat, BABYBEAR_MU as nat);
}

proof fn lemma_bb_mul_stands(w1: nat, v1: nat, w2: nat, v2: nat)
    requires
        bb_stands(w1, v1),
        bb_stands(w2, v2),
    ensures
        bb_stands(bb_mul_word(w1, w2), v1 * v2),
{
    montgomery::law_parameters();
    montgomery::lemma_mul_stands(w1, v1, w2, v2, BABYBEAR_P as nat, BABYBEAR_MU as nat);
}

proof fn lemma_sbox_stands(w: nat, v: nat)
    requires
        bb_stands(w, v),
    ensures
        bb_stands(bb_sbox_word(w), pow(v as int, 7) as nat),
        pow(v as int, 7) >= 0,
{
    let w2 = bb_mul_word(w, w);
    let w4 = bb_mul_word(w2, w2);
    let w6 = bb_mul_word(w4, w2);
    lemma_bb_mul_stands(w, v, w, v);
    lemma_bb_mul_stands(w2, v * v, w2, v * v);
    lemma_bb_mul_stands(w4, (v * v) * (v * v), w2, v * v);
    lemma_bb_mul_stands(w6, ((v * v) * (v * v)) * (v * v), w, v);
    let i = v as int;
    assert(pow(i, 7) == i * (i * (i * (i * (i * (i * (i * 1))))))) by {
        reveal_with_fuel(pow, 8);
    }
    assert(i * (i * (i * (i * (i * (i * (i * 1)))))) == (((i * i) * (i * i)) * (i * i)) * i)
        by (nonlinear_arith);
    assert((((i * i) * (i * i)) * (i * i)) * i >= 0) by (nonlinear_arith)
        requires
            i >= 0,
    ;
}

/// A cell plus a round constant, through the S-box.
proof fn lemma_constant_sbox_stands(w: nat, v: nat, rc: u32, rcv: nat)
    requires
        bb_stands(w, v),
        bb_stands(rc as nat, rcv),
    ensures
        bb_stands(bb_sbox_word(bb_add_word(w, rc as nat)), sbox_value(v, rcv)),
        sbox_value(v, rcv) < BABYBEAR_P,
{
    lemma_bb_add_stands(w, v, rc as nat, rcv);
    lemma_sbox_stands(bb_add_word(w, rc as nat), v + rcv);
    lemma_mod_twice(pow((v + rcv) as int, 7), BABYBEAR_P as int);
}

proof fn lemma_circulant_stands(x: Seq<nat>, v: Seq<nat>)
    requires
        x.len() == 4,
        bb_all_stand(x, v),
    ensures
        forall|r: int|
            0 <= r < 4 ==> bb_stands(
                #[trigger] bb_circulant_words(x[0], x[1], x[2], x[3])[r],
                matrix_row(r, v[0], v[1], v[2], v[3]),
            ),
{
    assert(bb_stands(x[0], v[0]) && bb_stands(x[1], v[1]) && bb_stands(x[2], v[2]) && bb_stands(
        x[3],
        v[3],
    ));
    let t0 = bb_add_word(x[0], x[1]);
    let t1 = bb_add_word(x[2], x[3]);
    lemma_bb_add_stands(x[0], v[0], x[1], v[1]);
    lemma_bb_add_stands(x[2], v[2], x[3], v[3]);
    let (t0v, t1v) = (v[0] + v[1], v[2] + v[3]);
    lemma_bb_add_stands(x[1], v[1], x[1], v[1]);
    lemma_bb_add_stands(bb_double_word(x[1]), v[1] + v[1], t1, t1v);
    let t2 = bb_add_word(bb_double_word(x[1]), t1);
    let t2v = v[1] + v[1] + t1v;
    lemma_bb_add_stands(x[3], v[3], x[3], v[3]);
    lemma_bb_add_stands(bb_double_word(x[3]), v[3] + v[3], t0, t0v);
    let t3 = bb_add_word(bb_double_word(x[3]), t0);
    let t3v = v[3] + v[3] + t0v;
    lemma_bb_add_stands(t1, t1v, t1, t1v);
    lemma_bb_add_stands(bb_double_word(t1), t1v + t1v, bb_double_word(t1), t1v + t1v);
    let t4 = bb_add_word(bb_double_word(bb_double_word(t1)), t3);
    let t4v = t1v + t1v + (t1v + t1v) + t3v;
    lemma_bb_add_stands(bb_double_word(bb_double_word(t1)), t1v + t1v + (t1v + t1v), t3, t3v);
    lemma_bb_add_stands(t0, t0v, t0, t0v);
    lemma_bb_add_stands(bb_double_word(t0), t0v + t0v, bb_double_word(t0), t0v + t0v);
    let t5 = bb_add_word(bb_double_word(bb_double_word(t0)), t2);
    let t5v = t0v + t0v + (t0v + t0v) + t2v;
    lemma_bb_add_stands(bb_double_word(bb_double_word(t0)), t0v + t0v + (t0v + t0v), t2, t2v);
    lemma_bb_add_stands(t3, t3v, t5, t5v);
    lemma_bb_add_stands(t2, t2v, t4, t4v);
}

proof fn lemma_groups_stand(x: Seq<nat>, v: Seq<nat>)
    requires
        x.len() == 24,
        bb_all_stand(x, v),
    ensures
        bb_all_stand(bb_groups_words(x), groups_values(v)),
{
    reveal(bb_groups_words);
    reveal(groups_values);
    assert forall|i: int| 0 <= i < 24 implies bb_stands(
        #[trigger] bb_groups_words(x)[i],
        groups_values(v)[i],
    ) by {
        let g = 4 * (i / 4);
        let (xs, vs) = (x.subrange(g, g + 4), v.subrange(g, g + 4));
        assert forall|k: int| 0 <= k < 4 implies bb_stands(#[trigger] xs[k], vs[k]) by {
            assert(bb_stands(x[g + k], v[g + k]));
        }
        lemma_circulant_stands(xs, vs);
        assert(bb_stands(
            bb_circulant_words(xs[0], xs[1], xs[2], xs[3])[i % 4],
            matrix_row(i % 4, vs[0], vs[1], vs[2], vs[3]),
        ));
    }
}

proof fn lemma_column_stands(y: Seq<nat>, v: Seq<nat>, j: int, k: nat)
    requires
        y.len() == 24,
        bb_all_stand(y, v),
        0 <= j < 4,
        1 <= k <= 6,
    ensures
        bb_stands(bb_column_sum(y, j, k), column_value(v, j, k)),
    decreases k,
{
    if k == 1 {
        assert(bb_stands(y[j], v[j]));
    } else {
        lemma_column_stands(y, v, j, (k - 1) as nat);
        assert(bb_stands(y[4 * (k - 1) + j], v[4 * (k - 1) + j]));
        lemma_bb_add_stands(
            bb_column_sum(y, j, (k - 1) as nat),
            column_value(v, j, (k - 1) as nat),
            y[4 * (k - 1) + j],
            v[4 * (k - 1) + j],
        );
    }
}

proof fn lemma_m_ext_stands(x: Seq<nat>, v: Seq<nat>)
    requires
        x.len() == 24,
        bb_all_stand(x, v),
    ensures
        bb_all_stand(bb_m_ext_words(x), m_ext_values(v)),
        montgomery::all_reduced(m_ext_values(v), BABYBEAR_P as nat),
{
    lemma_groups_stand(x, v);
    reveal(bb_m_ext_words);
    reveal(m_ext_values);
    let (y, w) = (bb_groups_words(x), groups_values(v));
    assert(y.len() == 24) by {
        reveal(bb_groups_words);
    }
    assert forall|i: int| 0 <= i < 24 implies bb_stands(
        #[trigger] bb_m_ext_words(x)[i],
        m_ext_values(v)[i],
    ) by {
        lemma_column_stands(y, w, i % 4, 6);
        assert(bb_stands(y[i], w[i]));
        lemma_bb_add_stands(y[i], w[i], bb_column_sum(y, i % 4, 6), column_value(w, i % 4, 6));
        lemma_mod_twice((w[i] + column_value(w, i % 4, 6)) as int, BABYBEAR_P as int);
    }
}

proof fn lemma_row_stands(x: Seq<nat>, v: Seq<nat>, k: nat)
    requires
        x.len() == 24,
        bb_all_stand(x, v),
        1 <= k <= 24,
    ensures
        bb_stands(bb_row_sum(x, k), row_value(v, k)),
    decreases k,
{
    if k == 1 {
        assert(bb_stands(x[0], v[0]));
    } else {
        lemma_row_stands(x, v, (k - 1) as nat);
        assert(bb_stands(x[k - 1], v[k - 1]));
        lemma_bb_add_stands(
            bb_row_sum(x, (k - 1) as nat),
            row_value(v, (k - 1) as nat),
            x[k - 1],
            v[k - 1],
        );
    }
}

/// The words of constants, as numbers.
pub open spec fn constants(rc: Seq<u32>) -> Seq<nat> {
    rc.map_values(|w: u32| w as nat)
}

proof fn lemma_m_int_stands(x: Seq<nat>, v: Seq<nat>, diag: Seq<u32>, d: Seq<nat>)
    requires
        x.len() == 24,
        bb_all_stand(x, v),
        diag.len() == 24,
        bb_all_stand(constants(diag), d),
    ensures
        bb_all_stand(bb_m_int_words(x, diag), m_int_values(v, d)),
        montgomery::all_reduced(m_int_values(v, d), BABYBEAR_P as nat),
{
    reveal(bb_m_int_words);
    reveal(m_int_values);
    lemma_row_stands(x, v, 24);
    assert forall|i: int| 0 <= i < 24 implies bb_stands(
        #[trigger] bb_m_int_words(x, diag)[i],
        m_int_values(v, d)[i],
    ) by {
        assert(bb_stands(x[i], v[i]));
        assert(bb_stands(constants(diag)[i], d[i]));
        lemma_bb_mul_stands(x[i], v[i], diag[i] as nat, d[i]);
        lemma_bb_add_stands(
            bb_row_sum(x, 24),
            row_value(v, 24),
            bb_mul_word(x[i], diag[i] as nat),
            v[i] * d[i],
        );
        lemma_mod_twice((row_value(v, 24) + v[i] * d[i]) as int, BABYBEAR_P as int);
    }
}

proof fn lemma_full_sboxes_stand(
    x: Seq<nat>,
    v: Seq<nat>,
    rc: Seq<u32>,
    rcv: Seq<nat>,
    round: int,
)
    requires
        x.len() == 24,
        bb_all_stand(x, v),
        rc.len() == 696,
        bb_all_stand(constants(rc), rcv),
        0 <= round < 29,
    ensures
        bb_all_stand(bb_full_sboxes_words(x, rc, round), full_sboxes_values(v, rcv, round)),
{
    reveal(bb_full_sboxes_words);
    reveal(full_sboxes_values);
    assert forall|i: int| 0 <= i < 24 implies bb_stands(
        #[trigger] bb_full_sboxes_words(x, rc, round)[i],
        full_sboxes_values(v, rcv, round)[i],
    ) by {
        assert(bb_stands(x[i], v[i]));
        assert(bb_stands(constants(rc)[24 * round + i], rcv[24 * round + i]));
        lemma_constant_sbox_stands(x[i], v[i], rc[24 * round + i], rcv[24 * round + i]);
    }
}

proof fn lemma_rounds_stand(
    x: Seq<nat>,
    v: Seq<nat>,
    rc: Seq<u32>,
    rcv: Seq<nat>,
    diag: Seq<u32>,
    d: Seq<nat>,
    k: nat,
)
    requires
        x.len() == 24,
        bb_all_stand(x, v),
        rc.len() == 696,
        bb_all_stand(constants(rc), rcv),
        diag.len() == 24,
        bb_all_stand(constants(diag), d),
        k <= 29,
    ensures
        bb_rounds_words(x, rc, diag, k).len() == 24,
        bb_all_stand(bb_rounds_words(x, rc, diag, k), rounds_values(v, rcv, d, k)),
        montgomery::all_reduced(rounds_values(v, rcv, d, k), BABYBEAR_P as nat),
    decreases k,
{
    reveal(bb_m_ext_words);
    reveal(bb_m_int_words);
    if k == 0 {
        lemma_m_ext_stands(x, v);
    } else {
        lemma_rounds_stand(x, v, rc, rcv, diag, d, (k - 1) as nat);
        let w = bb_rounds_words(x, rc, diag, (k - 1) as nat);
        let u = rounds_values(v, rcv, d, (k - 1) as nat);
        let round = k - 1;
        if 4 <= round < 25 {
            assert(bb_stands(w[0], u[0]));
            assert(bb_stands(constants(rc)[24 * round], rcv[24 * round]));
            lemma_constant_sbox_stands(w[0], u[0], rc[24 * round], rcv[24 * round]);
            let w1 = w.update(0, bb_sbox_word(bb_add_word(w[0], rc[24 * round] as nat)));
            let u1 = u.update(0, sbox_value(u[0], rcv[24 * round]));
            assert forall|i: int| 0 <= i < 24 implies bb_stands(#[trigger] w1[i], u1[i]) by {
                assert(bb_stands(w[i], u[i]));
            }
            lemma_m_int_stands(w1, u1, diag, d);
        } else {
            lemma_full_sboxes_stand(w, u, rc, rcv, round);
            assert(bb_full_sboxes_words(w, rc, round).len() == 24) by {
                reveal(bb_full_sboxes_words);
            }
            lemma_m_ext_stands(
                bb_full_sboxes_words(w, rc, round),
                full_sboxes_values(u, rcv, round),
            );
        }
    }
}

/// On reduced words the circuit's permutation is the Poseidon2 permutation of
/// the field elements that the words stand for, and its words are reduced.
pub proof fn law_permutation(x: Seq<nat>, rc: Seq<u32>, diag: Seq<u32>)
    requires
        x.len() == 24,
        rc.len() == 696,
        diag.len() == 24,
        montgomery::all_reduced(x, BABYBEAR_P as nat),
        montgomery::all_reduced(constants(rc), BABYBEAR_P as nat),
        montgomery::all_reduced(constants(diag), BABYBEAR_P as nat),
    ensures
        bb_permutation_words(x, rc, diag).len() == 24,
        montgomery::all_reduced(bb_permutation_words(x, rc, diag), BABYBEAR_P as nat),
        montgomery::canon_all(bb_permutation_words(x, rc, diag), BABYBEAR_P as nat)
            == permutation_values(
            montgomery::canon_all(x, BABYBEAR_P as nat),
            montgomery::canon_all(constants(rc), BABYBEAR_P as nat),
            montgomery::canon_all(constants(diag), BABYBEAR_P as nat),
        ),
{
    let p = BABYBEAR_P as nat;
    montgomery::lemma_canon_all_stands(x, p);
    montgomery::lemma_canon_all_stands(constants(rc), p);
    montgomery::lemma_canon_all_stands(constants(diag), p);
    let v = montgomery::canon_all(x, p);
    let rcv = montgomery::canon_all(constants(rc), p);
    let d = montgomery::canon_all(constants(diag), p);
    lemma_rounds_stand(x, v, rc, rcv, diag, d, 29);
    montgomery::lemma_stands_canon_all(
        bb_permutation_words(x, rc, diag),
        permutation_values(v, rcv, d),
        p,
    );
}

/// The external layer adds to every group of four the sum of all groups, and
/// multiplies it by the 4x4 matrix.
pub proof fn law_external_layer(x: Seq<nat>, i: int)
    requires
        x.len() == 24,
        0 <= i < 24,
    ensures
        m_ext_values(x).len() == 24,
        ({
            let b = 4 * (i / 4);
            let v = m_ext_values(x)[i];
            let c0 = x[0] + x[4] + x[8] + x[12] + x[16] + x[20];
            let c1 = x[1] + x[5] + x[9] + x[13] + x[17] + x[21];
            let c2 = x[2] + x[6] + x[10] + x[14] + x[18] + x[22];
            let c3 = x[3] + x[7] + x[11] + x[15] + x[19] + x[23];
            &&& i % 4 == 0 ==> v == (5 * (c0 + x[b]) + 7 * (c1 + x[b + 1]) + (c2 + x[b + 2])
                + 3 * (c3 + x[b + 3])) % 0x7800_0001
            &&& i % 4 == 1 ==> v == (4 * (c0 + x[b]) + 6 * (c1 + x[b + 1]) + (c2 + x[b + 2])
                + (c3 + x[b + 3])) % 0x7800_0001
            &&& i % 4 == 2 ==> v == ((c0 + x[b]) + 3 * (c1 + x[b + 1]) + 5 * (c2 + x[b + 2])
                + 7 * (c3 + x[b + 3])) % 0x7800_0001
            &&& i % 4 == 3 ==> v == ((c0 + x[b]) + (c1 + x[b + 1]) + 4 * (c2 + x[b + 2])
                + 6 * (c3 + x[b + 3])) % 0x7800_0001
        }),
{
    reveal(m_ext_values);
    let (j, b) = (i % 4, 4 * (i / 4));
    let c0 = x[0] + x[4] + x[8] + x[12] + x[16] + x[20];
    let c1 = x[1] + x[5] + x[9] + x[13] + x[17] + x[21];
    let c2 = x[2] + x[6] + x[10] + x[14] + x[18] + x[22];
    let c3 = x[3] + x[7] + x[11] + x[15] + x[19] + x[23];
    lemma_group_entry(x, j, i / 4);
    lemma_column_entry(x, j);
    lemma_rows_add(j, c0, c1, c2, c3, x[b], x[b + 1], x[b + 2], x[b + 3]);
}

/// The 4x4 matrix sends a sum of two groups to the sum of what it sends them to.
proof fn lemma_rows_add(
    j: int,
    a0: nat,
    a1: nat,
    a2: nat,
    a3: nat,
    b0: nat,
    b1: nat,
    b2: nat,
    b3: nat,
)
    ensures
        matrix_row(j, a0, a1, a2, a3) + matrix_row(j, b0, b1, b2, b3) == matrix_row(
            j,
            a0 + b0,
            a1 + b1,
            a2 + b2,
            a3 + b3,
        ),
{
}

/// Element `j` of group `k`, multiplied by the 4x4 matrix.
proof fn lemma_group_entry(x: Seq<nat>, j: int, k: int)
    requires
        0 <= j < 4,
        0 <= k < 6,
    ensures
        groups_values(x)[4 * k + j] == matrix_row(
            j,
            x[4 * k],
            x[4 * k + 1],
            x[4 * k + 2],
            x[4 * k + 3],
        ),
{
    reveal(groups_values);
    assert((4 * k + j) / 4 == k && (4 * k + j) % 4 == j);
}

/// The sums of the groups, multiplied by the 4x4 matrix.
proof fn lemma_column_entry(x: Seq<nat>, j: int)
    requires
        0 <= j < 4,
    ensures
        column_value(groups_values(x), j, 6) == matrix_row(
            j,
            x[0] + x[4] + x[8] + x[12] + x[16] + x[20],
            x[1] + x[5] + x[9] + x[13] + x[17] + x[21],
            x[2] + x[6] + x[10] + x[14] + x[18] + x[22],
            x[3] + x[7] + x[11] + x[15] + x[19] + x[23],
        ),
{
    let y = groups_values(x);
    lemma_group_entry(x, j, 0);
    assert(column_value(y, j, 1) == y[j]);
    lemma_group_entry(x, j, 1);
    lemma_rows_add(
        j,
        x[0],
        x[1],
        x[2],
        x[3],
        x[4],
        x[5],
        x[6],
        x[7],
    );
    assert(column_value(y, j, 2) == column_value(y, j, 1) + y[4 + j]);
    lemma_group_entry(x, j, 2);
    lemma_rows_add(
        j,
        x[0] + x[4],
        x[1] + x[5],
        x[2] + x[6],
        x[3] + x[7],
        x[8],
        x[9],
        x[10],
        x[11],
    );
    assert(column_value(y, j, 3) == column_value(y, j, 2) + y[8 + j]);
    lemma_group_entry(x, j, 3);
    lemma_rows_add(
        j,
        x[0] + x[4] + x[8],
        x[1] + x[5] + x[9],
        x[2] + x[6] + x[10],
        x[3] + x[7] + x[11],
        x[12],
        x[13],
        x[14],
        x[15],
    );
    assert(column_value(y, j, 4) == column_value(y, j, 3) + y[12 + j]);
    lemma_group_entry(x, j, 4);
    lemma_rows_add(
        j,
        x[0] + x[4] + x[8] + x[12],
        x[1] + x[5] + x[9] + x[13],
        x[2] + x[6] + x[10] + x[14],
        x[3] + x[7] + x[11] + x[15],
        x[16],
        x[17],
        x[18],
        x[19],
    );
    assert(column_value(y, j, 5) == column_value(y, j, 4) + y[16 + j]);
    lemma_group_entry(x, j, 5);
    lemma_rows_add(
        j,
        x[0] + x[4] + x[8] + x[12] + x[16],
        x[1] + x[5] + x[9] + x[13] + x[17],
        x[2] + x[6] + x[10] + x[14] + x[18],
        x[3] + x[7] + x[11] + x[15] + x[19],
        x[20],
        x[21],
        x[22],
        x[23],
    );
    assert(column_value(y, j, 6) == column_value(y, j, 5) + y[20 + j]);
}

/// The internal layer adds to the sum of all elements each element times its
/// entry of the diagonal.
pub proof fn law_internal_layer(x: Seq<nat>, diag: Seq<nat>, i: int)
    requires
        x.len() == 24,
        0 <= i < 24,
    ensures
        m_int_values(x, diag).len() == 24,
        m_int_values(x, diag)[i] == (x[0] + x[1] + x[2] + x[3] + x[4] + x[5] + x[6] + x[7]
            + x[8] + x[9] + x[10] + x[11] + x[12] + x[13] + x[14] + x[15] + x[16] + x[17]
            + x[18] + x[19] + x[20] + x[21] + x[22] + x[23] + x[i] * diag[i]) % 0x7800_0001,
{
    reveal(m_int_values);
    reveal_with_fuel(row_value, 25);
    assert(row_value(x, 24) == x[0] + x[1] + x[2] + x[3] + x[4] + x[5] + x[6] + x[7] + x[8]
        + x[9] + x[10] + x[11] + x[12] + x[13] + x[14] + x[15] + x[16] + x[17] + x[18] + x[19]
        + x[20] + x[21] + x[22] + x[23]);
}

/// The S-box multiplies an element and its round constant's sum with itself,
/// seven factors in all.
pub proof fn law_sbox(x: Seq<nat>, rc: Seq<nat>, round: int, i: int)
    requires
        0 <= i < 24,
    ensures
        ({
            let y = x[i] + rc[24 * round + i];
            &&& full_sboxes_values(x, rc, round).len() == 24
            &&& full_sboxes_values(x, rc, round)[i] == (y * y * y * y * y * y * y) % 0x7800_0001
            &&& sbox_value(x[i], rc[24 * round + i]) == (y * y * y * y * y * y * y) % 0x7800_0001
        }),
{
    reveal(full_sboxes_values);
    let y = (x[i] + rc[24 * round + i]) as int;
    reveal_with_fuel(pow, 8);
    assert(pow(y, 7) == y * y * y * y * y * y * y) by (nonlinear_arith)
        requires
            pow(y, 7) == y * (y * (y * (y * (y * (y * (y * (1))))))),
    ;
}

/// The permutation begins with an external layer, and has four full rounds,
/// twenty-one partial ones and four full ones again: full rounds treat all
/// elements, partial ones the first alone.
pub proof fn law_rounds(x: Seq<nat>, rc: Seq<nat>, diag: Seq<nat>, k: nat)
    requires
        k < 29,
    ensures
        rounds_values(x, rc, diag, 0) == m_ext_values(x),
        k < 4 || 25 <= k ==> rounds_values(x, rc, diag, k + 1) == m_ext_values(
            full_sboxes_values(rounds_values(x, rc, diag, k), rc, k as int),
        ),
        4 <= k < 25 ==> rounds_values(x, rc, diag, k + 1) == ({
            let before = rounds_values(x, rc, diag, k);
            m_int_values(before.update(0, sbox_value(before[0], rc[24 * k as int])), diag)
        }),
        permutation_values(x, rc, diag) == rounds_values(x, rc, diag, (4 + 21 + 4) as nat),
        CELLS == 24,
        ROUNDS_HALF_FULL == 4,
        ROUNDS_PARTIAL == 21,
{
}

/// The words of sums and products are those of the field's gadgets, and that
/// of the S-box is reached by squaring twice and multiplying twice, whatever
/// the size of the words.
pub proof fn law_word_operations(a: nat, b: nat)
    ensures
        bb_add_word(a, b) == field::mod_add_word(a, b, 0x7800_0001),
        bb_mul_word(a, b) == field::redc_word(a * b, 0x7800_0001, 0x8800_0001),
        bb_double_word(a) == bb_add_word(a, a),
        ({
            let square = bb_mul_word(a, a);
            bb_sbox_word(a) == bb_mul_word(bb_mul_word(bb_mul_word(square, square), square), a)
        }),
{
}

/// The matrix is applied to words by sums and doublings alone: each result is
/// a sum of results before it.
pub proof fn law_word_matrix(x0: nat, x1: nat, x2: nat, x3: nat)
    ensures
        ({
            let r = bb_circulant_words(x0, x1, x2, x3);
            let (low, high) = (bb_add_word(x0, x1), bb_add_word(x2, x3));
            let t2 = bb_add_word(bb_add_word(x1, x1), high);
            let t3 = bb_add_word(bb_add_word(x3, x3), low);
            let (low2, high2) = (bb_add_word(low, low), bb_add_word(high, high));
            &&& r.len() == 4
            &&& r[1] == bb_add_word(bb_add_word(low2, low2), t2)
            &&& r[3] == bb_add_word(bb_add_word(high2, high2), t3)
            &&& r[0] == bb_add_word(t3, r[1])
            &&& r[2] == bb_add_word(t2, r[3])
        }),
{
}

/// The layers on words of any size: groups of four by the matrix, each cell
/// with the sum of its column; the sum of all cells with each times its entry
/// of the diagonal; and S-boxes behind round constants.
pub proof fn law_word_layers(x: Seq<nat>, rc: Seq<u32>, diag: Seq<u32>, round: int, i: int)
    requires
        0 <= i < 24,
    ensures
        ({
            let (g, j) = (4 * (i / 4), i % 4);
            let y = bb_groups_words(x);
            let three = bb_add_word(bb_add_word(y[j], y[j + 4]), y[j + 8]);
            let four = bb_add_word(three, y[j + 12]);
            &&& y.len() == 24
            &&& y[i] == bb_circulant_words(x[g], x[g + 1], x[g + 2], x[g + 3])[j]
            &&& bb_m_ext_words(x).len() == 24
            &&& bb_m_ext_words(x)[i] == bb_add_word(
                y[i],
                bb_add_word(bb_add_word(four, y[j + 16]), y[j + 20]),
            )
        }),
        bb_m_int_words(x, diag).len() == 24,
        bb_m_int_words(x, diag)[i] == bb_add_word(
            bb_row_sum(x, 24),
            bb_mul_word(x[i], diag[i] as nat),
        ),
        bb_row_sum(x, 1) == x[0],
        i > 0 ==> bb_row_sum(x, (i + 1) as nat) == bb_add_word(bb_row_sum(x, i as nat), x[i]),
        bb_full_sboxes_words(x, rc, round).len() == 24,
        bb_full_sboxes_words(x, rc, round)[i] == bb_sbox_word(
            bb_add_word(x[i], rc[24 * round + i] as nat),
        ),
{
    let y = bb_groups_words(x);
    let j = i % 4;
    let four = bb_add_word(
        bb_add_word(bb_add_word(y[j], y[j + 4]), y[j + 8]),
        y[j + 12],
    );
    assert(bb_column_sum(y, j, 6) == bb_add_word(bb_add_word(four, y[j + 16]), y[j + 20])) by {
        reveal_with_fuel(bb_column_sum, 7);
    }
    reveal(bb_groups_words);
    reveal(bb_m_ext_words);
    reveal(bb_m_int_words);
    reveal(bb_full_sboxes_words);
}

/// The rounds on words of any size follow one another as those on elements do.
pub proof fn law_word_rounds(x: Seq<nat>, rc: Seq<u32>, diag: Seq<u32>, k: nat)
    requires
        k < 29,
    ensures
        bb_rounds_words(x, rc, diag, 0) == bb_m_ext_words(x),
        k < 4 || 25 <= k ==> bb_rounds_words(x, rc, diag, k + 1) == bb_m_ext_words(
            bb_full_sboxes_words(bb_rounds_words(x, rc, diag, k), rc, k as int),
        ),
        4 <= k < 25 ==> bb_rounds_words(x, rc, diag, k + 1) == ({
            let before = bb_rounds_words(x, rc, diag, k);
            bb_m_int_words(
                before.update(
                    0,
                    bb_sbox_word(bb_add_word(before[0], rc[24 * k as int] as nat)),
                ),
                diag,
            )
        }),
        bb_permutation_words(x, rc, diag) == bb_rounds_words(x, rc, diag, 29),
{
}

/// How often a shape occurs in the first layer, and how often in each round.
proof fn lemma_round_count(diag: Seq<u32>, k: nat, s: Shape)
    requires
        k < 29,
    ensures
        ({
            let a = circuit::count_of(field::mod_add_shapes(), s) as int;
            let m = circuit::count_of(field::monty_mul_shapes(BABYBEAR_P, BABYBEAR_MU), s) as int;
            let d = circuit::count_of(bb_diagonal_shapes(diag, 24), s) as int;
            &&& circuit::count_of(bb_rounds_shapes(diag, 0), s) == 128 * a
            &&& circuit::count_of(bb_rounds_shapes(diag, k + 1), s) == circuit::count_of(
                bb_rounds_shapes(diag, k),
                s,
            ) + if 4 <= k < 25 {
                24 * a + 4 * m + d
            } else {
                152 * a + 96 * m
            }
        }),
{
    let (add1, mul1) = (field::mod_add_shapes(), field::monty_mul_shapes(BABYBEAR_P, BABYBEAR_MU));
    let a = circuit::count_of(add1, s) as int;
    let m = circuit::count_of(mul1, s) as int;
    let d = circuit::count_of(bb_diagonal_shapes(diag, 24), s) as int;
    assert(circuit::count_of(bb_m_ext_shapes(), s) == 128 * a) by {
        reveal(bb_circulant_shapes);
        reveal(bb_groups_shapes);
        reveal(bb_column_shapes);
        reveal(bb_columns_shapes);
        reveal(bb_m_ext_shapes);
        circuit::lemma_count_repeated(add1, 14, s);
        circuit::lemma_count_repeated(bb_circulant_shapes(), 6, s);
        circuit::lemma_count_repeated(add1, 5, s);
        circuit::lemma_count_repeated(bb_column_shapes(), 4, s);
        circuit::lemma_count_repeated(add1, 24, s);
        circuit::lemma_count_joined(bb_groups_shapes(), bb_columns_shapes(), s);
        circuit::lemma_count_joined(
            bb_groups_shapes() + bb_columns_shapes(),
            circuit::repeated(add1, 24),
            s,
        );
    }
    assert(circuit::count_of(bb_constant_sbox_shapes(), s) == a + 4 * m) by {
        reveal(bb_sbox_shapes);
        reveal(bb_constant_sbox_shapes);
        circuit::lemma_count_repeated(mul1, 4, s);
        circuit::lemma_count_joined(add1, bb_sbox_shapes(), s);
    }
    assert(circuit::count_of(bb_full_round_shapes(), s) == 152 * a + 96 * m) by {
        reveal(bb_full_round_shapes);
        circuit::lemma_count_repeated(bb_constant_sbox_shapes(), 24, s);
        circuit::lemma_count_joined(
            circuit::repeated(bb_constant_sbox_shapes(), 24),
            bb_m_ext_shapes(),
            s,
        );
    }
    assert(circuit::count_of(bb_partial_round_shapes(diag), s) == 24 * a + 4 * m + d) by {
        reveal(bb_row_shapes);
        reveal(bb_m_int_shapes);
        reveal(bb_partial_round_shapes);
        circuit::lemma_count_repeated(add1, 23, s);
        circuit::lemma_count_joined(bb_row_shapes(), bb_diagonal_shapes(diag, 24), s);
        circuit::lemma_count_joined(bb_constant_sbox_shapes(), bb_m_int_shapes(diag), s);
    }
    let before = bb_rounds_shapes(diag, k);
    circuit::lemma_count_joined(before, bb_full_round_shapes(), s);
    circuit::lemma_count_joined(before, bb_partial_round_shapes(diag), s);
}

/// The permutation is made of 1848 sums and 852 products of two words, beside
/// the sums and the products by constants of the diagonal in its 21 partial
/// rounds.
pub proof fn law_permutation_operations(diag: Seq<u32>, s: Shape, k: nat)
    requires
        k < 24,
    ensures
        circuit::count_of(bb_rounds_shapes(diag, 29), s) == 1848 * circuit::count_of(
            field::mod_add_shapes(),
            s,
        ) + 852 * circuit::count_of(field::monty_mul_shapes(BABYBEAR_P, BABYBEAR_MU), s) + 21
            * circuit::count_of(bb_diagonal_shapes(diag, 24), s),
        bb_diagonal_shapes(diag, 0).len() == 0,
        bb_diagonal_shapes(diag, k + 1) == bb_diagonal_shapes(diag, k)
            + field::monty_mul_const_shapes(diag[k as int], BABYBEAR_P, BABYBEAR_MU)
            + field::mod_add_shapes(),
{
    lemma_round_count(diag, 0, s);
    lemma_round_count(diag, 1, s);
    lemma_round_count(diag, 2, s);
    lemma_round_count(diag, 3, s);
    lemma_round_count(diag, 4, s);
    lemma_round_count(diag, 5, s);
    lemma_round_count(diag, 6, s);
    lemma_round_count(diag, 7, s);
    lemma_round_count(diag, 8, s);
    lemma_round_count(diag, 9, s);
    lemma_round_count(diag, 10, s);
    lemma_round_count(diag, 11, s);
    lemma_round_count(diag, 12, s);
    lemma_round_count(diag, 13, s);
    lemma_round_count(diag, 14, s);
    lemma_round_count(diag, 15, s);
    lemma_round_count(diag, 16, s);
    lemma_round_count(diag, 17, s);
    lemma_round_count(diag, 18, s);
    lemma_round_count(diag, 19, s);
    lemma_round_count(diag, 20, s);
    lemma_round_count(diag, 21, s);
    lemma_round_count(diag, 22, s);
    lemma_round_count(diag, 23, s);
    lemma_round_count(diag, 24, s);
    lemma_round_count(diag, 25, s);
    lemma_round_count(diag, 26, s);
    lemma_round_count(diag, 27, s);
    lemma_round_count(diag, 28, s);
}

} // verus!
