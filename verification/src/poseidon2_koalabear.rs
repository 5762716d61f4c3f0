//! The Poseidon2 permutation over KoalaBear with width 16, `x^3`, 8 external
//! and 20 internal rounds, on Montgomery words.

use vstd::arithmetic::div_mod::*;
use vstd::arithmetic::mul::*;
use vstd::arithmetic::power::*;
use vstd::arithmetic::power2::*;
use vstd::prelude::*;

use crate::bits;
use crate::circuit;
use crate::circuit::{BigIntWires, Circuit, Shape};
use crate::field;
use crate::field::{constant, mod_add, monty_mul, KOALABEAR_MU, KOALABEAR_P};
use crate::montgomery;
use crate::poseidon2;

verus! {

broadcast use {
    circuit::lemma_shapes_grouped,
    circuit::lemma_shapes_then_none,
    circuit::lemma_none_then_shapes,
};

/// The width of the permutation.
pub const KW: usize = 16;

/// External rounds before, and again behind, the internal ones.
pub const ROUNDS_HALF_EXTERNAL: usize = 4;

/// Internal rounds.
pub const ROUNDS_INTERNAL: usize = 20;

/// The diagonal of the internal layer behind its first entry, as powers of two.
pub const SHIFTS: [usize; 15] = [0, 1, 2, 3, 4, 5, 6, 7, 8, 9, 10, 11, 12, 13, 15];

/// The word of a sum.
pub open spec fn kb_add_word(a: nat, b: nat) -> nat {
    field::mod_add_word(a, b, KOALABEAR_P as nat)
}

/// The word of a product.
pub open spec fn kb_mul_word(a: nat, b: nat) -> nat {
    field::redc_word(a * b, KOALABEAR_P as nat, KOALABEAR_MU as nat)
}

/// `x^3` by two multiplications.
pub open spec fn kb_sbox_word(x: nat) -> nat {
    kb_mul_word(kb_mul_word(x, x), x)
}

/// Four cells times the 4x4 matrix, by additions.
pub open spec fn kb_mat4_words(x0: nat, x1: nat, x2: nat, x3: nat) -> Seq<nat> {
    let t01 = kb_add_word(x0, x1);
    let t23 = kb_add_word(x2, x3);
    let t0123 = kb_add_word(t01, t23);
    let t01123 = kb_add_word(t0123, x1);
    let t01233 = kb_add_word(t0123, x3);
    seq![
        kb_add_word(t01123, t01),
        kb_add_word(t01123, kb_add_word(x2, x2)),
        kb_add_word(t01233, t23),
        kb_add_word(t01233, kb_add_word(x0, x0)),
    ]
}

/// Every group of four cells times the 4x4 matrix.
#[verifier::opaque]
pub open spec fn kb_groups_words(x: Seq<nat>) -> Seq<nat> {
    Seq::new(
        16,
        |i: int|
            kb_mat4_words(
                x[4 * (i / 4)],
                x[4 * (i / 4) + 1],
                x[4 * (i / 4) + 2],
                x[4 * (i / 4) + 3],
            )[i % 4],
    )
}

/// The sum of cell `j` over the first `k` groups of four.
pub open spec fn kb_column_sum(y: Seq<nat>, j: int, k: nat) -> nat
    decreases k,
{
    if k <= 1 {
        y[j]
    } else {
        kb_add_word(kb_column_sum(y, j, (k - 1) as nat), y[4 * (k - 1) + j])
    }
}

/// The external linear layer.
#[verifier::opaque]
pub open spec fn kb_external_words(x: Seq<nat>) -> Seq<nat> {
    let y = kb_groups_words(x);
    Seq::new(16, |i: int| kb_add_word(y[i], kb_column_sum(y, i % 4, 4)))
}

/// The sum of the words `1 .. k`.
pub open spec fn tail_sum(x: Seq<nat>, k: nat) -> nat
    decreases k,
{
    if k <= 1 {
        0
    } else {
        tail_sum(x, (k - 1) as nat) + x[k - 1]
    }
}

/// `p - x` at the width of a word.
pub open spec fn kb_neg_word(x: nat) -> nat {
    if KOALABEAR_P >= x {
        (KOALABEAR_P - x) as nat
    } else {
        (0x1_0000_0000 + KOALABEAR_P - x) as nat
    }
}

/// What cell `i` of the internal layer is reduced from: the sum of the other
/// cells minus the cell for the first one, the sum of all cells plus the
/// shifted cell for the rest.
pub open spec fn kb_unreduced(x: Seq<nat>, i: int) -> nat {
    if i == 0 {
        tail_sum(x, 16) + kb_neg_word(x[0])
    } else {
        tail_sum(x, 16) + x[0] + x[i] * pow2(SHIFTS@[i - 1] as nat)
    }
}

/// The internal linear layer: sums of the Montgomery words, the diagonal as
/// shifts, one reduction for each cell.
#[verifier::opaque]
pub open spec fn kb_internal_words(x: Seq<nat>) -> Seq<nat> {
    Seq::new(
        16,
        |i: int|
            field::redc_word(kb_unreduced(x, i), KOALABEAR_P as nat, KOALABEAR_MU as nat),
    )
}

/// Round constants and S-boxes on all cells.
#[verifier::opaque]
pub open spec fn kb_full_sboxes_words(x: Seq<nat>, rc: Seq<u32>, round: int) -> Seq<nat> {
    Seq::new(16, |i: int| kb_sbox_word(kb_add_word(x[i], rc[16 * round + i] as nat)))
}

/// The words after an external round.
pub open spec fn kb_full_round_words(x: Seq<nat>, rc: Seq<u32>, round: int) -> Seq<nat> {
    kb_external_words(kb_full_sboxes_words(x, rc, round))
}

/// The words after an internal round.
pub open spec fn kb_partial_round_words(x: Seq<nat>, rc: u32) -> Seq<nat> {
    kb_internal_words(x.update(0, kb_sbox_word(kb_add_word(x[0], rc as nat))))
}

/// The state after `k` rounds; rounds 4 to 23 are internal.
pub open spec fn kb_rounds_words(
    x: Seq<nat>,
    external: Seq<u32>,
    internal: Seq<u32>,
    k: nat,
) -> Seq<nat>
    decreases k,
{
    if k == 0 {
        kb_external_words(x)
    } else {
        let before = kb_rounds_words(x, external, internal, (k - 1) as nat);
        if k - 1 < 4 {
            kb_full_round_words(before, external, k - 1)
        } else if k - 1 < 24 {
            kb_partial_round_words(before, internal[k - 5])
        } else {
            kb_full_round_words(before, external, k - 21)
        }
    }
}

/// The words that the KoalaBear permutation gives.
pub open spec fn kb_permutation_words(
    x: Seq<nat>,
    external: Seq<u32>,
    internal: Seq<u32>,
) -> Seq<nat> {
    kb_rounds_words(x, external, internal, 28)
}

/// Every round keeps the number of words.
pub proof fn lemma_rounds_len(x: Seq<nat>, external: Seq<u32>, internal: Seq<u32>, k: nat)
    ensures
        kb_rounds_words(x, external, internal, k).len() == 16,
{
    reveal(kb_external_words);
    reveal(kb_internal_words);
}

fn kb_add(c: &mut Circuit, a: &BigIntWires, b: &BigIntWires) -> (r: BigIntWires)
    requires
        old(c).wf(),
        old(c).is_word(*a, 32),
        old(c).is_word(*b, 32),
    ensures
        final(c).grows(*old(c), 4, 0),
        final(c).adds(*old(c), field::mod_add_shapes()),
        final(c).is_word(r, 32),
        forall|env: Seq<bool>| #[trigger]
            final(c).word(env, r) == kb_add_word(old(c).word(env, *a), old(c).word(env, *b)),
{
    mod_add(c, a, b, KOALABEAR_P)
}

fn kb_mul(c: &mut Circuit, a: &BigIntWires, b: &BigIntWires) -> (r: BigIntWires)
    requires
        old(c).wf(),
        old(c).is_word(*a, 32),
        old(c).is_word(*b, 32),
    ensures
        final(c).grows(*old(c), 6, 1),
        final(c).adds(*old(c), field::monty_mul_shapes(KOALABEAR_P, KOALABEAR_MU)),
        final(c).is_word(r, 32),
        forall|env: Seq<bool>| #[trigger]
            final(c).word(env, r) == kb_mul_word(old(c).word(env, *a), old(c).word(env, *b)),
{
    monty_mul(c, a, b, KOALABEAR_P, KOALABEAR_MU)
}

/// The operations of the S-box.
#[verifier::opaque]
pub open spec fn kb_sbox_shapes() -> Seq<Shape> {
    circuit::repeated(field::monty_mul_shapes(KOALABEAR_P, KOALABEAR_MU), 2)
}

/// `x^3`: `x2 = x * x`, `x3 = x2 * x`.
fn kb_sbox(c: &mut Circuit, x: &BigIntWires) -> (r: BigIntWires)
    requires
        old(c).wf(),
        old(c).is_word(*x, 32),
    ensures
        final(c).grows(*old(c), 12, 2),
        final(c).adds(*old(c), kb_sbox_shapes()),
        final(c).is_word(r, 32),
        forall|env: Seq<bool>| #[trigger]
            final(c).word(env, r) == kb_sbox_word(old(c).word(env, *x)),
{
    reveal(kb_sbox_shapes);
    reveal_with_fuel(circuit::repeated, 3);
    let ghost c0 = *c;
    let x2 = kb_mul(c, x, x);
    let ghost c1 = *c;
    let r = kb_mul(c, &x2, x);
    proof {
        assert forall|env: Seq<bool>| #[trigger] c.word(env, r) == kb_sbox_word(
            c0.word(env, *x),
        ) by {
            assert(c1.word(env, x2) == kb_mul_word(c0.word(env, *x), c0.word(env, *x)));
            assert(c1.word(env, *x) == c0.word(env, *x));
        }
    }
    r
}

/// The operations of the 4x4 matrix.
#[verifier::opaque]
pub open spec fn kb_mat4_shapes() -> Seq<Shape> {
    circuit::repeated(field::mod_add_shapes(), 11)
}

/// Four cells times the 4x4 matrix.
#[verifier::rlimit(30)]
fn kb_mat4(
    c: &mut Circuit,
    x0: &BigIntWires,
    x1: &BigIntWires,
    x2: &BigIntWires,
    x3: &BigIntWires,
) -> (r: (BigIntWires, BigIntWires, BigIntWires, BigIntWires))
    requires
        old(c).wf(),
        old(c).is_word(*x0, 32),
        old(c).is_word(*x1, 32),
        old(c).is_word(*x2, 32),
        old(c).is_word(*x3, 32),
    ensures
        final(c).grows(*old(c), 44, 0),
        final(c).adds(*old(c), kb_mat4_shapes()),
        final(c).is_word(r.0, 32),
        final(c).is_word(r.1, 32),
        final(c).is_word(r.2, 32),
        final(c).is_word(r.3, 32),
        forall|env: Seq<bool>| #[trigger]
            poseidon2::words4(*final(c), env, r) == kb_mat4_words(
                old(c).word(env, *x0),
                old(c).word(env, *x1),
                old(c).word(env, *x2),
                old(c).word(env, *x3),
            ),
{
    reveal(kb_mat4_shapes);
    reveal_with_fuel(circuit::repeated, 12);
    let ghost c0 = *c;
    let t01 = kb_add(c, x0, x1);
    let ghost c1 = *c;
    let t23 = kb_add(c, x2, x3);
    let ghost c2 = *c;
    let t0123 = kb_add(c, &t01, &t23);
    let ghost c3 = *c;
    let t01123 = kb_add(c, &t0123, x1);
    let ghost c4 = *c;
    let t01233 = kb_add(c, &t0123, x3);
    let ghost c5 = *c;
    let x0_2 = kb_add(c, x0, x0);
    let ghost c6 = *c;
    let x2_2 = kb_add(c, x2, x2);
    let ghost c7 = *c;
    let n3 = kb_add(c, &t01233, &x0_2);
    let ghost c8 = *c;
    let n1 = kb_add(c, &t01123, &x2_2);
    let ghost c9 = *c;
    let n0 = kb_add(c, &t01123, &t01);
    let ghost c10 = *c;
    let n2 = kb_add(c, &t01233, &t23);
    let r = (n0, n1, n2, n3);
    proof {
        assert forall|env: Seq<bool>| #[trigger] poseidon2::words4(*c, env, r) == kb_mat4_words(
            c0.word(env, *x0),
            c0.word(env, *x1),
            c0.word(env, *x2),
            c0.word(env, *x3),
        ) by {
            let (v0, v1) = (c0.word(env, *x0), c0.word(env, *x1));
            let (v2, v3) = (c0.word(env, *x2), c0.word(env, *x3));
            let w01 = kb_add_word(v0, v1);
            assert(c1.word(env, t01) == w01);
            let w23 = kb_add_word(v2, v3);
            assert(c1.word(env, *x2) == v2 && c1.word(env, *x3) == v3);
            assert(c2.word(env, t23) == w23 && c2.word(env, t01) == w01);
            let w0123 = kb_add_word(w01, w23);
            assert(c3.word(env, t0123) == w0123 && c3.word(env, *x1) == v1);
            let w01123 = kb_add_word(w0123, v1);
            assert(c4.word(env, t01123) == w01123);
            assert(c4.word(env, t0123) == w0123 && c4.word(env, *x3) == v3);
            let w01233 = kb_add_word(w0123, v3);
            assert(c5.word(env, t01233) == w01233 && c5.word(env, *x0) == v0);
            assert(c6.word(env, x0_2) == kb_add_word(v0, v0) && c6.word(env, *x2) == v2);
            assert(c7.word(env, x2_2) == kb_add_word(v2, v2));
            assert(c7.word(env, t01233) == w01233);
            assert(c7.word(env, x0_2) == kb_add_word(v0, v0));
            let z3 = kb_add_word(w01233, kb_add_word(v0, v0));
            assert(c8.word(env, n3) == z3 && c8.word(env, t01123) == w01123);
            assert(c8.word(env, x2_2) == kb_add_word(v2, v2));
            let z1 = kb_add_word(w01123, kb_add_word(v2, v2));
            assert(c9.word(env, n1) == z1);
            assert(c9.word(env, t01123) == w01123 && c9.word(env, t01) == w01);
            let z0 = kb_add_word(w01123, w01);
            assert(c10.word(env, n0) == z0);
            assert(c10.word(env, t01233) == w01233 && c10.word(env, t23) == w23);
            assert(c.word(env, n2) == kb_add_word(w01233, w23));
            assert(c.word(env, n0) == z0 && c.word(env, n1) == z1 && c.word(env, n3) == z3);
            assert(poseidon2::words4(*c, env, r) =~= kb_mat4_words(v0, v1, v2, v3));
        }
    }
    r
}

/// The operations of the 4x4 matrix on every group.
#[verifier::opaque]
pub open spec fn kb_groups_shapes() -> Seq<Shape> {
    circuit::repeated(kb_mat4_shapes(), 4)
}

/// Every group of four cells times the 4x4 matrix.
fn kb_groups(c: &mut Circuit, cells: &Vec<BigIntWires>) -> (r: Vec<BigIntWires>)
    requires
        old(c).wf(),
        cells@.len() == 16,
        old(c).is_row(cells@, 32),
    ensures
        final(c).grows(*old(c), 176, 0),
        final(c).adds(*old(c), kb_groups_shapes()),
        r@.len() == 16,
        final(c).is_row(r@, 32),
        forall|env: Seq<bool>| #[trigger]
            final(c).words(env, r@) == kb_groups_words(old(c).words(env, cells@)),
{
    reveal(kb_groups_shapes);
    let ghost c0 = *c;
    let mut r: Vec<BigIntWires> = Vec::new();
    let mut g: usize = 0;
    while g < 4
        invariant
            g <= 4,
            cells@.len() == 16,
            c0.is_row(cells@, 32),
            c.grows(c0, 44 * g as nat, 0),
            c.adds(c0, circuit::repeated(kb_mat4_shapes(), g as nat)),
            r@.len() == 4 * g,
            c.is_row(r@, 32),
            forall|env: Seq<bool>, i: int|
                0 <= i < 4 * g ==> #[trigger] c.words(env, r@)[i] == kb_groups_words(
                    c0.words(env, cells@),
                )[i],
        decreases 4 - g,
    {
        let ghost (c1, r1) = (*c, r@);
        proof {
            poseidon2::lemma_row_kept(c0, c1, cells@, 32);
            assert(c1.is_word(cells@[4 * g as int], 32));
            assert(c1.is_word(cells@[4 * g + 1], 32));
            assert(c1.is_word(cells@[4 * g + 2], 32));
            assert(c1.is_word(cells@[4 * g + 3], 32));
        }
        let q = kb_mat4(
            c,
            &cells[4 * g],
            &cells[4 * g + 1],
            &cells[4 * g + 2],
            &cells[4 * g + 3],
        );
        let ghost q0 = q;
        r.push(q.0);
        r.push(q.1);
        r.push(q.2);
        r.push(q.3);
        proof {
            poseidon2::lemma_row_kept(c1, *c, r1, 32);
            assert forall|i: int| 0 <= i < r@.len() implies c.is_word(#[trigger] r@[i], 32) by {
                if i < 4 * g {
                    assert(c.is_word(r1[i], 32));
                }
            }
            assert forall|env: Seq<bool>, i: int| 0 <= i < 4 * (g + 1) implies #[trigger] c.words(
                env,
                r@,
            )[i] == kb_groups_words(c0.words(env, cells@))[i] by {
                if i < 4 * g {
                    assert(c.words(env, r1)[i] == c1.words(env, r1)[i]);
                    assert(c.words(env, r@)[i] == c.words(env, r1)[i]);
                } else {
                    reveal(kb_groups_words);
                    let x = c0.words(env, cells@);
                    assert(c1.words(env, cells@) == x);
                    assert(c1.word(env, cells@[4 * g as int]) == x[4 * g as int]);
                    assert(c1.word(env, cells@[4 * g + 1]) == x[4 * g + 1]);
                    assert(c1.word(env, cells@[4 * g + 2]) == x[4 * g + 2]);
                    assert(c1.word(env, cells@[4 * g + 3]) == x[4 * g + 3]);
                    let w = poseidon2::words4(*c, env, q0);
                    assert(w == kb_mat4_words(
                        x[4 * g as int],
                        x[4 * g + 1],
                        x[4 * g + 2],
                        x[4 * g + 3],
                    ));
                    assert(i / 4 == g);
                    assert(c.words(env, r@)[i] == w[i % 4]);
                }
            }
        }
        g += 1;
    }
    proof {
        assert forall|env: Seq<bool>| #[trigger] c.words(env, r@) == kb_groups_words(
            c0.words(env, cells@),
        ) by {
            reveal(kb_groups_words);
            assert(c.words(env, r@) =~= kb_groups_words(c0.words(env, cells@)));
        }
    }
    r
}

/// The operations of the sum of a column.
#[verifier::opaque]
pub open spec fn kb_column_shapes() -> Seq<Shape> {
    circuit::repeated(field::mod_add_shapes(), 3)
}

/// The sum of cell `j` over all groups of four.
fn kb_column(c: &mut Circuit, y: &Vec<BigIntWires>, j: usize) -> (r: BigIntWires)
    requires
        old(c).wf(),
        y@.len() == 16,
        old(c).is_row(y@, 32),
        j < 4,
    ensures
        final(c).grows(*old(c), 12, 0),
        final(c).adds(*old(c), kb_column_shapes()),
        final(c).is_word(r, 32),
        forall|env: Seq<bool>| #[trigger]
            final(c).word(env, r) == kb_column_sum(old(c).words(env, y@), j as int, 4),
{
    reveal(kb_column_shapes);
    let ghost c0 = *c;
    assert(c0.is_word(y@[j as int], 32));
    let mut r = y[j].dup();
    proof {
        c0.lemma_same_wires(y@[j as int], r);
    }
    let mut k: usize = 1;
    while k < 4
        invariant
            1 <= k <= 4,
            j < 4,
            y@.len() == 16,
            c0.is_row(y@, 32),
            c.grows(c0, 4 * (k - 1) as nat, 0),
            c.adds(c0, circuit::repeated(field::mod_add_shapes(), (k - 1) as nat)),
            c.is_word(r, 32),
            forall|env: Seq<bool>| #[trigger]
                c.word(env, r) == kb_column_sum(c0.words(env, y@), j as int, k as nat),
        decreases 4 - k,
    {
        let ghost (c1, r1) = (*c, r);
        proof {
            poseidon2::lemma_row_kept(c0, c1, y@, 32);
            assert(c1.is_word(y@[4 * k + j], 32));
        }
        r = kb_add(c, &r, &y[4 * k + j]);
        proof {
            assert forall|env: Seq<bool>| #[trigger] c.word(env, r) == kb_column_sum(
                c0.words(env, y@),
                j as int,
                (k + 1) as nat,
            ) by {
                assert(c1.word(env, r1) == kb_column_sum(c0.words(env, y@), j as int, k as nat));
                assert(c1.words(env, y@) == c0.words(env, y@));
                assert(c1.word(env, y@[4 * k + j]) == c1.words(env, y@)[4 * k + j]);
            }
        }
        k += 1;
    }
    r
}

/// The operations of the sums of the columns.
#[verifier::opaque]
pub open spec fn kb_columns_shapes() -> Seq<Shape> {
    circuit::repeated(kb_column_shapes(), 4)
}

/// The sums of [`kb_column`] for the four cells of a group.
fn kb_columns(c: &mut Circuit, y: &Vec<BigIntWires>) -> (r: Vec<BigIntWires>)
    requires
        old(c).wf(),
        y@.len() == 16,
        old(c).is_row(y@, 32),
    ensures
        final(c).grows(*old(c), 48, 0),
        final(c).adds(*old(c), kb_columns_shapes()),
        r@.len() == 4,
        final(c).is_row(r@, 32),
        forall|env: Seq<bool>, j: int|
            0 <= j < 4 ==> #[trigger] final(c).words(env, r@)[j] == kb_column_sum(
                old(c).words(env, y@),
                j,
                4,
            ),
{
    reveal(kb_columns_shapes);
    let ghost c0 = *c;
    let mut r: Vec<BigIntWires> = Vec::new();
    while r.len() < 4
        invariant
            r@.len() <= 4,
            y@.len() == 16,
            c0.is_row(y@, 32),
            c.grows(c0, 12 * r@.len(), 0),
            c.adds(c0, circuit::repeated(kb_column_shapes(), r@.len())),
            c.is_row(r@, 32),
            forall|env: Seq<bool>, j: int|
                0 <= j < r@.len() ==> #[trigger] c.words(env, r@)[j] == kb_column_sum(
                    c0.words(env, y@),
                    j,
                    4,
                ),
        decreases 4 - r@.len(),
    {
        let ghost (c1, r1) = (*c, r@);
        let k = r.len();
        proof {
            poseidon2::lemma_row_kept(c0, c1, y@, 32);
        }
        let s = kb_column(c, y, k);
        let ghost s0 = s;
        r.push(s);
        proof {
            poseidon2::lemma_row_kept(c1, *c, r1, 32);
            assert forall|i: int| 0 <= i < r@.len() implies c.is_word(#[trigger] r@[i], 32) by {
                if i < k {
                    assert(c.is_word(r1[i], 32));
                }
            }
            assert forall|env: Seq<bool>, j: int| 0 <= j < r@.len() implies #[trigger] c.words(
                env,
                r@,
            )[j] == kb_column_sum(c0.words(env, y@), j, 4) by {
                if j < k {
                    assert(c.words(env, r1)[j] == c1.words(env, r1)[j]);
                    assert(c.words(env, r@)[j] == c.words(env, r1)[j]);
                } else {
                    assert(c.word(env, s0) == kb_column_sum(c1.words(env, y@), j, 4));
                    assert(c1.words(env, y@) == c0.words(env, y@));
                }
            }
        }
    }
    r
}

/// The operations of the external linear layer.
#[verifier::opaque]
pub open spec fn kb_external_layer_shapes() -> Seq<Shape> {
    kb_groups_shapes() + kb_columns_shapes() + circuit::repeated(field::mod_add_shapes(), 16)
}

/// The external linear layer.
#[verifier::rlimit(30)]
fn kb_external_layer(c: &mut Circuit, cells: &Vec<BigIntWires>) -> (r: Vec<BigIntWires>)
    requires
        old(c).wf(),
        cells@.len() == 16,
        old(c).is_row(cells@, 32),
    ensures
        final(c).grows(*old(c), 288, 0),
        final(c).adds(*old(c), kb_external_layer_shapes()),
        r@.len() == 16,
        final(c).is_row(r@, 32),
        forall|env: Seq<bool>| #[trigger]
            final(c).words(env, r@) == kb_external_words(old(c).words(env, cells@)),
{
    reveal(kb_external_layer_shapes);
    let ghost c0 = *c;
    let y = kb_groups(c, cells);
    let ghost c1 = *c;
    let sums = kb_columns(c, &y);
    let ghost c2 = *c;
    proof {
        poseidon2::lemma_row_kept(c1, c2, y@, 32);
    }
    let mut r: Vec<BigIntWires> = Vec::new();
    while r.len() < 16
        invariant
            r@.len() <= 16,
            y@.len() == 16,
            sums@.len() == 4,
            c2.is_row(y@, 32),
            c2.is_row(sums@, 32),
            c.grows(c2, 4 * r@.len(), 0),
            c.adds(c2, circuit::repeated(field::mod_add_shapes(), r@.len())),
            c.is_row(r@, 32),
            forall|env: Seq<bool>, i: int|
                0 <= i < r@.len() ==> #[trigger] c.words(env, r@)[i] == kb_add_word(
                    c2.words(env, y@)[i],
                    c2.words(env, sums@)[i % 4],
                ),
        decreases 16 - r@.len(),
    {
        let ghost (c3, r3) = (*c, r@);
        let k = r.len();
        proof {
            poseidon2::lemma_row_kept(c2, c3, y@, 32);
            poseidon2::lemma_row_kept(c2, c3, sums@, 32);
            assert(c3.is_word(y@[k as int], 32));
            assert(c3.is_word(sums@[(k % 4) as int], 32));
        }
        let s = kb_add(c, &y[k], &sums[k % 4]);
        let ghost s0 = s;
        r.push(s);
        proof {
            poseidon2::lemma_row_kept(c3, *c, r3, 32);
            assert forall|i: int| 0 <= i < r@.len() implies c.is_word(#[trigger] r@[i], 32) by {
                if i < k {
                    assert(c.is_word(r3[i], 32));
                }
            }
            assert forall|env: Seq<bool>, i: int| 0 <= i < r@.len() implies #[trigger] c.words(
                env,
                r@,
            )[i] == kb_add_word(c2.words(env, y@)[i], c2.words(env, sums@)[i % 4]) by {
                if i < k {
                    assert(c.words(env, r3)[i] == c3.words(env, r3)[i]);
                    assert(c.words(env, r@)[i] == c.words(env, r3)[i]);
                } else {
                    assert(c3.words(env, y@) == c2.words(env, y@));
                    assert(c3.words(env, sums@) == c2.words(env, sums@));
                    assert(c.word(env, s0) == kb_add_word(
                        c3.words(env, y@)[i],
                        c3.words(env, sums@)[i % 4],
                    ));
                }
            }
        }
    }
    proof {
        assert forall|env: Seq<bool>| #[trigger] c.words(env, r@) == kb_external_words(
            c0.words(env, cells@),
        ) by {
            reveal(kb_external_words);
            let yv = kb_groups_words(c0.words(env, cells@));
            assert(c1.words(env, y@) == yv);
            assert(c2.words(env, y@) == yv);
            assert forall|i: int| 0 <= i < 16 implies c.words(env, r@)[i] == kb_add_word(
                yv[i],
                kb_column_sum(yv, i % 4, 4),
            ) by {
                assert(c2.words(env, sums@)[i % 4] == kb_column_sum(
                    c1.words(env, y@),
                    i % 4,
                    4,
                ));
            }
            assert(c.words(env, r@) =~= kb_external_words(c0.words(env, cells@)));
        }
    }
    r
}

/// The operations of a round constant and the S-box.
#[verifier::opaque]
pub open spec fn kb_constant_sbox_shapes() -> Seq<Shape> {
    field::mod_add_shapes() + kb_sbox_shapes()
}

/// A cell plus a round constant, through the S-box.
fn kb_constant_sbox(c: &mut Circuit, x: &BigIntWires, rc: u32) -> (r: BigIntWires)
    requires
        old(c).wf(),
        old(c).is_word(*x, 32),
    ensures
        final(c).grows(*old(c), 16, 2),
        final(c).adds(*old(c), kb_constant_sbox_shapes()),
        final(c).is_word(r, 32),
        forall|env: Seq<bool>| #[trigger]
            final(c).word(env, r) == kb_sbox_word(kb_add_word(old(c).word(env, *x), rc as nat)),
{
    reveal(kb_constant_sbox_shapes);
    let ghost c0 = *c;
    let k = constant(rc);
    proof {
        bits::lemma_word_powers();
        c0.lemma_constant(k, rc as nat, 32);
    }
    let s = kb_add(c, x, &k);
    let ghost c1 = *c;
    let r = kb_sbox(c, &s);
    proof {
        assert forall|env: Seq<bool>| #[trigger] c.word(env, r) == kb_sbox_word(
            kb_add_word(c0.word(env, *x), rc as nat),
        ) by {
            assert(c0.word(env, k) == rc);
            assert(c1.word(env, s) == kb_add_word(c0.word(env, *x), rc as nat));
        }
    }
    r
}

/// Round constants and S-boxes on all cells.
fn kb_full_sboxes(
    c: &mut Circuit,
    cells: &Vec<BigIntWires>,
    rc: &Vec<u32>,
    round: usize,
) -> (r: Vec<BigIntWires>)
    requires
        old(c).wf(),
        cells@.len() == 16,
        old(c).is_row(cells@, 32),
        rc@.len() == 128,
        round < 8,
    ensures
        final(c).grows(*old(c), 256, 32),
        final(c).adds(*old(c), circuit::repeated(kb_constant_sbox_shapes(), 16)),
        r@.len() == 16,
        final(c).is_row(r@, 32),
        forall|env: Seq<bool>| #[trigger]
            final(c).words(env, r@) == kb_full_sboxes_words(
                old(c).words(env, cells@),
                rc@,
                round as int,
            ),
{
    let ghost c0 = *c;
    let mut r: Vec<BigIntWires> = Vec::new();
    while r.len() < 16
        invariant
            r@.len() <= 16,
            cells@.len() == 16,
            rc@.len() == 128,
            round < 8,
            c0.is_row(cells@, 32),
            c.grows(c0, 16 * r@.len(), 2 * r@.len()),
            c.adds(c0, circuit::repeated(kb_constant_sbox_shapes(), r@.len())),
            c.is_row(r@, 32),
            forall|env: Seq<bool>, i: int|
                0 <= i < r@.len() ==> #[trigger] c.words(env, r@)[i] == kb_sbox_word(
                    kb_add_word(c0.words(env, cells@)[i], rc@[16 * round + i] as nat),
                ),
        decreases 16 - r@.len(),
    {
        let ghost (c3, r3) = (*c, r@);
        let k = r.len();
        proof {
            poseidon2::lemma_row_kept(c0, c3, cells@, 32);
            assert(c3.is_word(cells@[k as int], 32));
        }
        let s = kb_constant_sbox(c, &cells[k], rc[KW * round + k]);
        let ghost s0 = s;
        r.push(s);
        proof {
            poseidon2::lemma_row_kept(c3, *c, r3, 32);
            assert forall|i: int| 0 <= i < r@.len() implies c.is_word(#[trigger] r@[i], 32) by {
                if i < k {
                    assert(c.is_word(r3[i], 32));
                }
            }
            assert forall|env: Seq<bool>, i: int| 0 <= i < r@.len() implies #[trigger] c.words(
                env,
                r@,
            )[i] == kb_sbox_word(
                kb_add_word(c0.words(env, cells@)[i], rc@[16 * round + i] as nat),
            ) by {
                if i < k {
                    assert(c.words(env, r3)[i] == c3.words(env, r3)[i]);
                    assert(c.words(env, r@)[i] == c.words(env, r3)[i]);
                } else {
                    assert(c3.words(env, cells@) == c0.words(env, cells@));
                    assert(c3.word(env, cells@[i]) == c3.words(env, cells@)[i]);
                    assert(c.word(env, s0) == kb_sbox_word(
                        kb_add_word(c3.word(env, cells@[i]), rc@[16 * round + i] as nat),
                    ));
                }
            }
        }
    }
    proof {
        assert forall|env: Seq<bool>| #[trigger] c.words(env, r@) == kb_full_sboxes_words(
            c0.words(env, cells@),
            rc@,
            round as int,
        ) by {
            reveal(kb_full_sboxes_words);
            assert(c.words(env, r@) =~= kb_full_sboxes_words(
                c0.words(env, cells@),
                rc@,
                round as int,
            ));
        }
    }
    r
}

/// The operations of a full round.
#[verifier::opaque]
pub open spec fn kb_full_round_shapes() -> Seq<Shape> {
    circuit::repeated(kb_constant_sbox_shapes(), 16) + kb_external_layer_shapes()
}

fn kb_full_round(
    c: &mut Circuit,
    cells: &Vec<BigIntWires>,
    rc: &Vec<u32>,
    round: usize,
) -> (r: Vec<BigIntWires>)
    requires
        old(c).wf(),
        cells@.len() == 16,
        old(c).is_row(cells@, 32),
        rc@.len() == 128,
        round < 8,
    ensures
        final(c).grows(*old(c), 544, 32),
        final(c).adds(*old(c), kb_full_round_shapes()),
        r@.len() == 16,
        final(c).is_row(r@, 32),
        forall|env: Seq<bool>| #[trigger]
            final(c).words(env, r@) == kb_full_round_words(
                old(c).words(env, cells@),
                rc@,
                round as int,
            ),
{
    reveal(kb_full_round_shapes);
    let ghost c0 = *c;
    let s = kb_full_sboxes(c, cells, rc, round);
    let ghost c1 = *c;
    let r = kb_external_layer(c, &s);
    proof {
        assert forall|env: Seq<bool>| #[trigger] c.words(env, r@) == kb_full_round_words(
            c0.words(env, cells@),
            rc@,
            round as int,
        ) by {
            assert(c1.words(env, s@) == kb_full_sboxes_words(
                c0.words(env, cells@),
                rc@,
                round as int,
            ));
        }
    }
    r
}

/// `x` extended to a double word.
fn widen(x: &BigIntWires) -> (r: BigIntWires)
    requires
        x.bits@.len() == 32,
    ensures
        r.bits@ == circuit::zero_wires(0) + x.bits@ + circuit::zero_wires(32),
{
    x.place(0, 64)
}

/// The sum of two double words that fits one.
fn wide_add(c: &mut Circuit, a: &BigIntWires, b: &BigIntWires) -> (r: BigIntWires)
    requires
        old(c).wf(),
        old(c).is_word(*a, 64),
        old(c).is_word(*b, 64),
    ensures
        final(c).grows(*old(c), 1, 0),
        final(c).adds(*old(c), seq![Shape::Add(64)]),
        final(c).is_word(r, 64),
        forall|env: Seq<bool>| #[trigger]
            final(c).word(env, r) == (old(c).word(env, *a) + old(c).word(env, *b))
                % 0x1_0000_0000_0000_0000,
{
    let ghost c0 = *c;
    let s = c.add(a, b);
    let r = s.slice(0, 64);
    proof {
        bits::lemma_word_powers();
        c.lemma_low(s, r, 64);
        assert forall|env: Seq<bool>| #[trigger] c.word(env, r) == (c0.word(env, *a) + c0.word(
            env,
            *b,
        )) % 0x1_0000_0000_0000_0000 by {
            assert(c.word(env, s) == c0.word(env, *a) + c0.word(env, *b));
        }
    }
    r
}

/// `p - x` at the width of a word.
fn kb_neg(c: &mut Circuit, x: &BigIntWires) -> (r: BigIntWires)
    requires
        old(c).wf(),
        old(c).is_word(*x, 32),
    ensures
        final(c).grows(*old(c), 1, 0),
        final(c).adds(*old(c), seq![Shape::Sub(32)]),
        final(c).is_word(r, 32),
        forall|env: Seq<bool>| #[trigger]
            final(c).word(env, r) == kb_neg_word(old(c).word(env, *x)),
{
    let ghost c0 = *c;
    let p = constant(KOALABEAR_P);
    proof {
        bits::lemma_word_powers();
        c0.lemma_constant(p, KOALABEAR_P as nat, 32);
        c0.lemma_bound(*x);
    }
    let d = c.sub(&p, x);
    let r = d.slice(0, 32);
    proof {
        c.lemma_low(d, r, 32);
        assert forall|env: Seq<bool>| #[trigger] c.word(env, r) == kb_neg_word(
            c0.word(env, *x),
        ) by {
            assert(c0.word(env, p) == KOALABEAR_P);
            assert(c.word(env, r) == c.word(env, d) % 0x1_0000_0000);
        }
    }
    r
}

/// Sums of words stay small.
proof fn lemma_tail_sum_bound(x: Seq<nat>, k: nat)
    requires
        1 <= k <= x.len(),
        forall|i: int| 0 <= i < x.len() ==> #[trigger] x[i] < 0x1_0000_0000,
    ensures
        tail_sum(x, k) <= (k - 1) * 0x1_0000_0000,
    decreases k,
{
    if k > 1 {
        lemma_tail_sum_bound(x, (k - 1) as nat);
    }
}

/// The words of a row are below `2^32`.
proof fn lemma_row_bound(c: Circuit, xs: Seq<BigIntWires>)
    requires
        c.is_row(xs, 32),
    ensures
        forall|env: Seq<bool>, i: int|
            0 <= i < xs.len() ==> #[trigger] c.words(env, xs)[i] < 0x1_0000_0000,
{
    bits::lemma_word_powers();
    assert forall|env: Seq<bool>, i: int| 0 <= i < xs.len() implies #[trigger] c.words(env, xs)[i]
        < 0x1_0000_0000 by {
        assert(c.is_word(xs[i], 32));
        c.lemma_bound(xs[i]);
        assert(c.words(env, xs)[i] == c.word(env, xs[i]));
    }
}

/// The sum of all cells but the first, as a double word.
#[verifier::rlimit(30)]
fn kb_tail_sum(c: &mut Circuit, state: &Vec<BigIntWires>) -> (r: BigIntWires)
    requires
        old(c).wf(),
        state@.len() == 16,
        old(c).is_row(state@, 32),
    ensures
        final(c).grows(*old(c), 14, 0),
        final(c).adds(*old(c), circuit::repeated(seq![Shape::Add(64)], 14)),
        final(c).is_word(r, 64),
        forall|env: Seq<bool>| #[trigger]
            final(c).word(env, r) == tail_sum(old(c).words(env, state@), 16),
{
    let ghost c0 = *c;
    assert(c0.is_word(state@[1], 32));
    let mut r = widen(&state[1]);
    proof {
        bits::lemma_word_powers();
        c0.lemma_place(state@[1], r, 0, 32);
        lemma_row_bound(c0, state@);
        assert forall|env: Seq<bool>| #[trigger] c0.word(env, r) == tail_sum(
            c0.words(env, state@),
            2,
        ) by {
            reveal_with_fuel(tail_sum, 3);
            assert(c0.words(env, state@)[1] == c0.word(env, state@[1]));
        }
    }
    let mut k: usize = 2;
    while k < 16
        invariant
            2 <= k <= 16,
            state@.len() == 16,
            c0.is_row(state@, 32),
            c.grows(c0, (k - 2) as nat, 0),
            c.adds(c0, circuit::repeated(seq![Shape::Add(64)], (k - 2) as nat)),
            c.is_word(r, 64),
            forall|env: Seq<bool>, i: int|
                0 <= i < 16 ==> #[trigger] c0.words(env, state@)[i] < 0x1_0000_0000,
            forall|env: Seq<bool>| #[trigger]
                c.word(env, r) == tail_sum(c0.words(env, state@), k as nat),
        decreases 16 - k,
    {
        let ghost (c1, r1) = (*c, r);
        let w = widen(&state[k]);
        proof {
            bits::lemma_word_powers();
            poseidon2::lemma_row_kept(c0, c1, state@, 32);
            assert(c1.is_word(state@[k as int], 32));
            c1.lemma_place(state@[k as int], w, 0, 32);
        }
        r = wide_add(c, &r, &w);
        proof {
            assert forall|env: Seq<bool>| #[trigger] c.word(env, r) == tail_sum(
                c0.words(env, state@),
                (k + 1) as nat,
            ) by {
                let x = c0.words(env, state@);
                assert(c1.word(env, r1) == tail_sum(x, k as nat));
                assert(c1.words(env, state@) == x);
                assert(c1.word(env, w) == c1.word(env, state@[k as int]) * 1);
                assert(c1.words(env, state@)[k as int] == c1.word(env, state@[k as int]));
                lemma_tail_sum_bound(x, (k + 1) as nat);
            }
        }
        k += 1;
    }
    r
}

/// The operations of a cell of the internal layer.
#[verifier::opaque]
pub open spec fn kb_cell_shapes() -> Seq<Shape> {
    seq![Shape::Add(64)] + field::redc_shapes(KOALABEAR_P, KOALABEAR_MU)
}

/// What cell `i` of the internal layer is reduced from, given the sum of all
/// cells but the first and the sum of all cells.
#[verifier::rlimit(30)]
fn kb_cell(
    c: &mut Circuit,
    state: &Vec<BigIntWires>,
    part_sum: &BigIntWires,
    full_sum: &BigIntWires,
    neg0: &BigIntWires,
    i: usize,
) -> (r: BigIntWires)
    requires
        old(c).wf(),
        state@.len() == 16,
        old(c).is_row(state@, 32),
        old(c).is_word(*part_sum, 64),
        old(c).is_word(*full_sum, 64),
        old(c).is_word(*neg0, 32),
        i < 16,
        forall|env: Seq<bool>| #[trigger]
            old(c).word(env, *part_sum) == tail_sum(old(c).words(env, state@), 16),
        forall|env: Seq<bool>| #[trigger]
            old(c).word(env, *full_sum) == tail_sum(old(c).words(env, state@), 16) + old(c).words(
                env,
                state@,
            )[0],
        forall|env: Seq<bool>| #[trigger]
            old(c).word(env, *neg0) == kb_neg_word(old(c).words(env, state@)[0]),
    ensures
        final(c).grows(*old(c), 6, 0),
        final(c).adds(*old(c), kb_cell_shapes()),
        final(c).is_word(r, 32),
        forall|env: Seq<bool>| #[trigger]
            final(c).word(env, r) == field::redc_word(
                kb_unreduced(old(c).words(env, state@), i as int),
                KOALABEAR_P as nat,
                KOALABEAR_MU as nat,
            ),
{
    reveal(kb_cell_shapes);
    let ghost c0 = *c;
    proof {
        bits::lemma_word_powers();
        lemma2_to64();
        lemma_row_bound(c0, state@);
        c0.lemma_bound(*neg0);
    }
    let s = if i == 0 {
        let w = widen(neg0);
        proof {
            c0.lemma_place(*neg0, w, 0, 32);
        }
        let s = wide_add(c, part_sum, &w);
        proof {
            assert forall|env: Seq<bool>| #[trigger] c.word(env, s) == kb_unreduced(
                c0.words(env, state@),
                i as int,
            ) by {
                let x = c0.words(env, state@);
                assert(c0.word(env, *part_sum) == tail_sum(x, 16));
                assert(c0.word(env, w) == c0.word(env, *neg0) * 1);
                assert(c0.word(env, *neg0) == kb_neg_word(x[0]));
                lemma_tail_sum_bound(x, 16);
            }
        }
        s
    } else {
        let shift = SHIFTS[i - 1];
        assert(shift <= 15);
        assert(c0.is_word(state@[i as int], 32));
        let w = state[i].place(shift, 64);
        proof {
            c0.lemma_place(state@[i as int], w, shift as nat, (32 - shift) as nat);
        }
        let s = wide_add(c, full_sum, &w);
        proof {
            assert forall|env: Seq<bool>| #[trigger] c.word(env, s) == kb_unreduced(
                c0.words(env, state@),
                i as int,
            ) by {
                let x = c0.words(env, state@);
                assert(c0.word(env, *full_sum) == tail_sum(x, 16) + x[0]);
                assert(c0.word(env, w) == c0.word(env, state@[i as int]) * pow2(shift as nat));
                assert(x[i as int] == c0.word(env, state@[i as int]));
                lemma_tail_sum_bound(x, 16);
                lemma_shifted_bound(x[i as int], shift as nat);
            }
        }
        s
    };
    let ghost c1 = *c;
    let r = field::redc(c, &s, KOALABEAR_P, KOALABEAR_MU);
    proof {
        assert forall|env: Seq<bool>| #[trigger] c.word(env, r) == field::redc_word(
            kb_unreduced(c0.words(env, state@), i as int),
            KOALABEAR_P as nat,
            KOALABEAR_MU as nat,
        ) by {
            assert(c1.word(env, s) == kb_unreduced(c0.words(env, state@), i as int));
        }
    }
    r
}

proof fn lemma_shifted_bound(x: nat, shift: nat)
    requires
        x < 0x1_0000_0000,
        shift <= 15,
    ensures
        x * pow2(shift) < 0x8000_0000_0000,
{
    lemma2_to64();
    if shift < 15 {
        lemma_pow2_strictly_increases(shift, 15);
    }
    circuit::lemma_product_bound(x, 0x1_0000_0000, pow2(shift), 0x8001);
    assert(x * pow2(shift) <= 0xffff_ffff * 0x8000) by (nonlinear_arith)
        requires
            x <= 0xffff_ffff,
            pow2(shift) <= 0x8000,
    ;
}

/// The operations of the internal linear layer.
#[verifier::opaque]
pub open spec fn kb_internal_layer_shapes() -> Seq<Shape> {
    circuit::repeated(seq![Shape::Add(64)], 14) + seq![Shape::Add(64)] + seq![Shape::Sub(32)] + circuit::repeated(kb_cell_shapes(), 16)
}

/// The internal linear layer.
#[verifier::rlimit(30)]
fn kb_internal_layer(c: &mut Circuit, state: &Vec<BigIntWires>) -> (r: Vec<BigIntWires>)
    requires
        old(c).wf(),
        state@.len() == 16,
        old(c).is_row(state@, 32),
    ensures
        final(c).grows(*old(c), 112, 0),
        final(c).adds(*old(c), kb_internal_layer_shapes()),
        r@.len() == 16,
        final(c).is_row(r@, 32),
        forall|env: Seq<bool>| #[trigger]
            final(c).words(env, r@) == kb_internal_words(old(c).words(env, state@)),
{
    reveal(kb_internal_layer_shapes);
    let ghost c0 = *c;
    let part_sum = kb_tail_sum(c, state);
    let ghost c1 = *c;
    let w0 = widen(&state[0]);
    proof {
        bits::lemma_word_powers();
        poseidon2::lemma_row_kept(c0, c1, state@, 32);
        assert(c1.is_word(state@[0], 32));
        c1.lemma_place(state@[0], w0, 0, 32);
        lemma_row_bound(c0, state@);
    }
    let full_sum = wide_add(c, &part_sum, &w0);
    let ghost c2 = *c;
    let neg0 = kb_neg(c, &state[0]);
    let ghost c3 = *c;
    proof {
        poseidon2::lemma_row_kept(c0, c3, state@, 32);
        assert forall|env: Seq<bool>| #[trigger] c3.word(env, part_sum) == tail_sum(
            c0.words(env, state@),
            16,
        ) by {
            assert(c1.word(env, part_sum) == tail_sum(c0.words(env, state@), 16));
        }
        assert forall|env: Seq<bool>| #[trigger] c3.word(env, full_sum) == tail_sum(
            c0.words(env, state@),
            16,
        ) + c0.words(env, state@)[0] by {
            let x = c0.words(env, state@);
            assert(c1.words(env, state@) == x);
            assert(c1.words(env, state@)[0] == c1.word(env, state@[0]));
            assert(c1.word(env, w0) == c1.word(env, state@[0]) * 1);
            assert(c1.word(env, part_sum) == tail_sum(x, 16));
            lemma_tail_sum_bound(x, 16);
            assert(c2.word(env, full_sum) == tail_sum(x, 16) + x[0]);
        }
        assert forall|env: Seq<bool>| #[trigger] c3.word(env, neg0) == kb_neg_word(
            c0.words(env, state@)[0],
        ) by {
            assert(c2.word(env, state@[0]) == c0.words(env, state@)[0]);
        }
    }
    let mut r: Vec<BigIntWires> = Vec::new();
    while r.len() < 16
        invariant
            r@.len() <= 16,
            state@.len() == 16,
            c3.is_row(state@, 32),
            c3.is_word(part_sum, 64),
            c3.is_word(full_sum, 64),
            c3.is_word(neg0, 32),
            forall|env: Seq<bool>| #[trigger] c3.words(env, state@) == c0.words(env, state@),
            forall|env: Seq<bool>| #[trigger]
                c3.word(env, part_sum) == tail_sum(c0.words(env, state@), 16),
            forall|env: Seq<bool>| #[trigger]
                c3.word(env, full_sum) == tail_sum(c0.words(env, state@), 16) + c0.words(
                    env,
                    state@,
                )[0],
            forall|env: Seq<bool>| #[trigger]
                c3.word(env, neg0) == kb_neg_word(c0.words(env, state@)[0]),
            c.grows(c3, 6 * r@.len(), 0),
            c.adds(c3, circuit::repeated(kb_cell_shapes(), r@.len())),
            c.is_row(r@, 32),
            forall|env: Seq<bool>, i: int|
                0 <= i < r@.len() ==> #[trigger] c.words(env, r@)[i] == field::redc_word(
                    kb_unreduced(c0.words(env, state@), i),
                    KOALABEAR_P as nat,
                    KOALABEAR_MU as nat,
                ),
        decreases 16 - r@.len(),
    {
        let ghost (c4, r4) = (*c, r@);
        let k = r.len();
        proof {
            poseidon2::lemma_row_kept(c3, c4, state@, 32);
            assert forall|env: Seq<bool>| #[trigger] c4.word(env, part_sum) == tail_sum(
                c4.words(env, state@),
                16,
            ) by {
                assert(c4.words(env, state@) == c3.words(env, state@));
                assert(c4.word(env, part_sum) == c3.word(env, part_sum));
            }
            assert forall|env: Seq<bool>| #[trigger] c4.word(env, full_sum) == tail_sum(
                c4.words(env, state@),
                16,
            ) + c4.words(env, state@)[0] by {
                assert(c4.words(env, state@) == c3.words(env, state@));
                assert(c4.word(env, full_sum) == c3.word(env, full_sum));
            }
            assert forall|env: Seq<bool>| #[trigger] c4.word(env, neg0) == kb_neg_word(
                c4.words(env, state@)[0],
            ) by {
                assert(c4.words(env, state@) == c3.words(env, state@));
                assert(c4.word(env, neg0) == c3.word(env, neg0));
            }
        }
        let s = kb_cell(c, state, &part_sum, &full_sum, &neg0, k);
        let ghost s0 = s;
        r.push(s);
        proof {
            poseidon2::lemma_row_kept(c4, *c, r4, 32);
            assert forall|i: int| 0 <= i < r@.len() implies c.is_word(#[trigger] r@[i], 32) by {
                if i < k {
                    assert(c.is_word(r4[i], 32));
                }
            }
            assert forall|env: Seq<bool>, i: int| 0 <= i < r@.len() implies #[trigger] c.words(
                env,
                r@,
            )[i] == field::redc_word(
                kb_unreduced(c0.words(env, state@), i),
                KOALABEAR_P as nat,
                KOALABEAR_MU as nat,
            ) by {
                if i < k {
                    assert(c.words(env, r4)[i] == c4.words(env, r4)[i]);
                    assert(c.words(env, r@)[i] == c.words(env, r4)[i]);
                } else {
                    assert(c4.words(env, state@) == c3.words(env, state@));
                    assert(c.word(env, s0) == c.words(env, r@)[i]);
                }
            }
        }
    }
    proof {
        assert forall|env: Seq<bool>| #[trigger] c.words(env, r@) == kb_internal_words(
            c0.words(env, state@),
        ) by {
            reveal(kb_internal_words);
            assert(c.words(env, r@) =~= kb_internal_words(c0.words(env, state@)));
        }
    }
    r
}

/// The operations of a partial round.
#[verifier::opaque]
pub open spec fn kb_partial_round_shapes() -> Seq<Shape> {
    kb_constant_sbox_shapes() + kb_internal_layer_shapes()
}

fn kb_partial_round(c: &mut Circuit, state: &Vec<BigIntWires>, rc: u32) -> (r: Vec<BigIntWires>)
    requires
        old(c).wf(),
        state@.len() == 16,
        old(c).is_row(state@, 32),
    ensures
        final(c).grows(*old(c), 128, 2),
        final(c).adds(*old(c), kb_partial_round_shapes()),
        r@.len() == 16,
        final(c).is_row(r@, 32),
        forall|env: Seq<bool>| #[trigger]
            final(c).words(env, r@) == kb_partial_round_words(old(c).words(env, state@), rc),
{
    reveal(kb_partial_round_shapes);
    let ghost c0 = *c;
    assert(c0.is_word(state@[0], 32));
    let s = kb_constant_sbox(c, &state[0], rc);
    let ghost (c1, s0) = (*c, s);
    let mut next = poseidon2::dup_row(state);
    let ghost copy = next@;
    proof {
        poseidon2::lemma_row_kept(c0, c1, state@, 32);
        poseidon2::lemma_dup_row(c1, state@, copy, 32);
    }
    next.set(0, s);
    proof {
        assert forall|i: int| 0 <= i < 16 implies c1.is_word(#[trigger] next@[i], 32) by {
            if i > 0 {
                assert(c1.is_word(copy[i], 32));
            }
        }
    }
    let r = kb_internal_layer(c, &next);
    proof {
        assert forall|env: Seq<bool>| #[trigger] c.words(env, r@) == kb_partial_round_words(
            c0.words(env, state@),
            rc,
        ) by {
            let x = c0.words(env, state@);
            assert(c1.words(env, copy) == c1.words(env, state@));
            assert(c1.words(env, state@) == x);
            assert(c1.word(env, s0) == kb_sbox_word(kb_add_word(x[0], rc as nat)));
            assert forall|i: int| 0 < i < 16 implies c1.words(env, next@)[i] == x[i] by {
                assert(c1.words(env, copy)[i] == x[i]);
            }
            assert(c1.words(env, next@) =~= x.update(
                0,
                kb_sbox_word(kb_add_word(x[0], rc as nat)),
            ));
        }
    }
    r
}

/// The operations of the first linear layer and `k` rounds.
pub open spec fn kb_rounds_shapes(k: nat) -> Seq<Shape>
    decreases k,
{
    if k == 0 {
        kb_external_layer_shapes()
    } else if 4 <= k - 1 < 24 {
        kb_rounds_shapes((k - 1) as nat) + kb_partial_round_shapes()
    } else {
        kb_rounds_shapes((k - 1) as nat) + kb_full_round_shapes()
    }
}

/// The KoalaBear permutation with given constants of the external and the
/// internal rounds, in Montgomery form.
#[verifier::rlimit(30)]
pub fn kb_permutation(
    c: &mut Circuit,
    state: &Vec<BigIntWires>,
    external: &Vec<u32>,
    internal: &Vec<u32>,
) -> (r: Vec<BigIntWires>)
    requires
        old(c).wf(),
        state@.len() == 16,
        old(c).is_row(state@, 32),
        external@.len() == 128,
        internal@.len() == 20,
    ensures
        final(c).grows(*old(c), 7200, 296),
        final(c).adds(*old(c), kb_rounds_shapes(28)),
        r@.len() == 16,
        final(c).is_row(r@, 32),
        forall|env: Seq<bool>| #[trigger]
            final(c).words(env, r@) == kb_permutation_words(
                old(c).words(env, state@),
                external@,
                internal@,
            ),
{
    let ghost c0 = *c;
    let mut r = kb_external_layer(c, state);
    let mut round: usize = 0;
    while round < 2 * ROUNDS_HALF_EXTERNAL + ROUNDS_INTERNAL
        invariant
            round <= 28,
            external@.len() == 128,
            internal@.len() == 20,
            r@.len() == 16,
            c.is_row(r@, 32),
            c.grows(c0, kb_ops(round as nat), kb_products(round as nat)),
            c.adds(c0, kb_rounds_shapes(round as nat)),
            forall|env: Seq<bool>| #[trigger]
                c.words(env, r@) == kb_rounds_words(
                    c0.words(env, state@),
                    external@,
                    internal@,
                    round as nat,
                ),
        decreases 28 - round,
    {
        let ghost (c1, r1) = (*c, r@);
        if round < ROUNDS_HALF_EXTERNAL {
            r = kb_full_round(c, &r, external, round);
        } else if round < ROUNDS_HALF_EXTERNAL + ROUNDS_INTERNAL {
            r = kb_partial_round(c, &r, internal[round - ROUNDS_HALF_EXTERNAL]);
        } else {
            r = kb_full_round(c, &r, external, round - ROUNDS_INTERNAL);
        }
        proof {
            assert(c.grows(c0, kb_ops((round + 1) as nat), kb_products((round + 1) as nat)));
            assert(c.adds(c0, kb_rounds_shapes((round + 1) as nat)));
            assert forall|env: Seq<bool>| #[trigger] c.words(env, r@) == kb_rounds_words(
                c0.words(env, state@),
                external@,
                internal@,
                (round + 1) as nat,
            ) by {
                assert(c1.words(env, r1) == kb_rounds_words(
                    c0.words(env, state@),
                    external@,
                    internal@,
                    round as nat,
                ));
            }
        }
        round += 1;
    }
    r
}

/// Operations after the first linear layer and `k` rounds.
spec fn kb_ops(k: nat) -> nat {
    if k <= 4 {
        288 + 544 * k
    } else if k <= 24 {
        (2464 + 128 * (k - 4)) as nat
    } else {
        (5024 + 544 * (k - 24)) as nat
    }
}

/// Products after `k` rounds.
spec fn kb_products(k: nat) -> nat {
    if k <= 4 {
        32 * k
    } else if k <= 24 {
        (128 + 2 * (k - 4)) as nat
    } else {
        (168 + 32 * (k - 24)) as nat
    }
}

/// Row `r` of the 4x4 matrix times four elements.
pub open spec fn matrix_row(r: int, x0: nat, x1: nat, x2: nat, x3: nat) -> nat {
    if r == 0 {
        2 * x0 + 3 * x1 + x2 + x3
    } else if r == 1 {
        x0 + 2 * x1 + 3 * x2 + x3
    } else if r == 2 {
        x0 + x1 + 2 * x2 + 3 * x3
    } else {
        3 * x0 + x1 + x2 + 2 * x3
    }
}

/// Every group of four elements times the 4x4 matrix.
#[verifier::opaque]
pub open spec fn groups_values(x: Seq<nat>) -> Seq<nat> {
    Seq::new(
        16,
        |i: int|
            matrix_row(
                i % 4,
                x[4 * (i / 4)],
                x[4 * (i / 4) + 1],
                x[4 * (i / 4) + 2],
                x[4 * (i / 4) + 3],
            ),
    )
}

/// The sum of element `j` over the first `k` groups of four.
pub open spec fn column_value(y: Seq<nat>, j: int, k: nat) -> nat
    decreases k,
{
    if k <= 1 {
        y[j]
    } else {
        column_value(y, j, (k - 1) as nat) + y[4 * (k - 1) + j]
    }
}

/// The external linear layer on field elements.
#[verifier::opaque]
pub open spec fn external_values(x: Seq<nat>) -> Seq<nat> {
    let y = groups_values(x);
    Seq::new(16, |i: int| (y[i] + column_value(y, i % 4, 4)) % (KOALABEAR_P as nat))
}

/// The internal linear layer on field elements. Beside the shifts it divides
/// by `2^32`, which the one reduction of each cell brings in.
#[verifier::opaque]
pub open spec fn internal_values(x: Seq<nat>) -> Seq<nat> {
    Seq::new(
        16,
        |i: int|
            (kb_unreduced(x, i) * montgomery::r_inverse(KOALABEAR_P as nat)) % (
            KOALABEAR_P as nat),
    )
}

/// The S-box on a field element, a round constant added first.
pub open spec fn sbox_value(x: nat, rc: nat) -> nat {
    (pow((x + rc) as int, 3) % (KOALABEAR_P as int)) as nat
}

/// Round constants and S-boxes on all elements.
#[verifier::opaque]
pub open spec fn full_sboxes_values(x: Seq<nat>, rc: Seq<nat>, round: int) -> Seq<nat> {
    Seq::new(16, |i: int| sbox_value(x[i], rc[16 * round + i]))
}

/// The state of field elements after `k` rounds.
pub open spec fn rounds_values(
    x: Seq<nat>,
    external: Seq<nat>,
    internal: Seq<nat>,
    k: nat,
) -> Seq<nat>
    decreases k,
{
    if k == 0 {
        external_values(x)
    } else {
        let before = rounds_values(x, external, internal, (k - 1) as nat);
        if k - 1 < 4 {
            external_values(full_sboxes_values(before, external, k - 1))
        } else if k - 1 < 24 {
            internal_values(before.update(0, sbox_value(before[0], internal[k - 5])))
        } else {
            external_values(full_sboxes_values(before, external, k - 21))
        }
    }
}

/// The permutation of 16 field elements.
pub open spec fn permutation_values(
    x: Seq<nat>,
    external: Seq<nat>,
    internal: Seq<nat>,
) -> Seq<nat> {
    rounds_values(x, external, internal, 28)
}

spec fn kb_stands(w: nat, v: nat) -> bool {
    montgomery::stands_for(w, v, KOALABEAR_P as nat)
}

spec fn kb_all_stand(ws: Seq<nat>, vs: Seq<nat>) -> bool {
    montgomery::all_stand_for(ws, vs, KOALABEAR_P as nat)
}

proof fn lemma_kb_add_stands(w1: nat, v1: nat, w2: nat, v2: nat)
    requires
        kb_stands(w1, v1),
        kb_stands(w2, v2),
    ensures
        kb_stands(kb_add_word(w1, w2), v1 + v2),
{
    montgomery::law_parameters();
    montgomery::lemma_add_stands(w1, v1, w2, v2, KOALABEAR_P as nat, KOALABEAR_MU as nat);
}

proof fn lemma_kb_mul_stands(w1: nat, v1: nat, w2: nat, v2: nat)
    requires
        kb_stands(w1, v1),
        kb_stands(w2, v2),
    ensures
        kb_stands(kb_mul_word(w1, w2), v1 * v2),
{
    montgomery::law_parameters();
    montgomery::lemma_mul_stands(w1, v1, w2, v2, KOALABEAR_P as nat, KOALABEAR_MU as nat);
}

proof fn lemma_sbox_stands(w: nat, v: nat)
    requires
        kb_stands(w, v),
    ensures
        kb_stands(kb_sbox_word(w), pow(v as int, 3) as nat),
        pow(v as int, 3) >= 0,
{
    lemma_kb_mul_stands(w, v, w, v);
    lemma_kb_mul_stands(kb_mul_word(w, w), v * v, w, v);
    let i = v as int;
    assert(pow(i, 3) == i * (i * (i * 1))) by {
        reveal_with_fuel(pow, 4);
    }
    assert(i * (i * (i * 1)) == (i * i) * i) by (nonlinear_arith);
    assert((i * i) * i >= 0) by (nonlinear_arith)
        requires
            i >= 0,
    ;
}

/// A cell plus a round constant, through the S-box.
proof fn lemma_constant_sbox_stands(w: nat, v: nat, rc: u32, rcv: nat)
    requires
        kb_stands(w, v),
        kb_stands(rc as nat, rcv),
    ensures
        kb_stands(kb_sbox_word(kb_add_word(w, rc as nat)), sbox_value(v, rcv)),
        sbox_value(v, rcv) < KOALABEAR_P,
{
    lemma_kb_add_stands(w, v, rc as nat, rcv);
    lemma_sbox_stands(kb_add_word(w, rc as nat), v + rcv);
    lemma_mod_twice(pow((v + rcv) as int, 3), KOALABEAR_P as int);
}

proof fn lemma_mat4_stands(x: Seq<nat>, v: Seq<nat>)
    requires
        x.len() == 4,
        kb_all_stand(x, v),
    ensures
        forall|r: int|
            0 <= r < 4 ==> kb_stands(
                #[trigger] kb_mat4_words(x[0], x[1], x[2], x[3])[r],
                matrix_row(r, v[0], v[1], v[2], v[3]),
            ),
{
    assert(kb_stands(x[0], v[0]) && kb_stands(x[1], v[1]) && kb_stands(x[2], v[2]) && kb_stands(
        x[3],
        v[3],
    ));
    let t01 = kb_add_word(x[0], x[1]);
    let t23 = kb_add_word(x[2], x[3]);
    let t0123 = kb_add_word(t01, t23);
    let t01123 = kb_add_word(t0123, x[1]);
    let t01233 = kb_add_word(t0123, x[3]);
    let (v01, v23) = (v[0] + v[1], v[2] + v[3]);
    lemma_kb_add_stands(x[0], v[0], x[1], v[1]);
    lemma_kb_add_stands(x[2], v[2], x[3], v[3]);
    lemma_kb_add_stands(t01, v01, t23, v23);
    lemma_kb_add_stands(t0123, v01 + v23, x[1], v[1]);
    lemma_kb_add_stands(t0123, v01 + v23, x[3], v[3]);
    lemma_kb_add_stands(x[0], v[0], x[0], v[0]);
    lemma_kb_add_stands(x[2], v[2], x[2], v[2]);
    lemma_kb_add_stands(t01123, v01 + v23 + v[1], t01, v01);
    lemma_kb_add_stands(t01123, v01 + v23 + v[1], kb_add_word(x[2], x[2]), v[2] + v[2]);
    lemma_kb_add_stands(t01233, v01 + v23 + v[3], t23, v23);
    lemma_kb_add_stands(t01233, v01 + v23 + v[3], kb_add_word(x[0], x[0]), v[0] + v[0]);
}

proof fn lemma_groups_stand(x: Seq<nat>, v: Seq<nat>)
    requires
        x.len() == 16,
        kb_all_stand(x, v),
    ensures
        kb_all_stand(kb_groups_words(x), groups_values(v)),
{
    reveal(kb_groups_words);
    reveal(groups_values);
    assert forall|i: int| 0 <= i < 16 implies kb_stands(
        #[trigger] kb_groups_words(x)[i],
        groups_values(v)[i],
    ) by {
        let g = 4 * (i / 4);
        let (xs, vs) = (x.subrange(g, g + 4), v.subrange(g, g + 4));
        assert forall|k: int| 0 <= k < 4 implies kb_stands(#[trigger] xs[k], vs[k]) by {
            assert(kb_stands(x[g + k], v[g + k]));
        }
        lemma_mat4_stands(xs, vs);
        assert(kb_stands(
            kb_mat4_words(xs[0], xs[1], xs[2], xs[3])[i % 4],
            matrix_row(i % 4, vs[0], vs[1], vs[2], vs[3]),
        ));
    }
}

proof fn lemma_column_stands(y: Seq<nat>, v: Seq<nat>, j: int, k: nat)
    requires
        y.len() == 16,
        kb_all_stand(y, v),
        0 <= j < 4,
        1 <= k <= 4,
    ensures
        kb_stands(kb_column_sum(y, j, k), column_value(v, j, k)),
    decreases k,
{
    if k == 1 {
        assert(kb_stands(y[j], v[j]));
    } else {
        lemma_column_stands(y, v, j, (k - 1) as nat);
        assert(kb_stands(y[4 * (k - 1) + j], v[4 * (k - 1) + j]));
        lemma_kb_add_stands(
            kb_column_sum(y, j, (k - 1) as nat),
            column_value(v, j, (k - 1) as nat),
            y[4 * (k - 1) + j],
            v[4 * (k - 1) + j],
        );
    }
}

proof fn lemma_external_stands(x: Seq<nat>, v: Seq<nat>)
    requires
        x.len() == 16,
        kb_all_stand(x, v),
    ensures
        kb_all_stand(kb_external_words(x), external_values(v)),
        montgomery::all_reduced(external_values(v), KOALABEAR_P as nat),
{
    lemma_groups_stand(x, v);
    reveal(kb_external_words);
    reveal(external_values);
    let (y, w) = (kb_groups_words(x), groups_values(v));
    assert(y.len() == 16) by {
        reveal(kb_groups_words);
    }
    assert forall|i: int| 0 <= i < 16 implies kb_stands(
        #[trigger] kb_external_words(x)[i],
        external_values(v)[i],
    ) by {
        lemma_column_stands(y, w, i % 4, 4);
        assert(kb_stands(y[i], w[i]));
        lemma_kb_add_stands(y[i], w[i], kb_column_sum(y, i % 4, 4), column_value(w, i % 4, 4));
        lemma_mod_twice((w[i] + column_value(w, i % 4, 4)) as int, KOALABEAR_P as int);
    }
}

/// Whether a sum of words divided by `2^32` is congruent to a sum of elements.
spec fn scales_to(s: nat, t: nat) -> bool {
    (s * montgomery::r_inverse(KOALABEAR_P as nat)) % (KOALABEAR_P as nat) == t % (
    KOALABEAR_P as nat)
}

proof fn lemma_scales_add(s1: nat, t1: nat, s2: nat, t2: nat)
    requires
        scales_to(s1, t1),
        scales_to(s2, t2),
    ensures
        scales_to(s1 + s2, t1 + t2),
{
    let (p, r) = (KOALABEAR_P as int, montgomery::r_inverse(KOALABEAR_P as nat) as int);
    lemma_mul_is_distributive_add_other_way(r, s1 as int, s2 as int);
    lemma_add_mod_noop(s1 * r, s2 * r, p);
    lemma_add_mod_noop(t1 as int, t2 as int, p);
}

proof fn lemma_scales_shift(s: nat, t: nat, k: nat)
    requires
        scales_to(s, t),
    ensures
        scales_to(s * k, t * k),
{
    let (p, r) = (KOALABEAR_P as int, montgomery::r_inverse(KOALABEAR_P as nat) as int);
    assert((s * k) * r == (s * r) * k) by (nonlinear_arith);
    lemma_mul_mod_noop_left(s * r, k as int, p);
    lemma_mul_mod_noop_left(t as int, k as int, p);
}

proof fn lemma_tail_scales(x: Seq<nat>, v: Seq<nat>, k: nat)
    requires
        x.len() == 16,
        kb_all_stand(x, v),
        1 <= k <= 16,
    ensures
        scales_to(tail_sum(x, k), tail_sum(v, k)),
    decreases k,
{
    if k > 1 {
        lemma_tail_scales(x, v, (k - 1) as nat);
        assert(kb_stands(x[k - 1], v[k - 1]));
        lemma_scales_add(
            tail_sum(x, (k - 1) as nat),
            tail_sum(v, (k - 1) as nat),
            x[k - 1],
            v[k - 1],
        );
    }
}

proof fn lemma_neg_scales(x: nat, v: nat)
    requires
        kb_stands(x, v),
        v < KOALABEAR_P,
    ensures
        scales_to(kb_neg_word(x), kb_neg_word(v)),
{
    let (p, r) = (KOALABEAR_P as int, montgomery::r_inverse(KOALABEAR_P as nat) as int);
    lemma_small_mod(v, KOALABEAR_P as nat);
    lemma_mul_is_distributive_sub_other_way(r, p, x as int);
    lemma_mod_multiples_vanish(r, -(x * r), p);
    lemma_sub_mod_noop(0, x * r, p);
    lemma_sub_mod_noop(0, v as int, p);
    lemma_mod_multiples_vanish(1, -(v as int), p);
}

proof fn lemma_unreduced_bound(x: Seq<nat>, i: int)
    requires
        x.len() == 16,
        montgomery::all_reduced(x, KOALABEAR_P as nat),
        0 <= i < 16,
    ensures
        kb_unreduced(x, i) < KOALABEAR_P * 0x1_0000_0000,
{
    assert forall|j: int| 0 <= j < 16 implies #[trigger] x[j] < 0x1_0000_0000 by {
        assert(x[j] < KOALABEAR_P);
    }
    lemma_tail_sum_bound(x, 16);
    if i > 0 {
        lemma_shifted_bound(x[i], SHIFTS@[i - 1] as nat);
    }
}

proof fn lemma_internal_stands(x: Seq<nat>, v: Seq<nat>)
    requires
        x.len() == 16,
        kb_all_stand(x, v),
        montgomery::all_reduced(v, KOALABEAR_P as nat),
    ensures
        kb_all_stand(kb_internal_words(x), internal_values(v)),
        montgomery::all_reduced(internal_values(v), KOALABEAR_P as nat),
{
    reveal(kb_internal_words);
    reveal(internal_values);
    montgomery::law_parameters();
    let p = KOALABEAR_P as nat;
    lemma_tail_scales(x, v, 16);
    assert forall|j: int| 0 <= j < 16 implies #[trigger] x[j] < p by {
        assert(kb_stands(x[j], v[j]));
    }
    assert forall|i: int| 0 <= i < 16 implies kb_stands(
        #[trigger] kb_internal_words(x)[i],
        internal_values(v)[i],
    ) by {
        let (s, t) = (kb_unreduced(x, i), kb_unreduced(v, i));
        assert(kb_stands(x[0], v[0]) && kb_stands(x[i], v[i]));
        assert(v[0] < p);
        assert(scales_to(s, t)) by {
            if i == 0 {
                lemma_neg_scales(x[0], v[0]);
                lemma_scales_add(
                    tail_sum(x, 16),
                    tail_sum(v, 16),
                    kb_neg_word(x[0]),
                    kb_neg_word(v[0]),
                );
            } else {
                let k = pow2(SHIFTS@[i - 1] as nat);
                lemma_scales_add(tail_sum(x, 16), tail_sum(v, 16), x[0], v[0]);
                lemma_scales_shift(x[i], v[i], k);
                lemma_scales_add(tail_sum(x, 16) + x[0], tail_sum(v, 16) + v[0], x[i] * k, v[i] * k);
            }
        }
        lemma_unreduced_bound(x, i);
        montgomery::law_redc(s, p, KOALABEAR_MU as nat);
        montgomery::law_redc_canon(s, p, KOALABEAR_MU as nat);
        // The reduction's word is s * r, which stands for (s * r) * r = t * r.
        let r = montgomery::r_inverse(p) as int;
        lemma_mul_is_associative(s as int, r, r);
        lemma_mul_mod_noop_left(s * r, r, p as int);
        lemma_mul_mod_noop_left(t as int, r, p as int);
        lemma_mod_twice(t * r, p as int);
    }
}

/// The words of constants, as numbers.
pub open spec fn constants(rc: Seq<u32>) -> Seq<nat> {
    rc.map_values(|w: u32| w as nat)
}

proof fn lemma_full_sboxes_stand(
    x: Seq<nat>,
    v: Seq<nat>,
    rc: Seq<u32>,
    rcv: Seq<nat>,
    round: int,
)
    requires
        x.len() == 16,
        kb_all_stand(x, v),
        rc.len() == 128,
        kb_all_stand(constants(rc), rcv),
        0 <= round < 8,
    ensures
        kb_all_stand(kb_full_sboxes_words(x, rc, round), full_sboxes_values(v, rcv, round)),
{
    reveal(kb_full_sboxes_words);
    reveal(full_sboxes_values);
    assert forall|i: int| 0 <= i < 16 implies kb_stands(
        #[trigger] kb_full_sboxes_words(x, rc, round)[i],
        full_sboxes_values(v, rcv, round)[i],
    ) by {
        assert(kb_stands(x[i], v[i]));
        assert(kb_stands(constants(rc)[16 * round + i], rcv[16 * round + i]));
        lemma_constant_sbox_stands(x[i], v[i], rc[16 * round + i], rcv[16 * round + i]);
    }
}

proof fn lemma_rounds_stand(
    x: Seq<nat>,
    v: Seq<nat>,
    external: Seq<u32>,
    ev: Seq<nat>,
    internal: Seq<u32>,
    iv: Seq<nat>,
    k: nat,
)
    requires
        x.len() == 16,
        kb_all_stand(x, v),
        external.len() == 128,
        kb_all_stand(constants(external), ev),
        internal.len() == 20,
        kb_all_stand(constants(internal), iv),
        k <= 28,
    ensures
        kb_rounds_words(x, external, internal, k).len() == 16,
        kb_all_stand(kb_rounds_words(x, external, internal, k), rounds_values(v, ev, iv, k)),
        montgomery::all_reduced(rounds_values(v, ev, iv, k), KOALABEAR_P as nat),
    decreases k,
{
    reveal(kb_external_words);
    reveal(kb_internal_words);
    if k == 0 {
        lemma_external_stands(x, v);
    } else {
        lemma_rounds_stand(x, v, external, ev, internal, iv, (k - 1) as nat);
        let w = kb_rounds_words(x, external, internal, (k - 1) as nat);
        let u = rounds_values(v, ev, iv, (k - 1) as nat);
        if 4 <= k - 1 < 24 {
            let j = k - 5;
            assert(kb_stands(w[0], u[0]));
            assert(kb_stands(constants(internal)[j], iv[j]));
            lemma_constant_sbox_stands(w[0], u[0], internal[j], iv[j]);
            let w1 = w.update(0, kb_sbox_word(kb_add_word(w[0], internal[j] as nat)));
            let u1 = u.update(0, sbox_value(u[0], iv[j]));
            assert forall|i: int| 0 <= i < 16 implies kb_stands(#[trigger] w1[i], u1[i]) by {
                assert(kb_stands(w[i], u[i]));
            }
            lemma_internal_stands(w1, u1);
        } else {
            let round = if k - 1 < 4 {
                k - 1
            } else {
                k - 21
            };
            lemma_full_sboxes_stand(w, u, external, ev, round);
            assert(kb_full_sboxes_words(w, external, round).len() == 16) by {
                reveal(kb_full_sboxes_words);
            }
            lemma_external_stands(
                kb_full_sboxes_words(w, external, round),
                full_sboxes_values(u, ev, round),
            );
        }
    }
}

/// On reduced words the circuit's permutation is the Poseidon2 permutation of
/// the field elements that the words stand for, and its words are reduced.
pub proof fn law_permutation(x: Seq<nat>, external: Seq<u32>, internal: Seq<u32>)
    requires
        x.len() == 16,
        external.len() == 128,
        internal.len() == 20,
        montgomery::all_reduced(x, KOALABEAR_P as nat),
        montgomery::all_reduced(constants(external), KOALABEAR_P as nat),
        montgomery::all_reduced(constants(internal), KOALABEAR_P as nat),
    ensures
        kb_permutation_words(x, external, internal).len() == 16,
        montgomery::all_reduced(kb_permutation_words(x, external, internal), KOALABEAR_P as nat),
        montgomery::canon_all(kb_permutation_words(x, external, internal), KOALABEAR_P as nat)
            == permutation_values(
            montgomery::canon_all(x, KOALABEAR_P as nat),
            montgomery::canon_all(constants(external), KOALABEAR_P as nat),
            montgomery::canon_all(constants(internal), KOALABEAR_P as nat),
        ),
{
    let p = KOALABEAR_P as nat;
    montgomery::lemma_canon_all_stands(x, p);
    montgomery::lemma_canon_all_stands(constants(external), p);
    montgomery::lemma_canon_all_stands(constants(internal), p);
    let v = montgomery::canon_all(x, p);
    let ev = montgomery::canon_all(constants(external), p);
    let iv = montgomery::canon_all(constants(internal), p);
    lemma_rounds_stand(x, v, external, ev, internal, iv, 28);
    montgomery::lemma_stands_canon_all(
        kb_permutation_words(x, external, internal),
        permutation_values(v, ev, iv),
        p,
    );
}

/// The external layer adds to every group of four the sum of all groups, and
/// multiplies it by the 4x4 matrix.
pub proof fn law_external_layer(x: Seq<nat>, i: int)
    requires
        x.len() == 16,
        0 <= i < 16,
    ensures
        external_values(x).len() == 16,
        ({
            let b = 4 * (i / 4);
            let v = external_values(x)[i];
            let c0 = x[0] + x[4] + x[8] + x[12];
            let c1 = x[1] + x[5] + x[9] + x[13];
            let c2 = x[2] + x[6] + x[10] + x[14];
            let c3 = x[3] + x[7] + x[11] + x[15];
            &&& i % 4 == 0 ==> v == (2 * (c0 + x[b]) + 3 * (c1 + x[b + 1]) + (c2 + x[b + 2])
                + (c3 + x[b + 3])) % 0x7f00_0001
            &&& i % 4 == 1 ==> v == ((c0 + x[b]) + 2 * (c1 + x[b + 1]) + 3 * (c2 + x[b + 2])
                + (c3 + x[b + 3])) % 0x7f00_0001
            &&& i % 4 == 2 ==> v == ((c0 + x[b]) + (c1 + x[b + 1]) + 2 * (c2 + x[b + 2])
                + 3 * (c3 + x[b + 3])) % 0x7f00_0001
            &&& i % 4 == 3 ==> v == (3 * (c0 + x[b]) + (c1 + x[b + 1]) + (c2 + x[b + 2])
                + 2 * (c3 + x[b + 3])) % 0x7f00_0001
        }),
{
    reveal(external_values);
    let (j, b) = (i % 4, 4 * (i / 4));
    let c0 = x[0] + x[4] + x[8] + x[12];
    let c1 = x[1] + x[5] + x[9] + x[13];
    let c2 = x[2] + x[6] + x[10] + x[14];
    let c3 = x[3] + x[7] + x[11] + x[15];
    lemma_group_entry(x, j, i / 4);
    lemma_column_entry(x, j);
    lemma_rows_add(j, c0, c1, c2, c3, x[b], x[b + 1], x[b + 2], x[b + 3]);
}

/// The 4x4 matrix sends a sum of two groups to the sum of what it sends them to.
proof fn lemma_rows_add(
    j: int,
    a0: nat,
    a1: nat,
    a2: nat,
    a3: nat,
    b0: nat,
    b1: nat,
    b2: nat,
    b3: nat,
)
    ensures
        matrix_row(j, a0, a1, a2, a3) + matrix_row(j, b0, b1, b2, b3) == matrix_row(
            j,
            a0 + b0,
            a1 + b1,
            a2 + b2,
            a3 + b3,
        ),
{
}

/// Element `j` of group `k`, multiplied by the 4x4 matrix.
proof fn lemma_group_entry(x: Seq<nat>, j: int, k: int)
    requires
        0 <= j < 4,
        0 <= k < 4,
    ensures
        groups_values(x)[4 * k + j] == matrix_row(
            j,
            x[4 * k],
            x[4 * k + 1],
            x[4 * k + 2],
            x[4 * k + 3],
        ),
{
    reveal(groups_values);
    assert((4 * k + j) / 4 == k && (4 * k + j) % 4 == j);
}

/// The sums of the groups, multiplied by the 4x4 matrix.
proof fn lemma_column_entry(x: Seq<nat>, j: int)
    requires
        0 <= j < 4,
    ensures
        column_value(groups_values(x), j, 4) == matrix_row(
            j,
            x[0] + x[4] + x[8] + x[12],
            x[1] + x[5] + x[9] + x[13],
            x[2] + x[6] + x[10] + x[14],
            x[3] + x[7] + x[11] + x[15],
        ),
{
    let y = groups_values(x);
    lemma_group_entry(x, j, 0);
    assert(column_value(y, j, 1) == y[j]);
    lemma_group_entry(x, j, 1);
    lemma_rows_add(
        j,
        x[0],
        x[1],
        x[2],
        x[3],
        x[4],
        x[5],
        x[6],
        x[7],
    );
    assert(column_value(y, j, 2) == column_value(y, j, 1) + y[4 + j]);
    lemma_group_entry(x, j, 2);
    lemma_rows_add(
        j,
        x[0] + x[4],
        x[1] + x[5],
        x[2] + x[6],
        x[3] + x[7],
        x[8],
        x[9],
        x[10],
        x[11],
    );
    assert(column_value(y, j, 3) == column_value(y, j, 2) + y[8 + j]);
    lemma_group_entry(x, j, 3);
    lemma_rows_add(
        j,
        x[0] + x[4] + x[8],
        x[1] + x[5] + x[9],
        x[2] + x[6] + x[10],
        x[3] + x[7] + x[11],
        x[12],
        x[13],
        x[14],
        x[15],
    );
    assert(column_value(y, j, 4) == column_value(y, j, 3) + y[12 + j]);
}

/// The S-box multiplies an element and its round constant's sum with itself,
/// three factors in all.
pub proof fn law_sbox(x: Seq<nat>, rc: Seq<nat>, round: int, i: int)
    requires
        0 <= i < 16,
    ensures
        ({
            let y = x[i] + rc[16 * round + i];
            &&& full_sboxes_values(x, rc, round).len() == 16
            &&& full_sboxes_values(x, rc, round)[i] == (y * y * y) % 0x7f00_0001
            &&& sbox_value(x[i], rc[16 * round + i]) == (y * y * y) % 0x7f00_0001
        }),
{
    reveal(full_sboxes_values);
    let y = (x[i] + rc[16 * round + i]) as int;
    reveal_with_fuel(pow, 4);
    assert(pow(y, 3) == y * y * y) by (nonlinear_arith)
        requires
            pow(y, 3) == y * (y * (y * (1))),
    ;
}

/// The internal layer, times `2^32`: the first element is the sum of the
/// others less itself, and each other one the sum of all with itself shifted,
/// by one place more each and by two for the last.
pub proof fn law_internal_layer(x: Seq<nat>, i: int)
    requires
        x.len() == 16,
        0 <= i < 16,
        x[0] < 0x7f00_0001,
    ensures
        internal_values(x).len() == 16,
        internal_values(x)[i] < 0x7f00_0001,
        ({
            let tail = (x[1] + x[2] + x[3] + x[4] + x[5] + x[6] + x[7] + x[8] + x[9] + x[10]
                + x[11] + x[12] + x[13] + x[14] + x[15]) as int;
            let shifted = x[i] * pow2(
                (if i == 15 {
                    15
                } else {
                    i - 1
                }) as nat,
            );
            let v = if i == 0 {
                tail - x[0]
            } else {
                tail + x[0] + shifted
            };
            (internal_values(x)[i] * 0x1_0000_0000) % 0x7f00_0001 == v % 0x7f00_0001
        }),
{
    reveal(internal_values);
    lemma_tail(x);
    let p = KOALABEAR_P as int;
    let r = montgomery::r_inverse(KOALABEAR_P as nat) as int;
    let u = kb_unreduced(x, i) as int;
    montgomery::law_parameters();
    lemma_mul_mod_noop_left(u * r, 0x1_0000_0000, p);
    lemma_mul_is_associative(u, r, 0x1_0000_0000);
    lemma_mul_is_commutative(r, 0x1_0000_0000);
    lemma_mul_mod_noop_right(u, 0x1_0000_0000 * r, p);
    assert(u * 1 == u);
    if i == 0 {
        lemma_mod_add_multiples_vanish(u - p, p);
    } else {
        assert(SHIFTS@[i - 1] == (if i == 15 {
            15
        } else {
            i - 1
        }));
    }
}

/// The permutation begins with an external layer, and has four external
/// rounds, twenty internal ones and four external ones again: external rounds
/// treat all elements, internal ones the first alone.
pub proof fn law_rounds(x: Seq<nat>, external: Seq<nat>, internal: Seq<nat>, k: nat)
    requires
        k < 28,
    ensures
        rounds_values(x, external, internal, 0) == external_values(x),
        k < 4 ==> rounds_values(x, external, internal, k + 1) == external_values(
            full_sboxes_values(rounds_values(x, external, internal, k), external, k as int),
        ),
        24 <= k ==> rounds_values(x, external, internal, k + 1) == external_values(
            full_sboxes_values(rounds_values(x, external, internal, k), external, k - 20),
        ),
        4 <= k < 24 ==> rounds_values(x, external, internal, k + 1) == ({
            let before = rounds_values(x, external, internal, k);
            internal_values(before.update(0, sbox_value(before[0], internal[k - 4])))
        }),
        permutation_values(x, external, internal) == rounds_values(
            x,
            external,
            internal,
            (4 + 20 + 4) as nat,
        ),
        KW == 16,
        ROUNDS_HALF_EXTERNAL == 4,
        ROUNDS_INTERNAL == 20,
{
}

/// The words of sums and products are those of the field's gadgets, and that
/// of the S-box is a square times the word, whatever the size of the words.
pub proof fn law_word_operations(a: nat, b: nat)
    ensures
        kb_add_word(a, b) == field::mod_add_word(a, b, 0x7f00_0001),
        kb_mul_word(a, b) == field::redc_word(a * b, 0x7f00_0001, 0x8100_0001),
        kb_sbox_word(a) == kb_mul_word(kb_mul_word(a, a), a),
        a <= 0x7f00_0001 ==> kb_neg_word(a) + a == 0x7f00_0001,
        0x7f00_0001 < a < 0x1_0000_0000 ==> kb_neg_word(a) + a == 0x1_7f00_0001,
{
}

/// The matrix is applied to words by sums alone.
pub proof fn law_word_matrix(x0: nat, x1: nat, x2: nat, x3: nat)
    ensures
        ({
            let r = kb_mat4_words(x0, x1, x2, x3);
            let (low, high) = (kb_add_word(x0, x1), kb_add_word(x2, x3));
            let all = kb_add_word(low, high);
            &&& r.len() == 4
            &&& r[0] == kb_add_word(kb_add_word(all, x1), low)
            &&& r[1] == kb_add_word(kb_add_word(all, x1), kb_add_word(x2, x2))
            &&& r[2] == kb_add_word(kb_add_word(all, x3), high)
            &&& r[3] == kb_add_word(kb_add_word(all, x3), kb_add_word(x0, x0))
        }),
{
}

/// The layers on words of any size: groups of four by the matrix, each cell
/// with the sum of its column; one reduction for each cell of the internal
/// layer; and S-boxes behind round constants.
pub proof fn law_word_layers(x: Seq<nat>, rc: Seq<u32>, round: int, i: int)
    requires
        0 <= i < 16,
    ensures
        ({
            let (g, j) = (4 * (i / 4), i % 4);
            let y = kb_groups_words(x);
            &&& y.len() == 16
            &&& y[i] == kb_mat4_words(x[g], x[g + 1], x[g + 2], x[g + 3])[j]
            &&& kb_external_words(x).len() == 16
            &&& kb_external_words(x)[i] == kb_add_word(
                y[i],
                kb_add_word(kb_add_word(kb_add_word(y[j], y[j + 4]), y[j + 8]), y[j + 12]),
            )
        }),
        kb_internal_words(x).len() == 16,
        ({
            let tail = x[1] + x[2] + x[3] + x[4] + x[5] + x[6] + x[7] + x[8] + x[9] + x[10]
                + x[11] + x[12] + x[13] + x[14] + x[15];
            let shifted = x[i] * pow2(
                (if i == 15 {
                    15
                } else {
                    i - 1
                }) as nat,
            );
            &&& i == 0 ==> kb_internal_words(x)[i] == field::redc_word(
                tail + kb_neg_word(x[0]),
                0x7f00_0001,
                0x8100_0001,
            )
            &&& i > 0 ==> kb_internal_words(x)[i] == field::redc_word(
                tail + x[0] + shifted,
                0x7f00_0001,
                0x8100_0001,
            )
        }),
        kb_full_sboxes_words(x, rc, round).len() == 16,
        kb_full_sboxes_words(x, rc, round)[i] == kb_sbox_word(
            kb_add_word(x[i], rc[16 * round + i] as nat),
        ),
{
    lemma_external_entry(x, i);
    lemma_internal_entry(x, i);
    reveal(kb_full_sboxes_words);
}

/// A cell after the external layer.
proof fn lemma_external_entry(x: Seq<nat>, i: int)
    requires
        0 <= i < 16,
    ensures
        ({
            let (g, j) = (4 * (i / 4), i % 4);
            let y = kb_groups_words(x);
            &&& y.len() == 16
            &&& y[i] == kb_mat4_words(x[g], x[g + 1], x[g + 2], x[g + 3])[j]
            &&& kb_external_words(x).len() == 16
            &&& kb_external_words(x)[i] == kb_add_word(
                y[i],
                kb_add_word(kb_add_word(kb_add_word(y[j], y[j + 4]), y[j + 8]), y[j + 12]),
            )
        }),
{
    let y = kb_groups_words(x);
    let j = i % 4;
    let sum = kb_add_word(kb_add_word(kb_add_word(y[j], y[j + 4]), y[j + 8]), y[j + 12]);
    assert(kb_column_sum(y, j, 4) == sum) by {
        reveal_with_fuel(kb_column_sum, 5);
    }
    reveal(kb_groups_words);
    reveal(kb_external_words);
}

/// A cell after the internal layer.
proof fn lemma_internal_entry(x: Seq<nat>, i: int)
    requires
        0 <= i < 16,
    ensures
        kb_internal_words(x).len() == 16,
        ({
            let tail = x[1] + x[2] + x[3] + x[4] + x[5] + x[6] + x[7] + x[8] + x[9] + x[10]
                + x[11] + x[12] + x[13] + x[14] + x[15];
            let shifted = x[i] * pow2(
                (if i == 15 {
                    15
                } else {
                    i - 1
                }) as nat,
            );
            &&& i == 0 ==> kb_internal_words(x)[i] == field::redc_word(
                tail + kb_neg_word(x[0]),
                0x7f00_0001,
                0x8100_0001,
            )
            &&& i > 0 ==> kb_internal_words(x)[i] == field::redc_word(
                tail + x[0] + shifted,
                0x7f00_0001,
                0x8100_0001,
            )
        }),
{
    lemma_tail(x);
    reveal(kb_internal_words);
    if i > 0 {
        assert(SHIFTS@[i - 1] == (if i == 15 {
            15
        } else {
            i - 1
        }));
    }
}

/// The sum of all words but the first.
proof fn lemma_tail(x: Seq<nat>)
    ensures
        tail_sum(x, 16) == x[1] + x[2] + x[3] + x[4] + x[5] + x[6] + x[7] + x[8] + x[9] + x[10]
            + x[11] + x[12] + x[13] + x[14] + x[15],
{
    reveal_with_fuel(tail_sum, 17);
}

/// The rounds on words of any size follow one another as those on elements do.
pub proof fn law_word_rounds(x: Seq<nat>, external: Seq<u32>, internal: Seq<u32>, k: nat)
    requires
        k < 28,
    ensures
        kb_rounds_words(x, external, internal, 0) == kb_external_words(x),
        k < 4 ==> kb_rounds_words(x, external, internal, k + 1) == kb_external_words(
            kb_full_sboxes_words(kb_rounds_words(x, external, internal, k), external, k as int),
        ),
        24 <= k ==> kb_rounds_words(x, external, internal, k + 1) == kb_external_words(
            kb_full_sboxes_words(kb_rounds_words(x, external, internal, k), external, k - 20),
        ),
        4 <= k < 24 ==> kb_rounds_words(x, external, internal, k + 1) == ({
            let before = kb_rounds_words(x, external, internal, k);
            kb_internal_words(
                before.update(
                    0,
                    kb_sbox_word(kb_add_word(before[0], internal[k - 4] as nat)),
                ),
            )
        }),
        kb_permutation_words(x, external, internal) == kb_rounds_words(x, external, internal, 28),
{
}

/// How often a shape occurs in the first layer, and how often in each round.
proof fn lemma_round_count(k: nat, s: Shape)
    requires
        k < 28,
    ensures
        ({
            let a = circuit::count_of(field::mod_add_shapes(), s) as int;
            let m = circuit::count_of(field::monty_mul_shapes(KOALABEAR_P, KOALABEAR_MU), s) as int;
            let r = circuit::count_of(field::redc_shapes(KOALABEAR_P, KOALABEAR_MU), s) as int;
            let w = circuit::count_of(seq![Shape::Add(64)], s) as int;
            let n = circuit::count_of(seq![Shape::Sub(32)], s) as int;
            &&& circuit::count_of(kb_rounds_shapes(0), s) == 72 * a
            &&& circuit::count_of(kb_rounds_shapes(k + 1), s) == circuit::count_of(
                kb_rounds_shapes(k),
                s,
            ) + if 4 <= k < 24 {
                a + 2 * m + 31 * w + n + 16 * r
            } else {
                88 * a + 32 * m
            }
        }),
{
    let (add1, mul1) = (
        field::mod_add_shapes(),
        field::monty_mul_shapes(KOALABEAR_P, KOALABEAR_MU),
    );
    let (red1, wide, neg) = (
        field::redc_shapes(KOALABEAR_P, KOALABEAR_MU),
        seq![Shape::Add(64)],
        seq![Shape::Sub(32)],
    );
    let a = circuit::count_of(add1, s) as int;
    let m = circuit::count_of(mul1, s) as int;
    let r = circuit::count_of(red1, s) as int;
    let w = circuit::count_of(wide, s) as int;
    let n = circuit::count_of(neg, s) as int;
    assert(circuit::count_of(kb_external_layer_shapes(), s) == 72 * a) by {
        reveal(kb_mat4_shapes);
        reveal(kb_groups_shapes);
        reveal(kb_column_shapes);
        reveal(kb_columns_shapes);
        reveal(kb_external_layer_shapes);
        circuit::lemma_count_repeated(add1, 11, s);
        circuit::lemma_count_repeated(kb_mat4_shapes(), 4, s);
        circuit::lemma_count_repeated(add1, 3, s);
        circuit::lemma_count_repeated(kb_column_shapes(), 4, s);
        circuit::lemma_count_repeated(add1, 16, s);
        circuit::lemma_count_joined(kb_groups_shapes(), kb_columns_shapes(), s);
        circuit::lemma_count_joined(
            kb_groups_shapes() + kb_columns_shapes(),
            circuit::repeated(add1, 16),
            s,
        );
    }
    assert(circuit::count_of(kb_constant_sbox_shapes(), s) == a + 2 * m) by {
        reveal(kb_sbox_shapes);
        reveal(kb_constant_sbox_shapes);
        circuit::lemma_count_repeated(mul1, 2, s);
        circuit::lemma_count_joined(add1, kb_sbox_shapes(), s);
    }
    assert(circuit::count_of(kb_full_round_shapes(), s) == 88 * a + 32 * m) by {
        reveal(kb_full_round_shapes);
        circuit::lemma_count_repeated(kb_constant_sbox_shapes(), 16, s);
        circuit::lemma_count_joined(
            circuit::repeated(kb_constant_sbox_shapes(), 16),
            kb_external_layer_shapes(),
            s,
        );
    }
    assert(circuit::count_of(kb_partial_round_shapes(), s) == a + 2 * m + 31 * w + n + 16 * r) by {
        reveal(kb_cell_shapes);
        reveal(kb_internal_layer_shapes);
        reveal(kb_partial_round_shapes);
        circuit::lemma_count_joined(wide, red1, s);
        circuit::lemma_count_repeated(kb_cell_shapes(), 16, s);
        circuit::lemma_count_repeated(wide, 14, s);
        let first = circuit::repeated(wide, 14);
        circuit::lemma_count_joined(first, wide, s);
        circuit::lemma_count_joined(first + wide, neg, s);
        circuit::lemma_count_joined(
            first + wide + neg,
            circuit::repeated(kb_cell_shapes(), 16),
            s,
        );
        circuit::lemma_count_joined(kb_constant_sbox_shapes(), kb_internal_layer_shapes(), s);
    }
    let before = kb_rounds_shapes(k);
    circuit::lemma_count_joined(before, kb_full_round_shapes(), s);
    circuit::lemma_count_joined(before, kb_partial_round_shapes(), s);
}

/// The permutation is made of 796 sums and 296 products of two words, beside
/// the wide sums, the negations and the reductions of its 20 internal rounds:
/// 31, one and 16 for each.
pub proof fn law_permutation_operations(s: Shape)
    ensures
        circuit::count_of(kb_rounds_shapes(28), s) == 796 * circuit::count_of(
            field::mod_add_shapes(),
            s,
        ) + 296 * circuit::count_of(field::monty_mul_shapes(KOALABEAR_P, KOALABEAR_MU), s) + 20 * (31
            * circuit::count_of(seq![Shape::Add(64)], s) + circuit::count_of(
            seq![Shape::Sub(32)],
            s,
        ) + 16 * circuit::count_of(field::redc_shapes(KOALABEAR_P, KOALABEAR_MU), s)),
{
    lemma_round_count(0, s);
    lemma_round_count(1, s);
    lemma_round_count(2, s);
    lemma_round_count(3, s);
    lemma_round_count(4, s);
    lemma_round_count(5, s);
    lemma_round_count(6, s);
    lemma_round_count(7, s);
    lemma_round_count(8, s);
    lemma_round_count(9, s);
    lemma_round_count(10, s);
    lemma_round_count(11, s);
    lemma_round_count(12, s);
    lemma_round_count(13, s);
    lemma_round_count(14, s);
    lemma_round_count(15, s);
    lemma_round_count(16, s);
    lemma_round_count(17, s);
    lemma_round_count(18, s);
    lemma_round_count(19, s);
    lemma_round_count(20, s);
    lemma_round_count(21, s);
    lemma_round_count(22, s);
    lemma_round_count(23, s);
    lemma_round_count(24, s);
    lemma_round_count(25, s);
    lemma_round_count(26, s);
    lemma_round_count(27, s);
}

} // verus!
