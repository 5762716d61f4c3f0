//! Boolean circuits as recorded sequences of word operations.
//!
//! A gadget appends operations to a [`Circuit`] and hands back the wires that
//! carry its result. The circuit is built once, without looking at any input:
//! what a wire carries is a function of the input bits, given by
//! [`Circuit::wire`] and, for a little-endian word of wires, by
//! [`Circuit::word`]. What its gates cost depends on the operations' shapes,
//! which every gadget states with [`Circuit::adds`].

use vstd::arithmetic::div_mod::*;
use vstd::arithmetic::mul::*;
use vstd::arithmetic::power2::*;
use vstd::prelude::*;

use crate::bits;

verus! {

/// The widest operand an operation takes.
pub const MAX_OPERAND_BITS: usize = 64;

/// A wire: a constant, an input bit, or output bit `.1` of operation `.0`.
#[derive(Clone, Copy, Debug, PartialEq, Eq, Structural)]
pub enum WireId {
    False,
    True,
    Input(usize),
    Output(usize, usize),
}

/// The wire that carries zero.
pub const FALSE_WIRE: WireId = WireId::False;

/// The wire that carries one.
pub const TRUE_WIRE: WireId = WireId::True;

/// A little-endian word of wires.
#[derive(Debug)]
pub struct BigIntWires {
    pub bits: Vec<WireId>,
}

/// One recorded operation. Operands named `a` and `b` have the same width `n`.
#[derive(Debug)]
pub enum Op {
    /// Exclusive or of two bits.
    Xor { x: WireId, y: WireId },
    /// Sum and carry of three bits.
    FullAdder { x: WireId, y: WireId, carry: WireId },
    /// `a + b` in `n + 1` bits.
    Add { a: BigIntWires, b: BigIntWires },
    /// `a + b` in `n` bits.
    AddWithoutCarry { a: BigIntWires, b: BigIntWires },
    /// `a - b` in `n + 1` bits; the top bit is the borrow.
    Sub { a: BigIntWires, b: BigIntWires },
    /// `a * b` in `2n` bits.
    MulKaratsuba { a: BigIntWires, b: BigIntWires },
    /// `a * c` in `2n` bits.
    MulByConstant { a: BigIntWires, c: u32 },
    /// `a * c` in `power` bits.
    MulByConstantModuloPowerTwo { a: BigIntWires, c: u32, power: usize },
    /// `a` where `s` is set, zero elsewhere.
    SelfOrZero { a: BigIntWires, s: WireId },
}

/// What the gates of an operation depend on: its kind, the width of its
/// operands, and the constant that it multiplies by.
pub enum Shape {
    Xor,
    FullAdder,
    Add(nat),
    AddWithoutCarry(nat),
    Sub(nat),
    MulKaratsuba(nat),
    MulByConstant(nat, u32),
    /// Width, constant and power.
    MulByConstantModuloPowerTwo(nat, u32, nat),
    SelfOrZero(nat),
}

/// A circuit over `n_inputs` input bits.
#[derive(Debug)]
pub struct Circuit {
    pub n_inputs: usize,
    pub ops: Vec<Op>,
}

/// What a wire carries, given the outputs of the operations before it.
pub open spec fn wire_value(outs: Seq<Seq<bool>>, env: Seq<bool>, w: WireId) -> bool {
    match w {
        WireId::False => false,
        WireId::True => true,
        WireId::Input(i) => env[i as int],
        WireId::Output(k, j) => outs[k as int][j as int],
    }
}

/// What a row of wires carries.
pub open spec fn wires_value(outs: Seq<Seq<bool>>, env: Seq<bool>, ws: Seq<WireId>) -> Seq<bool> {
    Seq::new(ws.len(), |i: int| wire_value(outs, env, ws[i]))
}

/// The number a word carries.
pub open spec fn word_value(outs: Seq<Seq<bool>>, env: Seq<bool>, x: BigIntWires) -> nat {
    bits::bits_value(wires_value(outs, env, x.bits@))
}

/// Whether `w` names a constant, an input, or an output of the first `k` operations.
pub open spec fn wire_known(n_inputs: nat, ops: Seq<Op>, k: int, w: WireId) -> bool {
    match w {
        WireId::False => true,
        WireId::True => true,
        WireId::Input(i) => i < n_inputs,
        WireId::Output(o, j) => o < k && j < ops[o as int].width(),
    }
}

/// Whether every wire of a word is known, and the word is no wider than an operand may be.
pub open spec fn operand_known(n_inputs: nat, ops: Seq<Op>, k: int, x: BigIntWires) -> bool {
    &&& x.bits@.len() <= MAX_OPERAND_BITS
    &&& forall|i: int|
        0 <= i < x.bits@.len() ==> wire_known(n_inputs, ops, k, #[trigger] x.bits@[i])
}

impl Op {
    /// How many wires the operation drives.
    pub open spec fn width(self) -> nat {
        match self {
            Op::Xor { .. } => 1,
            Op::FullAdder { .. } => 2,
            Op::Add { a, .. } => a.bits@.len() + 1,
            Op::AddWithoutCarry { a, .. } => a.bits@.len(),
            Op::Sub { a, .. } => a.bits@.len() + 1,
            Op::MulKaratsuba { a, .. } => 2 * a.bits@.len(),
            Op::MulByConstant { a, .. } => 2 * a.bits@.len(),
            Op::MulByConstantModuloPowerTwo { power, .. } => power as nat,
            Op::SelfOrZero { a, .. } => a.bits@.len(),
        }
    }

    /// The number the operation computes, before it is cut to its width.
    pub open spec fn number(self, outs: Seq<Seq<bool>>, env: Seq<bool>) -> nat {
        match self {
            Op::Xor { x, y } => bits::bit_value(wire_value(outs, env, x) != wire_value(outs, env, y)),
            Op::FullAdder { x, y, carry } => bits::bit_value(wire_value(outs, env, x)) + bits::bit_value(
                wire_value(outs, env, y),
            ) + bits::bit_value(wire_value(outs, env, carry)),
            Op::Add { a, b } => word_value(outs, env, a) + word_value(outs, env, b),
            Op::AddWithoutCarry { a, b } => word_value(outs, env, a) + word_value(outs, env, b),
            Op::Sub { a, b } => (pow2(a.bits@.len() + 1) + word_value(outs, env, a) - word_value(
                outs,
                env,
                b,
            )) as nat,
            Op::MulKaratsuba { a, b } => word_value(outs, env, a) * word_value(outs, env, b),
            Op::MulByConstant { a, c } => word_value(outs, env, a) * (c as nat),
            Op::MulByConstantModuloPowerTwo { a, c, .. } => word_value(outs, env, a) * (c as nat),
            Op::SelfOrZero { a, s } => if wire_value(outs, env, s) {
                word_value(outs, env, a)
            } else {
                0
            },
        }
    }

    /// The bits the operation drives onto its wires.
    pub open spec fn outputs(self, outs: Seq<Seq<bool>>, env: Seq<bool>) -> Seq<bool> {
        bits::low_bits(self.number(outs, env), self.width())
    }

    /// Whether the operation's operands are known to the first `k` operations and fit together.
    pub open spec fn known(self, n_inputs: nat, ops: Seq<Op>, k: int) -> bool {
        match self {
            Op::Xor { x, y } => wire_known(n_inputs, ops, k, x) && wire_known(n_inputs, ops, k, y),
            Op::FullAdder { x, y, carry } => {
                &&& wire_known(n_inputs, ops, k, x)
                &&& wire_known(n_inputs, ops, k, y)
                &&& wire_known(n_inputs, ops, k, carry)
            },
            Op::Add { a, b }
            | Op::AddWithoutCarry { a, b }
            | Op::Sub { a, b }
            | Op::MulKaratsuba { a, b } => {
                &&& operand_known(n_inputs, ops, k, a)
                &&& operand_known(n_inputs, ops, k, b)
                &&& a.bits@.len() == b.bits@.len()
            },
            Op::MulByConstant { a, c } => operand_known(n_inputs, ops, k, a) && c < pow2(
                a.bits@.len(),
            ),
            Op::MulByConstantModuloPowerTwo { a, c, power } => operand_known(n_inputs, ops, k, a)
                && power <= MAX_OPERAND_BITS,
            Op::SelfOrZero { a, s } => operand_known(n_inputs, ops, k, a) && wire_known(
                n_inputs,
                ops,
                k,
                s,
            ),
        }
    }

    /// The shape of the operation.
    pub open spec fn shape(self) -> Shape {
        match self {
            Op::Xor { .. } => Shape::Xor,
            Op::FullAdder { .. } => Shape::FullAdder,
            Op::Add { a, .. } => Shape::Add(a.bits@.len()),
            Op::AddWithoutCarry { a, .. } => Shape::AddWithoutCarry(a.bits@.len()),
            Op::Sub { a, .. } => Shape::Sub(a.bits@.len()),
            Op::MulKaratsuba { a, .. } => Shape::MulKaratsuba(a.bits@.len()),
            Op::MulByConstant { a, c } => Shape::MulByConstant(a.bits@.len(), c),
            Op::MulByConstantModuloPowerTwo { a, c, power } => Shape::MulByConstantModuloPowerTwo(
                a.bits@.len(),
                c,
                power as nat,
            ),
            Op::SelfOrZero { a, .. } => Shape::SelfOrZero(a.bits@.len()),
        }
    }

    /// Whether the operation multiplies two words.
    pub open spec fn is_product(self) -> bool {
        self is MulKaratsuba
    }
}

/// The outputs of a sequence of operations on the input bits `env`.
pub open spec fn outputs_of(ops: Seq<Op>, env: Seq<bool>) -> Seq<Seq<bool>>
    decreases ops.len(),
{
    if ops.len() == 0 {
        Seq::empty()
    } else {
        let before = outputs_of(ops.drop_last(), env);
        before.push(ops.last().outputs(before, env))
    }
}

/// The shapes of operations, in order.
#[verifier::opaque]
pub open spec fn shapes_of(ops: Seq<Op>) -> Seq<Shape> {
    ops.map_values(|op: Op| op.shape())
}

/// A sequence of shapes, `n` times over.
pub open spec fn repeated(shapes: Seq<Shape>, n: nat) -> Seq<Shape>
    decreases n,
{
    if n == 0 {
        Seq::empty()
    } else {
        repeated(shapes, (n - 1) as nat) + shapes
    }
}

/// How many of the shapes are `s`.
pub open spec fn count_of(shapes: Seq<Shape>, s: Shape) -> nat
    decreases shapes.len(),
{
    if shapes.len() == 0 {
        0
    } else {
        count_of(shapes.drop_last(), s) + (if shapes.last() == s {
            1nat
        } else {
            0
        })
    }
}

/// Shapes are strung together in any grouping.
pub broadcast proof fn lemma_shapes_grouped(a: Seq<Shape>, b: Seq<Shape>, c: Seq<Shape>)
    ensures
        #[trigger] ((a + b) + c) == a + (b + c),
{
    assert((a + b) + c =~= a + (b + c));
}

/// Nothing is added at the end.
pub broadcast proof fn lemma_shapes_then_none(a: Seq<Shape>)
    ensures
        #[trigger] (a + Seq::<Shape>::empty()) == a,
{
    assert(a + Seq::<Shape>::empty() =~= a);
}

/// Nothing is added in front.
pub broadcast proof fn lemma_none_then_shapes(a: Seq<Shape>)
    ensures
        #[trigger] (Seq::<Shape>::empty() + a) == a,
{
    assert(Seq::<Shape>::empty() + a =~= a);
}

/// Counts add up over a string of shapes.
pub proof fn lemma_count_joined(a: Seq<Shape>, b: Seq<Shape>, s: Shape)
    ensures
        count_of(a + b, s) == count_of(a, s) + count_of(b, s),
    decreases b.len(),
{
    if b.len() == 0 {
        assert(a + b =~= a);
    } else {
        lemma_count_joined(a, b.drop_last(), s);
        assert((a + b).drop_last() =~= a + b.drop_last());
    }
}

/// Counts multiply over a repetition.
pub proof fn lemma_count_repeated(a: Seq<Shape>, n: nat, s: Shape)
    ensures
        count_of(repeated(a, n), s) == n * count_of(a, s),
    decreases n,
{
    let k = count_of(a, s);
    if n == 0 {
        lemma_mul_basics(k as int);
    } else {
        lemma_count_repeated(a, (n - 1) as nat, s);
        lemma_count_joined(repeated(a, (n - 1) as nat), a, s);
        assert(n * k == (n - 1) * k + k) by (nonlinear_arith);
    }
}

/// How many of the operations multiply two words.
pub open spec fn products_of(ops: Seq<Op>) -> nat
    decreases ops.len(),
{
    if ops.len() == 0 {
        0
    } else {
        products_of(ops.drop_last()) + (if ops.last().is_product() {
            1nat
        } else {
            0
        })
    }
}

proof fn lemma_outputs_len(ops: Seq<Op>, env: Seq<bool>)
    ensures
        outputs_of(ops, env).len() == ops.len(),
    decreases ops.len(),
{
    if ops.len() > 0 {
        lemma_outputs_len(ops.drop_last(), env);
    }
}

impl Circuit {
    /// What a wire carries when the inputs are `env`.
    pub open spec fn wire(self, env: Seq<bool>, w: WireId) -> bool {
        wire_value(outputs_of(self.ops@, env), env, w)
    }

    /// The number a word carries when the inputs are `env`.
    pub open spec fn word(self, env: Seq<bool>, x: BigIntWires) -> nat {
        word_value(outputs_of(self.ops@, env), env, x)
    }

    /// The number a row of wires carries when the inputs are `env`.
    pub open spec fn row(self, env: Seq<bool>, ws: Seq<WireId>) -> nat {
        bits::bits_value(wires_value(outputs_of(self.ops@, env), env, ws))
    }

    /// The numbers that a row of words carries when the inputs are `env`.
    pub open spec fn words(self, env: Seq<bool>, xs: Seq<BigIntWires>) -> Seq<nat> {
        Seq::new(xs.len(), |i: int| self.word(env, xs[i]))
    }

    /// Whether `w` is a wire of this circuit.
    pub open spec fn has(self, w: WireId) -> bool {
        wire_known(self.n_inputs as nat, self.ops@, self.ops@.len() as int, w)
    }

    /// Whether `x` is a word of wires of this circuit.
    pub open spec fn has_word(self, x: BigIntWires) -> bool {
        forall|i: int| 0 <= i < x.bits@.len() ==> self.has(#[trigger] x.bits@[i])
    }

    /// Whether `ws` is a row of wires of this circuit.
    pub open spec fn has_row(self, ws: Seq<WireId>) -> bool {
        forall|i: int| 0 <= i < ws.len() ==> self.has(#[trigger] ws[i])
    }

    /// Whether `x` is a word of `n` wires of this circuit.
    pub open spec fn is_word(self, x: BigIntWires, n: nat) -> bool {
        x.bits@.len() == n && self.has_word(x)
    }

    /// Whether `xs` is a row of words of `n` wires each.
    pub open spec fn is_row(self, xs: Seq<BigIntWires>, n: nat) -> bool {
        forall|i: int| 0 <= i < xs.len() ==> self.is_word(#[trigger] xs[i], n)
    }

    /// Every operation reads only what came before it.
    pub open spec fn wf(self) -> bool {
        forall|k: int|
            0 <= k < self.ops@.len() ==> (#[trigger] self.ops@[k]).known(
                self.n_inputs as nat,
                self.ops@,
                k,
            )
    }

    /// The circuit has grown from `old`: everything that was there still
    /// carries what it carried, on every input.
    pub open spec fn extends(self, old: Circuit) -> bool {
        &&& self.wf()
        &&& self.n_inputs == old.n_inputs
        &&& old.ops@.len() <= self.ops@.len()
        &&& forall|w: WireId| old.has(w) ==> #[trigger] self.has(w)
        &&& forall|env: Seq<bool>, w: WireId|
            old.has(w) ==> #[trigger] self.wire(env, w) == old.wire(env, w)
        &&& forall|ws: Seq<WireId>| old.has_row(ws) ==> #[trigger] self.has_row(ws)
        &&& forall|env: Seq<bool>, ws: Seq<WireId>|
            old.has_row(ws) ==> #[trigger] self.row(env, ws) == old.row(env, ws)
        &&& forall|x: BigIntWires| old.has_word(x) ==> #[trigger] self.has_word(x)
        &&& forall|env: Seq<bool>, x: BigIntWires|
            old.has_word(x) ==> #[trigger] self.word(env, x) == old.word(env, x)
    }

    /// The circuit has grown from `old` by `ops` operations, `products` of
    /// which multiply two words.
    pub open spec fn grows(self, old: Circuit, ops: nat, products: nat) -> bool {
        &&& self.extends(old)
        &&& self.ops@.len() == old.ops@.len() + ops
        &&& products_of(self.ops@) == products_of(old.ops@) + products
    }

    /// The circuit has the operations of `old`, and behind them operations of
    /// these shapes.
    pub open spec fn adds(self, old: Circuit, shapes: Seq<Shape>) -> bool {
        shapes_of(self.ops@) == shapes_of(old.ops@) + shapes
    }

    /// A circuit with inputs and no operations.
    pub fn new(n_inputs: usize) -> (c: Circuit)
        ensures
            c.wf(),
            c.n_inputs == n_inputs,
            c.ops@.len() == 0,
            shapes_of(c.ops@) == Seq::<Shape>::empty(),
    {
        reveal(shapes_of);
        Circuit { n_inputs, ops: Vec::new() }
    }

    /// Records an operation; its outputs are wires `(index, 0)`, `(index, 1)`, and so on.
    fn emit(&mut self, op: Op) -> (index: usize)
        requires
            old(self).wf(),
            op.known(old(self).n_inputs as nat, old(self).ops@, old(self).ops@.len() as int),
        ensures
            final(self).grows(
                *old(self),
                1,
                if op.is_product() {
                    1
                } else {
                    0
                },
            ),
            final(self).adds(*old(self), seq![op.shape()]),
            index == old(self).ops@.len(),
            final(self).ops@ == old(self).ops@.push(op),
            forall|env: Seq<bool>| #[trigger]
                outputs_of(final(self).ops@, env) == outputs_of(old(self).ops@, env).push(
                    op.outputs(outputs_of(old(self).ops@, env), env),
                ),
            forall|env: Seq<bool>| #[trigger]
                outputs_of(old(self).ops@, env).len() == old(self).ops@.len(),
    {
        let index = self.ops.len();
        self.ops.push(op);
        proof {
            let before = old(self).ops@;
            let after = self.ops@;
            assert(after.drop_last() =~= before);
            assert(self.adds(*old(self), seq![op.shape()])) by {
                reveal(shapes_of);
                assert(shapes_of(after) =~= shapes_of(before) + seq![op.shape()]);
            }
            assert forall|env: Seq<bool>| #[trigger]
                outputs_of(before, env).len() == before.len() by {
                lemma_outputs_len(before, env);
            }
            assert forall|w: WireId| old(self).has(w) implies #[trigger] self.has(w) by {}
            assert forall|k: int| 0 <= k < after.len() implies (#[trigger] after[k]).known(
                self.n_inputs as nat,
                after,
                k,
            ) by {
                lemma_known_grows(self.n_inputs as nat, before, after, k);
            }
            assert forall|env: Seq<bool>, w: WireId| old(self).has(w) implies #[trigger] self.wire(
                env,
                w,
            ) == old(self).wire(env, w) by {
                lemma_outputs_len(before, env);
            }
            assert forall|env: Seq<bool>, ws: Seq<WireId>| old(self).has_row(
                ws,
            ) implies #[trigger] self.row(env, ws) == old(self).row(env, ws) by {
                assert forall|i: int| 0 <= i < ws.len() implies wire_value(
                    outputs_of(after, env),
                    env,
                    ws[i],
                ) == wire_value(outputs_of(before, env), env, ws[i]) by {
                    assert(old(self).has(ws[i]));
                    assert(self.wire(env, ws[i]) == old(self).wire(env, ws[i]));
                }
                assert(wires_value(outputs_of(after, env), env, ws) =~= wires_value(
                    outputs_of(before, env),
                    env,
                    ws,
                ));
            }
            assert forall|env: Seq<bool>, x: BigIntWires| old(self).has_word(
                x,
            ) implies #[trigger] self.word(env, x) == old(self).word(env, x) by {
                assert(old(self).has_row(x.bits@));
                assert(self.row(env, x.bits@) == old(self).row(env, x.bits@));
            }
        }
        index
    }

    /// Records an operation and returns all its output wires as a word.
    fn emit_word(&mut self, op: Op, n: usize) -> (r: BigIntWires)
        requires
            old(self).wf(),
            op.known(old(self).n_inputs as nat, old(self).ops@, old(self).ops@.len() as int),
            n == op.width(),
        ensures
            final(self).grows(
                *old(self),
                1,
                if op.is_product() {
                    1
                } else {
                    0
                },
            ),
            final(self).adds(*old(self), seq![op.shape()]),
            final(self).is_word(r, n as nat),
            forall|env: Seq<bool>| #[trigger]
                final(self).word(env, r) == op.number(outputs_of(old(self).ops@, env), env) % pow2(
                    n as nat,
                ),
    {
        let index = self.emit(op);
        let mut bits: Vec<WireId> = Vec::new();
        let mut i: usize = 0;
        while i < n
            invariant
                i <= n,
                bits@.len() == i,
                forall|j: int| 0 <= j < i ==> bits@[j] == WireId::Output(index, j as usize),
            decreases n - i,
        {
            bits.push(WireId::Output(index, i));
            i += 1;
        }
        let r = BigIntWires { bits };
        proof {
            assert forall|env: Seq<bool>| #[trigger] self.word(env, r) == op.number(
                outputs_of(old(self).ops@, env),
                env,
            ) % pow2(n as nat) by {
                let before = outputs_of(old(self).ops@, env);
                assert(outputs_of(self.ops@, env) == before.push(op.outputs(before, env)));
                assert(wires_value(outputs_of(self.ops@, env), env, r.bits@) =~= bits::low_bits(
                    op.number(before, env),
                    n as nat,
                ));
                bits::lemma_value_of_low_bits(op.number(before, env), n as nat);
            }
        }
        r
    }
}

/// What was known to `before` is known to a circuit that continues it.
proof fn lemma_known_grows(n_inputs: nat, before: Seq<Op>, after: Seq<Op>, k: int)
    requires
        0 <= k < after.len(),
        after.len() == before.len() + 1,
        forall|i: int| 0 <= i < before.len() ==> after[i] == before[i],
        forall|i: int| 0 <= i < before.len() ==> (#[trigger] before[i]).known(n_inputs, before, i),
        after.last().known(n_inputs, before, before.len() as int),
    ensures
        after[k].known(n_inputs, after, k),
{
    let op = after[k];
    assert(op.known(n_inputs, before, k));
    assert forall|w: WireId| wire_known(n_inputs, before, k, w) implies #[trigger] wire_known(
        n_inputs,
        after,
        k,
        w,
    ) by {}
    assert forall|x: BigIntWires| operand_known(n_inputs, before, k, x) implies #[trigger]
        operand_known(n_inputs, after, k, x) by {
        assert forall|i: int| 0 <= i < x.bits@.len() implies wire_known(
            n_inputs,
            after,
            k,
            #[trigger] x.bits@[i],
        ) by {
            assert(wire_known(n_inputs, before, k, x.bits@[i]));
        }
    }
}


impl BigIntWires {
    /// The same wires again.
    pub fn dup(&self) -> (r: BigIntWires)
        ensures
            r.bits@ == self.bits@,
    {
        self.slice(0, self.bits.len())
    }

    /// Wires `from .. to`.
    pub fn slice(&self, from: usize, to: usize) -> (r: BigIntWires)
        requires
            from <= to <= self.bits@.len(),
        ensures
            r.bits@ == self.bits@.subrange(from as int, to as int),
    {
        let mut bits: Vec<WireId> = Vec::new();
        let mut i: usize = from;
        while i < to
            invariant
                from <= i <= to <= self.bits@.len(),
                bits@ =~= self.bits@.subrange(from as int, i as int),
            decreases to - i,
        {
            bits.push(self.bits[i]);
            i += 1;
        }
        BigIntWires { bits }
    }

    /// The wires at the bottom of a word of `width` wires whose lowest is at
    /// `shift`; the rest are constant zero.
    pub fn place(&self, shift: usize, width: usize) -> (r: BigIntWires)
        requires
            shift + self.bits@.len() <= width,
        ensures
            r.bits@ == zero_wires(shift as nat) + self.bits@ + zero_wires(
                (width - shift - self.bits@.len()) as nat,
            ),
    {
        let mut bits: Vec<WireId> = Vec::new();
        while bits.len() < shift
            invariant
                bits@.len() <= shift,
                bits@ =~= zero_wires(bits@.len()),
            decreases shift - bits@.len(),
        {
            bits.push(FALSE_WIRE);
        }
        let mut i: usize = 0;
        while i < self.bits.len()
            invariant
                i <= self.bits@.len(),
                bits@ =~= zero_wires(shift as nat) + self.bits@.take(i as int),
            decreases self.bits@.len() - i,
        {
            bits.push(self.bits[i]);
            i += 1;
        }
        while bits.len() < width
            invariant
                shift + self.bits@.len() <= bits@.len() <= width,
                bits@ =~= zero_wires(shift as nat) + self.bits@ + zero_wires(
                    (bits@.len() - shift - self.bits@.len()) as nat,
                ),
            decreases width - bits@.len(),
        {
            bits.push(FALSE_WIRE);
        }
        BigIntWires { bits }
    }

    /// The `width` low bits of a constant, as constant wires.
    pub fn new_constant(width: usize, n: u32) -> (r: BigIntWires)
        ensures
            r.bits@ == constant_wires(n as nat, width as nat),
    {
        let mut bits: Vec<WireId> = Vec::new();
        let mut rest: u32 = n;
        proof {
            lemma2_to64();
        }
        while bits.len() < width
            invariant
                bits@.len() <= width,
                rest == (n as nat) / pow2(bits@.len()),
                bits@ =~= constant_wires(n as nat, bits@.len()),
            decreases width - bits@.len(),
        {
            proof {
                lemma_halve(n as nat, bits@.len());
            }
            bits.push(if rest % 2 == 1 {
                TRUE_WIRE
            } else {
                FALSE_WIRE
            });
            rest = rest / 2;
        }
        BigIntWires { bits }
    }
}

/// `n` constant zero wires.
pub open spec fn zero_wires(n: nat) -> Seq<WireId> {
    Seq::new(n, |i: int| WireId::False)
}

/// The constant wires that spell the low `width` bits of `n`.
pub open spec fn constant_wires(n: nat, width: nat) -> Seq<WireId> {
    Seq::new(
        width,
        |i: int|
            if bits::low_bits(n, width)[i] {
                WireId::True
            } else {
                WireId::False
            },
    )
}

/// Halving the quotient by `2^k` gives the quotient by `2^(k + 1)`.
proof fn lemma_halve(n: nat, k: nat)
    ensures
        (n / pow2(k)) / 2 == n / pow2(k + 1),
{
    lemma_pow2_pos(k);
    lemma_pow2_unfold(k + 1);
    lemma_div_denominator(n as int, pow2(k) as int, 2);
    lemma_mul_is_commutative(pow2(k) as int, 2);
}

impl Circuit {
    /// A word of `n` wires carries a number below `2^n`.
    pub proof fn lemma_bound(self, x: BigIntWires)
        ensures
            forall|env: Seq<bool>| #[trigger] self.word(env, x) < pow2(x.bits@.len()),
    {
        assert forall|env: Seq<bool>| #[trigger] self.word(env, x) < pow2(x.bits@.len()) by {
            bits::lemma_bits_value_bound(wires_value(outputs_of(self.ops@, env), env, x.bits@));
        }
    }

    /// Words of the same wires carry the same number.
    pub proof fn lemma_same_wires(self, x: BigIntWires, r: BigIntWires)
        requires
            r.bits@ == x.bits@,
        ensures
            self.has_word(x) ==> self.has_word(r),
            forall|env: Seq<bool>| #[trigger] self.word(env, r) == self.word(env, x),
    {
        if self.has_word(x) {
            assert forall|i: int| 0 <= i < r.bits@.len() implies self.has(#[trigger] r.bits@[i]) by {
                assert(self.has(x.bits@[i]));
            }
        }
    }

    /// A slice of a word carries that slice of its number.
    pub proof fn lemma_slice(self, x: BigIntWires, r: BigIntWires, from: int, to: int)
        requires
            0 <= from <= to <= x.bits@.len(),
            r.bits@ == x.bits@.subrange(from, to),
        ensures
            self.has_word(x) ==> self.is_word(r, (to - from) as nat),
            forall|env: Seq<bool>| #[trigger]
                self.word(env, r) == (self.word(env, x) / pow2(from as nat)) % pow2(
                    (to - from) as nat,
                ),
    {
        assert forall|env: Seq<bool>| #[trigger] self.word(env, r) == (self.word(env, x) / pow2(
            from as nat,
        )) % pow2((to - from) as nat) by {
            let b = wires_value(outputs_of(self.ops@, env), env, x.bits@);
            bits::lemma_bits_value_split(b, from);
            bits::lemma_bits_value_split(b.skip(from), to - from);
            assert(b.skip(from).take(to - from) =~= wires_value(
                outputs_of(self.ops@, env),
                env,
                r.bits@,
            ));
        }
        if self.has_word(x) {
            assert forall|i: int| 0 <= i < r.bits@.len() implies self.has(#[trigger] r.bits@[i]) by {
                assert(r.bits@[i] == x.bits@[from + i]);
            }
        }
    }

    /// The low wires of a word carry its number modulo a power of two.
    pub proof fn lemma_low(self, x: BigIntWires, r: BigIntWires, n: int)
        requires
            0 <= n <= x.bits@.len(),
            r.bits@ == x.bits@.subrange(0, n),
        ensures
            self.has_word(x) ==> self.is_word(r, n as nat),
            forall|env: Seq<bool>| #[trigger]
                self.word(env, r) == self.word(env, x) % pow2(n as nat),
    {
        self.lemma_slice(x, r, 0, n);
        lemma2_to64();
        assert forall|env: Seq<bool>| #[trigger] self.word(env, r) == self.word(env, x) % pow2(
            n as nat,
        ) by {
            lemma_div_basics(self.word(env, x) as int);
        }
    }

    /// A word placed at `shift` among zero wires carries its number times `2^shift`.
    pub proof fn lemma_place(self, x: BigIntWires, r: BigIntWires, shift: nat, top: nat)
        requires
            r.bits@ == zero_wires(shift) + x.bits@ + zero_wires(top),
        ensures
            self.has_word(x) ==> self.is_word(r, shift + x.bits@.len() + top),
            forall|env: Seq<bool>| #[trigger]
                self.word(env, r) == self.word(env, x) * pow2(shift),
    {
        assert forall|env: Seq<bool>| #[trigger] self.word(env, r) == self.word(env, x) * pow2(
            shift,
        ) by {
            let outs = outputs_of(self.ops@, env);
            let lo = wires_value(outs, env, zero_wires(shift));
            let mid = wires_value(outs, env, x.bits@);
            let hi = wires_value(outs, env, zero_wires(top));
            assert(wires_value(outs, env, r.bits@) =~= lo + mid + hi);
            bits::lemma_bits_value_zeros(lo);
            bits::lemma_bits_value_zeros(hi);
            bits::lemma_bits_value_concat(lo, mid);
            bits::lemma_bits_value_concat(lo + mid, hi);
            lemma_mul_by_zero_is_zero(pow2((lo + mid).len()) as int);
            lemma_mul_is_commutative(pow2(shift) as int, bits::bits_value(mid) as int);
        }
        if self.has_word(x) {
            assert forall|i: int| 0 <= i < r.bits@.len() implies self.has(#[trigger] r.bits@[i]) by {
                if shift <= i < shift + x.bits@.len() {
                    assert(r.bits@[i] == x.bits@[i - shift]);
                } else {
                    assert(r.bits@[i] == WireId::False);
                }
            }
        }
    }

    /// A row of constant wires carries the constant.
    pub proof fn lemma_constant_row(self, n: nat, width: nat)
        ensures
            self.has_row(constant_wires(n, width)),
            forall|env: Seq<bool>| #[trigger]
                self.row(env, constant_wires(n, width)) == n % pow2(width),
    {
        assert forall|env: Seq<bool>| #[trigger] self.row(env, constant_wires(n, width)) == n
            % pow2(width) by {
            assert(wires_value(outputs_of(self.ops@, env), env, constant_wires(n, width))
                =~= bits::low_bits(n, width));
            bits::lemma_value_of_low_bits(n, width);
        }
    }

    /// Constant wires carry the constant.
    pub proof fn lemma_constant(self, r: BigIntWires, n: nat, width: nat)
        requires
            r.bits@ == constant_wires(n, width),
        ensures
            self.is_word(r, width),
            forall|env: Seq<bool>| #[trigger] self.word(env, r) == n % pow2(width),
    {
        assert forall|env: Seq<bool>| #[trigger] self.word(env, r) == n % pow2(width) by {
            assert(wires_value(outputs_of(self.ops@, env), env, r.bits@) =~= bits::low_bits(
                n,
                width,
            ));
            bits::lemma_value_of_low_bits(n, width);
        }
    }

    /// Wire `i` of a word carries bit `i` of its number.
    pub proof fn lemma_bit(self, x: BigIntWires, i: int)
        requires
            0 <= i < x.bits@.len(),
        ensures
            self.has_word(x) ==> self.has(x.bits@[i]),
            forall|env: Seq<bool>| #[trigger]
                self.wire(env, x.bits@[i]) == ((self.word(env, x) / pow2(i as nat)) % 2 == 1),
    {
        assert forall|env: Seq<bool>| #[trigger]
            self.wire(env, x.bits@[i]) == ((self.word(env, x) / pow2(i as nat)) % 2 == 1) by {
            bits::lemma_bits_value_index(
                wires_value(outputs_of(self.ops@, env), env, x.bits@),
                i,
            );
        }
    }

    /// Exclusive or of two wires.
    pub fn xor(&mut self, a: WireId, b: WireId) -> (r: WireId)
        requires
            old(self).wf(),
            old(self).has(a),
            old(self).has(b),
        ensures
            final(self).grows(*old(self), 1, 0),
            final(self).adds(*old(self), seq![Shape::Xor]),
            final(self).has(r),
            forall|env: Seq<bool>| #[trigger]
                final(self).wire(env, r) == (old(self).wire(env, a) != old(self).wire(env, b)),
    {
        let k = self.emit(Op::Xor { x: a, y: b });
        proof {
            lemma2_to64();
            assert forall|env: Seq<bool>| #[trigger]
                self.wire(env, WireId::Output(k, 0)) == (old(self).wire(env, a) != old(self).wire(
                    env,
                    b,
                )) by {
                let before = outputs_of(old(self).ops@, env);
                let op = Op::Xor { x: a, y: b };
                let n = op.number(before, env);
                assert(outputs_of(self.ops@, env) == before.push(op.outputs(before, env)));
                assert(op.outputs(before, env)[0] == ((n / pow2(0)) % 2 == 1));
                lemma_div_basics(n as int);
            }
        }
        WireId::Output(k, 0)
    }

    /// Sum and carry of three wires.
    pub fn full_adder(&mut self, a: WireId, b: WireId, carry: WireId) -> (r: (WireId, WireId))
        requires
            old(self).wf(),
            old(self).has(a),
            old(self).has(b),
            old(self).has(carry),
        ensures
            final(self).grows(*old(self), 1, 0),
            final(self).adds(*old(self), seq![Shape::FullAdder]),
            final(self).has(r.0),
            final(self).has(r.1),
            forall|env: Seq<bool>|
                #![trigger final(self).wire(env, r.0)]
                #![trigger final(self).wire(env, r.1)]
                bits::bit_value(final(self).wire(env, r.0)) + 2 * bits::bit_value(
                    final(self).wire(env, r.1),
                ) == bits::bit_value(old(self).wire(env, a)) + bits::bit_value(
                    old(self).wire(env, b),
                ) + bits::bit_value(old(self).wire(env, carry)),
    {
        let k = self.emit(Op::FullAdder { x: a, y: b, carry });
        proof {
            lemma2_to64();
            assert forall|env: Seq<bool>|
                #![trigger self.wire(env, WireId::Output(k, 0))]
                #![trigger self.wire(env, WireId::Output(k, 1))]
                bits::bit_value(self.wire(env, WireId::Output(k, 0))) + 2 * bits::bit_value(
                    self.wire(env, WireId::Output(k, 1)),
                ) == bits::bit_value(old(self).wire(env, a)) + bits::bit_value(
                    old(self).wire(env, b),
                ) + bits::bit_value(old(self).wire(env, carry)) by {
                let before = outputs_of(old(self).ops@, env);
                let op = Op::FullAdder { x: a, y: b, carry };
                let n = op.number(before, env);
                assert(outputs_of(self.ops@, env) == before.push(op.outputs(before, env)));
                assert(op.outputs(before, env)[0] == ((n / pow2(0)) % 2 == 1));
                assert(op.outputs(before, env)[1] == ((n / pow2(1)) % 2 == 1));
                lemma_div_basics(n as int);
            }
        }
        (WireId::Output(k, 0), WireId::Output(k, 1))
    }

    /// `a + b`, one bit wider than the operands.
    pub fn add(&mut self, a: &BigIntWires, b: &BigIntWires) -> (r: BigIntWires)
        requires
            old(self).wf(),
            old(self).has_word(*a),
            old(self).has_word(*b),
            a.bits@.len() == b.bits@.len() <= MAX_OPERAND_BITS,
        ensures
            final(self).grows(*old(self), 1, 0),
            final(self).adds(*old(self), seq![Shape::Add(a.bits@.len())]),
            final(self).is_word(r, a.bits@.len() + 1),
            forall|env: Seq<bool>| #[trigger]
                final(self).word(env, r) == old(self).word(env, *a) + old(self).word(env, *b),
    {
        let n = a.bits.len() + 1;
        let r = self.emit_word(Op::Add { a: a.dup(), b: b.dup() }, n);
        proof {
            let c = *old(self);
            c.lemma_bound(*a);
            c.lemma_bound(*b);
            lemma_pow2_unfold(n as nat);
            assert forall|env: Seq<bool>| #[trigger]
                self.word(env, r) == c.word(env, *a) + c.word(env, *b) by {
                lemma_small_mod(c.word(env, *a) + c.word(env, *b), pow2(n as nat));
            }
        }
        r
    }

    /// `a + b` modulo `2^n` at the operands' width `n`.
    pub fn add_without_carry(&mut self, a: &BigIntWires, b: &BigIntWires) -> (r: BigIntWires)
        requires
            old(self).wf(),
            old(self).has_word(*a),
            old(self).has_word(*b),
            a.bits@.len() == b.bits@.len() <= MAX_OPERAND_BITS,
        ensures
            final(self).grows(*old(self), 1, 0),
            final(self).adds(*old(self), seq![Shape::AddWithoutCarry(a.bits@.len())]),
            final(self).is_word(r, a.bits@.len()),
            forall|env: Seq<bool>| #[trigger]
                final(self).word(env, r) == (old(self).word(env, *a) + old(self).word(env, *b))
                    % pow2(a.bits@.len()),
    {
        let n = a.bits.len();
        self.emit_word(Op::AddWithoutCarry { a: a.dup(), b: b.dup() }, n)
    }

    /// `a - b` modulo `2^n` at the operands' width `n`, with the borrow on wire `n`.
    pub fn sub(&mut self, a: &BigIntWires, b: &BigIntWires) -> (r: BigIntWires)
        requires
            old(self).wf(),
            old(self).has_word(*a),
            old(self).has_word(*b),
            a.bits@.len() == b.bits@.len() <= MAX_OPERAND_BITS,
        ensures
            final(self).grows(*old(self), 1, 0),
            final(self).adds(*old(self), seq![Shape::Sub(a.bits@.len())]),
            final(self).is_word(r, a.bits@.len() + 1),
            final(self).has(r.bits@[a.bits@.len() as int]),
            forall|env: Seq<bool>| #[trigger]
                final(self).word(env, r) == (if old(self).word(env, *a) >= old(self).word(env, *b) {
                    old(self).word(env, *a) - old(self).word(env, *b)
                } else {
                    pow2(a.bits@.len() + 1) + old(self).word(env, *a) - old(self).word(env, *b)
                }),
            forall|env: Seq<bool>| #[trigger]
                final(self).wire(env, r.bits@[a.bits@.len() as int]) == (old(self).word(env, *a)
                    < old(self).word(env, *b)),
    {
        let n = a.bits.len() + 1;
        let r = self.emit_word(Op::Sub { a: a.dup(), b: b.dup() }, n);
        proof {
            let c = *old(self);
            let half = pow2(a.bits@.len());
            let full = pow2(n as nat);
            c.lemma_bound(*a);
            c.lemma_bound(*b);
            lemma_pow2_unfold(n as nat);
            lemma_pow2_pos(a.bits@.len());
            self.lemma_bit(r, a.bits@.len() as int);
            assert forall|env: Seq<bool>| #[trigger]
                self.word(env, r) == (if c.word(env, *a) >= c.word(env, *b) {
                    c.word(env, *a) - c.word(env, *b)
                } else {
                    full + c.word(env, *a) - c.word(env, *b)
                }) by {
                let x = c.word(env, *a) as int;
                let y = c.word(env, *b) as int;
                if x >= y {
                    lemma_mod_add_multiples_vanish(x - y, full as int);
                    lemma_small_mod((x - y) as nat, full);
                } else {
                    lemma_small_mod((full + x - y) as nat, full);
                }
            }
            assert forall|env: Seq<bool>| #[trigger]
                self.wire(env, r.bits@[a.bits@.len() as int]) == (c.word(env, *a) < c.word(
                    env,
                    *b,
                )) by {
                let v = self.word(env, r) as int;
                if c.word(env, *a) >= c.word(env, *b) {
                    lemma_basic_div(v, half as int);
                } else {
                    lemma_fundamental_div_mod_converse(v, half as int, 1, v - half);
                }
            }
        }
        r
    }

    /// The double-width product `a * b`.
    pub fn mul_karatsuba(&mut self, a: &BigIntWires, b: &BigIntWires) -> (r: BigIntWires)
        requires
            old(self).wf(),
            old(self).has_word(*a),
            old(self).has_word(*b),
            a.bits@.len() == b.bits@.len() <= MAX_OPERAND_BITS,
        ensures
            final(self).grows(*old(self), 1, 1),
            final(self).adds(*old(self), seq![Shape::MulKaratsuba(a.bits@.len())]),
            final(self).is_word(r, 2 * a.bits@.len()),
            forall|env: Seq<bool>| #[trigger]
                final(self).word(env, r) == old(self).word(env, *a) * old(self).word(env, *b),
    {
        let n = 2 * a.bits.len();
        let r = self.emit_word(Op::MulKaratsuba { a: a.dup(), b: b.dup() }, n);
        proof {
            let c = *old(self);
            let half = pow2(a.bits@.len());
            c.lemma_bound(*a);
            c.lemma_bound(*b);
            lemma_pow2_adds(a.bits@.len(), a.bits@.len());
            assert forall|env: Seq<bool>| #[trigger]
                self.word(env, r) == c.word(env, *a) * c.word(env, *b) by {
                lemma_product_bound(c.word(env, *a), half, c.word(env, *b), half);
                lemma_small_mod(c.word(env, *a) * c.word(env, *b), half * half);
            }
        }
        r
    }

    /// The double-width product of `a` and a constant that fits `a`'s width.
    pub fn mul_by_constant(&mut self, a: &BigIntWires, c: u32) -> (r: BigIntWires)
        requires
            old(self).wf(),
            old(self).has_word(*a),
            a.bits@.len() <= MAX_OPERAND_BITS,
            c < pow2(a.bits@.len()),
        ensures
            final(self).grows(*old(self), 1, 0),
            final(self).adds(*old(self), seq![Shape::MulByConstant(a.bits@.len(), c)]),
            final(self).is_word(r, 2 * a.bits@.len()),
            forall|env: Seq<bool>| #[trigger]
                final(self).word(env, r) == old(self).word(env, *a) * (c as nat),
    {
        let n = 2 * a.bits.len();
        let r = self.emit_word(Op::MulByConstant { a: a.dup(), c }, n);
        proof {
            let before = *old(self);
            let half = pow2(a.bits@.len());
            before.lemma_bound(*a);
            lemma_pow2_adds(a.bits@.len(), a.bits@.len());
            assert forall|env: Seq<bool>| #[trigger]
                self.word(env, r) == before.word(env, *a) * (c as nat) by {
                lemma_product_bound(before.word(env, *a), half, c as nat, half);
                lemma_small_mod(before.word(env, *a) * (c as nat), half * half);
            }
        }
        r
    }

    /// The `power` low bits of the product of `a` and a constant.
    pub fn mul_by_constant_modulo_power_two(
        &mut self,
        a: &BigIntWires,
        c: u32,
        power: usize,
    ) -> (r: BigIntWires)
        requires
            old(self).wf(),
            old(self).has_word(*a),
            a.bits@.len() <= MAX_OPERAND_BITS,
            power <= MAX_OPERAND_BITS,
        ensures
            final(self).grows(*old(self), 1, 0),
            final(self).adds(
                *old(self),
                seq![Shape::MulByConstantModuloPowerTwo(a.bits@.len(), c, power as nat)],
            ),
            final(self).is_word(r, power as nat),
            forall|env: Seq<bool>| #[trigger]
                final(self).word(env, r) == (old(self).word(env, *a) * (c as nat)) % pow2(
                    power as nat,
                ),
    {
        self.emit_word(Op::MulByConstantModuloPowerTwo { a: a.dup(), c, power }, power)
    }

    /// `a` where the wire `s` is set, zero elsewhere.
    pub fn self_or_zero(&mut self, a: &BigIntWires, s: WireId) -> (r: BigIntWires)
        requires
            old(self).wf(),
            old(self).has_word(*a),
            old(self).has(s),
            a.bits@.len() <= MAX_OPERAND_BITS,
        ensures
            final(self).grows(*old(self), 1, 0),
            final(self).adds(*old(self), seq![Shape::SelfOrZero(a.bits@.len())]),
            final(self).is_word(r, a.bits@.len()),
            forall|env: Seq<bool>| #[trigger]
                final(self).word(env, r) == (if old(self).wire(env, s) {
                    old(self).word(env, *a)
                } else {
                    0
                }),
    {
        let n = a.bits.len();
        let r = self.emit_word(Op::SelfOrZero { a: a.dup(), s }, n);
        proof {
            let c = *old(self);
            c.lemma_bound(*a);
            lemma_pow2_pos(n as nat);
            assert forall|env: Seq<bool>| #[trigger]
                self.word(env, r) == (if c.wire(env, s) {
                    c.word(env, *a)
                } else {
                    0
                }) by {
                lemma_small_mod(c.word(env, *a), pow2(n as nat));
                lemma_small_mod(0, pow2(n as nat));
            }
        }
        r
    }
}

/// Factors below two bounds multiply to less than the product of the bounds.
pub proof fn lemma_product_bound(x: nat, m: nat, y: nat, n: nat)
    requires
        x < m,
        y < n,
    ensures
        x * y < m * n,
{
    assert(x * y < m * n) by (nonlinear_arith)
        requires
            0 <= x < m,
            0 <= y < n,
    ;
}


/// A power of two up to the widest result of an operation.
fn power_of_two(n: usize) -> (r: u128)
    requires
        n <= 65,
    ensures
        r == pow2(n as nat),
{
    let mut r: u128 = 1;
    let mut i: usize = 0;
    proof {
        bits::lemma_word_powers();
    }
    while i < n
        invariant
            i <= n <= 65,
            r == pow2(i as nat),
        decreases n - i,
    {
        proof {
            lemma_pow2_unfold((i + 1) as nat);
            lemma_power_order((i + 1) as nat, 65);
            bits::lemma_word_powers();
        }
        r = 2 * r;
        i += 1;
    }
    r
}

proof fn lemma_power_order(i: nat, j: nat)
    requires
        i <= j,
    ensures
        pow2(i) <= pow2(j),
{
    if i < j {
        lemma_pow2_strictly_increases(i, j);
    }
}

/// The `len` low bits of a number.
pub(crate) fn to_bits(n: u128, len: usize) -> (r: Vec<bool>)
    ensures
        r@ == bits::low_bits(n as nat, len as nat),
{
    let mut r: Vec<bool> = Vec::new();
    let mut rest: u128 = n;
    proof {
        lemma2_to64();
        lemma_div_basics(n as int);
    }
    while r.len() < len
        invariant
            r@.len() <= len,
            rest == (n as nat) / pow2(r@.len()),
            r@ =~= bits::low_bits(n as nat, r@.len()),
        decreases len - r@.len(),
    {
        proof {
            lemma_halve(n as nat, r@.len());
        }
        r.push(rest % 2 == 1);
        rest = rest / 2;
    }
    r
}

/// The number that `x` carries once the operations behind it have been evaluated.
fn read_word(outs: &Vec<Vec<bool>>, input: &Vec<bool>, x: &BigIntWires, Ghost(ops): Ghost<Seq<Op>>) -> (r: u128)
    requires
        outs@.len() <= ops.len(),
        forall|k: int| 0 <= k < outs@.len() ==> (#[trigger] outs@[k])@.len() == ops[k].width(),
        operand_known(input@.len(), ops, outs@.len() as int, *x),
    ensures
        r == word_value(rows(outs@), input@, *x),
        r < pow2(x.bits@.len()),
{
    let mut r: u128 = 0;
    let mut i: usize = 0;
    let ghost b = wires_value(rows(outs@), input@, x.bits@);
    let mut weight: u128 = 1;
    proof {
        bits::lemma_word_powers();
        assert(b.take(0) =~= Seq::<bool>::empty());
    }
    while i < x.bits.len()
        invariant
            i <= x.bits@.len() <= MAX_OPERAND_BITS,
            b == wires_value(rows(outs@), input@, x.bits@),
            r == bits::bits_value(b.take(i as int)),
            weight == pow2(i as nat),
            outs@.len() <= ops.len(),
            forall|k: int| 0 <= k < outs@.len() ==> (#[trigger] outs@[k])@.len() == ops[k].width(),
            operand_known(input@.len(), ops, outs@.len() as int, *x),
        decreases x.bits@.len() - i,
    {
        let bit = read_wire(outs, input, x.bits[i], Ghost(ops));
        proof {
            let s = b.take(i + 1);
            assert(s.drop_last() =~= b.take(i as int));
            assert(s.last() == bit);
            assert(bits::bits_value(s) == bits::bits_value(b.take(i as int)) + bits::bit_value(bit)
                * pow2(i as nat));
            lemma_mul_basics(pow2(i as nat) as int);
            bits::lemma_bits_value_bound(s);
            lemma_power_order((i + 1) as nat, 64);
            lemma_pow2_unfold((i + 1) as nat);
            bits::lemma_word_powers();
        }
        if bit {
            r = r + weight;
        }
        weight = 2 * weight;
        i += 1;
    }
    proof {
        assert(b.take(b.len() as int) =~= b);
        bits::lemma_bits_value_bound(b);
    }
    r
}

/// The outputs of evaluated operations, as bit strings.
pub open spec fn rows(outs: Seq<Vec<bool>>) -> Seq<Seq<bool>> {
    outs.map_values(|v: Vec<bool>| v@)
}

/// The bit that `w` carries once the operation behind it has been evaluated.
fn read_wire(outs: &Vec<Vec<bool>>, input: &Vec<bool>, w: WireId, Ghost(ops): Ghost<Seq<Op>>) -> (r: bool)
    requires
        outs@.len() <= ops.len(),
        forall|k: int| 0 <= k < outs@.len() ==> (#[trigger] outs@[k])@.len() == ops[k].width(),
        wire_known(input@.len(), ops, outs@.len() as int, w),
    ensures
        r == wire_value(rows(outs@), input@, w),
{
    match w {
        WireId::False => false,
        WireId::True => true,
        WireId::Input(i) => input[i],
        WireId::Output(k, j) => {
            assert(outs@[k as int]@.len() == ops[k as int].width());
            outs[k][j]
        },
    }
}

impl Circuit {
    /// Evaluates every operation on the given input bits.
    pub fn execute(&self, input: &Vec<bool>) -> (outs: Vec<Vec<bool>>)
        requires
            self.wf(),
            input@.len() == self.n_inputs,
        ensures
            rows(outs@) == outputs_of(self.ops@, input@),
    {
        let mut outs: Vec<Vec<bool>> = Vec::new();
        let mut k: usize = 0;
        proof {
            assert(self.ops@.take(0) =~= Seq::<Op>::empty());
            assert(rows(outs@) =~= Seq::<Seq<bool>>::empty());
        }
        while k < self.ops.len()
            invariant
                k <= self.ops@.len(),
                self.wf(),
                input@.len() == self.n_inputs,
                outs@.len() == k,
                rows(outs@) == outputs_of(self.ops@.take(k as int), input@),
                forall|i: int|
                    0 <= i < k ==> (#[trigger] outs@[i])@.len() == self.ops@[i].width(),
            decreases self.ops@.len() - k,
        {
            let ghost done = self.ops@.take(k as int);
            let out = self.evaluate(k, &outs, input);
            proof {
                let next = self.ops@.take(k + 1);
                assert(next.drop_last() =~= done);
                assert(next.last() == self.ops@[k as int]);
                assert(rows(outs@.push(out)) =~= rows(outs@).push(out@));
            }
            outs.push(out);
            k += 1;
        }
        proof {
            assert(self.ops@.take(k as int) =~= self.ops@);
        }
        outs
    }

    /// Evaluates operation `k`, given the outputs of those before it.
    fn evaluate(&self, k: usize, outs: &Vec<Vec<bool>>, input: &Vec<bool>) -> (out: Vec<bool>)
        requires
            self.wf(),
            input@.len() == self.n_inputs,
            k < self.ops@.len(),
            outs@.len() == k,
            forall|i: int| 0 <= i < k ==> (#[trigger] outs@[i])@.len() == self.ops@[i].width(),
        ensures
            out@ == self.ops@[k as int].outputs(rows(outs@), input@),
    {
        let ghost ops = self.ops@;
        assert(ops[k as int].known(self.n_inputs as nat, ops, k as int));
        match &self.ops[k] {
            Op::Xor { x, y } => {
                let p = read_wire(outs, input, *x, Ghost(ops));
                let q = read_wire(outs, input, *y, Ghost(ops));
                to_bits(
                    if p != q {
                        1
                    } else {
                        0
                    },
                    1,
                )
            },
            Op::FullAdder { x, y, carry } => {
                let p = read_wire(outs, input, *x, Ghost(ops));
                let q = read_wire(outs, input, *y, Ghost(ops));
                let r = read_wire(outs, input, *carry, Ghost(ops));
                let mut n: u128 = 0;
                if p {
                    n += 1;
                }
                if q {
                    n += 1;
                }
                if r {
                    n += 1;
                }
                to_bits(n, 2)
            },
            Op::Add { a, b } => {
                let x = read_word(outs, input, a, Ghost(ops));
                let y = read_word(outs, input, b, Ghost(ops));
                proof {
                    lemma_operand_range(a.bits@.len());
                }
                to_bits(x + y, a.bits.len() + 1)
            },
            Op::AddWithoutCarry { a, b } => {
                let x = read_word(outs, input, a, Ghost(ops));
                let y = read_word(outs, input, b, Ghost(ops));
                proof {
                    lemma_operand_range(a.bits@.len());
                }
                to_bits(x + y, a.bits.len())
            },
            Op::Sub { a, b } => {
                let x = read_word(outs, input, a, Ghost(ops));
                let y = read_word(outs, input, b, Ghost(ops));
                proof {
                    lemma_operand_range(a.bits@.len());
                    lemma_pow2_unfold(a.bits@.len() + 1);
                }
                to_bits(power_of_two(a.bits.len() + 1) + x - y, a.bits.len() + 1)
            },
            Op::MulKaratsuba { a, b } => {
                let x = read_word(outs, input, a, Ghost(ops));
                let y = read_word(outs, input, b, Ghost(ops));
                proof {
                    lemma_operand_range(a.bits@.len());
                    lemma_product_bound(
                        x as nat,
                        0x1_0000_0000_0000_0000,
                        y as nat,
                        0x1_0000_0000_0000_0000,
                    );
                }
                to_bits(x * y, 2 * a.bits.len())
            },
            Op::MulByConstant { a, c } => {
                let x = read_word(outs, input, a, Ghost(ops));
                proof {
                    lemma_operand_range(a.bits@.len());
                    lemma_product_bound(
                        x as nat,
                        0x1_0000_0000_0000_0000,
                        *c as nat,
                        0x1_0000_0000,
                    );
                }
                to_bits(x * (*c as u128), 2 * a.bits.len())
            },
            Op::MulByConstantModuloPowerTwo { a, c, power } => {
                let x = read_word(outs, input, a, Ghost(ops));
                proof {
                    lemma_operand_range(a.bits@.len());
                    lemma_product_bound(
                        x as nat,
                        0x1_0000_0000_0000_0000,
                        *c as nat,
                        0x1_0000_0000,
                    );
                }
                to_bits(x * (*c as u128), *power)
            },
            Op::SelfOrZero { a, s } => {
                let x = read_word(outs, input, a, Ghost(ops));
                let set = read_wire(outs, input, *s, Ghost(ops));
                to_bits(
                    if set {
                        x
                    } else {
                        0
                    },
                    a.bits.len(),
                )
            },
        }
    }

    /// The number that `x` carries on the given input bits, from the outputs
    /// that [`Circuit::execute`] computed.
    pub fn read(&self, outs: &Vec<Vec<bool>>, input: &Vec<bool>, x: &BigIntWires) -> (r: u128)
        requires
            self.has_word(*x),
            x.bits@.len() <= MAX_OPERAND_BITS,
            input@.len() == self.n_inputs,
            rows(outs@) == outputs_of(self.ops@, input@),
        ensures
            r == self.word(input@, *x),
            r < pow2(x.bits@.len()),
    {
        proof {
            lemma_outputs_len(self.ops@, input@);
            assert(rows(outs@).len() == outs@.len());
            assert forall|k: int| 0 <= k < outs@.len() implies (#[trigger] outs@[k])@.len()
                == self.ops@[k].width() by {
                lemma_output_width(self.ops@, input@, k);
                assert(rows(outs@)[k] == outs@[k]@);
            }
            assert forall|i: int| 0 <= i < x.bits@.len() implies wire_known(
                input@.len(),
                self.ops@,
                outs@.len() as int,
                #[trigger] x.bits@[i],
            ) by {
                assert(self.has(x.bits@[i]));
            }
        }
        read_word(outs, input, x, Ghost(self.ops@))
    }
}

/// An operand is below `2^64`.
proof fn lemma_operand_range(n: nat)
    requires
        n <= MAX_OPERAND_BITS,
    ensures
        pow2(n) <= 0x1_0000_0000_0000_0000,
{
    lemma_power_order(n, 64);
    bits::lemma_word_powers();
}

/// An operation drives as many bits as it is wide.
proof fn lemma_output_width(ops: Seq<Op>, env: Seq<bool>, k: int)
    requires
        0 <= k < ops.len(),
    ensures
        outputs_of(ops, env)[k].len() == ops[k].width(),
    decreases ops.len(),
{
    lemma_outputs_len(ops.drop_last(), env);
    if k < ops.len() - 1 {
        lemma_output_width(ops.drop_last(), env, k);
    }
}

/// What a wire carries: a constant, an input bit, or an output bit of an
/// operation; and a row carries what its wires do, in order.
pub proof fn law_wires(
    outs: Seq<Seq<bool>>,
    env: Seq<bool>,
    ws: Seq<WireId>,
    i: usize,
    k: usize,
)
    requires
        i < ws.len(),
    ensures
        !wire_value(outs, env, WireId::False),
        wire_value(outs, env, WireId::True),
        wire_value(outs, env, WireId::Input(i)) == env[i as int],
        wire_value(outs, env, WireId::Output(k, i)) == outs[k as int][i as int],
        wires_value(outs, env, ws).len() == ws.len(),
        wires_value(outs, env, ws)[i as int] == wire_value(outs, env, ws[i as int]),
        !wire_value(outs, env, FALSE_WIRE),
        wire_value(outs, env, TRUE_WIRE),
{
}

/// The operations are performed one after the other, each on what those
/// before it gave.
pub proof fn law_operations_in_order(ops: Seq<Op>, op: Op, env: Seq<bool>)
    ensures
        outputs_of(Seq::<Op>::empty(), env).len() == 0,
        outputs_of(ops.push(op), env) == outputs_of(ops, env).push(
            op.outputs(outputs_of(ops, env), env),
        ),
{
    assert(ops.push(op).drop_last() =~= ops);
}

/// What each operation drives onto its wires, as a number of its width.
pub proof fn law_operations(op: Op, outs: Seq<Seq<bool>>, env: Seq<bool>)
    ensures
        ({
            let v = bits::bits_value(op.outputs(outs, env));
            match op {
                Op::Xor { x, y } => op.width() == 1 && (v == 1 <==> wire_value(outs, env, x)
                    != wire_value(outs, env, y)),
                Op::FullAdder { x, y, carry } => op.width() == 2 && v == bits::bit_value(
                    wire_value(outs, env, x),
                ) + bits::bit_value(wire_value(outs, env, y)) + bits::bit_value(
                    wire_value(outs, env, carry),
                ),
                Op::Add { a, b } => op.width() == a.bits@.len() + 1 && (a.bits@.len()
                    == b.bits@.len() ==> v == word_value(outs, env, a) + word_value(outs, env, b)),
                Op::AddWithoutCarry { a, b } => op.width() == a.bits@.len() && v == (word_value(
                    outs,
                    env,
                    a,
                ) + word_value(outs, env, b)) % pow2(a.bits@.len()),
                Op::Sub { a, b } => op.width() == a.bits@.len() + 1 && (a.bits@.len()
                    == b.bits@.len() ==> ({
                    &&& word_value(outs, env, a) >= word_value(outs, env, b) ==> v + word_value(
                        outs,
                        env,
                        b,
                    ) == word_value(outs, env, a)
                    &&& word_value(outs, env, a) < word_value(outs, env, b) ==> v + word_value(
                        outs,
                        env,
                        b,
                    ) == word_value(outs, env, a) + pow2(a.bits@.len() + 1)
                })),
                Op::MulKaratsuba { a, b } => op.width() == 2 * a.bits@.len() && (a.bits@.len()
                    == b.bits@.len() ==> v == word_value(outs, env, a) * word_value(outs, env, b)),
                Op::MulByConstant { a, c } => op.width() == 2 * a.bits@.len() && (c < pow2(
                    a.bits@.len(),
                ) ==> v == word_value(outs, env, a) * (c as nat)),
                Op::MulByConstantModuloPowerTwo { a, c, power } => op.width() == power && v == (
                word_value(outs, env, a) * (c as nat)) % pow2(power as nat),
                Op::SelfOrZero { a, s } => op.width() == a.bits@.len() && v == (if wire_value(
                    outs,
                    env,
                    s,
                ) {
                    word_value(outs, env, a)
                } else {
                    0
                }),
            }
        }),
        op.outputs(outs, env).len() == op.width(),
{
    let w = op.width();
    bits::lemma_value_of_low_bits(op.number(outs, env), w);
    lemma_pow2_pos(w);
    lemma2_to64();
    match op {
        Op::Xor { x, y } => {
            assert(pow2(1) == 2);
            lemma_small_mod(op.number(outs, env), 2);
        },
        Op::FullAdder { x, y, carry } => {
            assert(pow2(2) == 4);
            lemma_small_mod(op.number(outs, env), 4);
        },
        Op::Add { a, b } => {
            let (u, v) = (wires_value(outs, env, a.bits@), wires_value(outs, env, b.bits@));
            bits::lemma_bits_value_bound(u);
            bits::lemma_bits_value_bound(v);
            lemma_pow2_unfold(w);
            if a.bits@.len() == b.bits@.len() {
                lemma_small_mod(op.number(outs, env), pow2(w));
            }
        },
        Op::AddWithoutCarry { a, b } => {},
        Op::Sub { a, b } => {
            let (u, v) = (wires_value(outs, env, a.bits@), wires_value(outs, env, b.bits@));
            bits::lemma_bits_value_bound(u);
            bits::lemma_bits_value_bound(v);
            lemma_pow2_unfold(w);
            if a.bits@.len() == b.bits@.len() {
                let d = word_value(outs, env, a) - word_value(outs, env, b);
                if d >= 0 {
                    lemma_mod_add_multiples_vanish(d, pow2(w) as int);
                    lemma_small_mod(d as nat, pow2(w));
                } else {
                    lemma_small_mod(op.number(outs, env), pow2(w));
                }
            }
        },
        Op::MulKaratsuba { a, b } => {
            let (u, v) = (wires_value(outs, env, a.bits@), wires_value(outs, env, b.bits@));
            bits::lemma_bits_value_bound(u);
            bits::lemma_bits_value_bound(v);
            lemma_pow2_adds(a.bits@.len(), a.bits@.len());
            if a.bits@.len() == b.bits@.len() {
                let n = pow2(a.bits@.len());
                lemma_product_bound(word_value(outs, env, a), n, word_value(outs, env, b), n);
                lemma_small_mod(op.number(outs, env), pow2(w));
            }
        },
        Op::MulByConstant { a, c } => {
            let u = wires_value(outs, env, a.bits@);
            bits::lemma_bits_value_bound(u);
            lemma_pow2_adds(a.bits@.len(), a.bits@.len());
            let n = pow2(a.bits@.len());
            if c < n {
                lemma_product_bound(word_value(outs, env, a), n, c as nat, n);
                lemma_small_mod(op.number(outs, env), pow2(w));
            }
        },
        Op::MulByConstantModuloPowerTwo { a, c, power } => {},
        Op::SelfOrZero { a, s } => {
            let u = wires_value(outs, env, a.bits@);
            bits::lemma_bits_value_bound(u);
            lemma_small_mod(op.number(outs, env), pow2(w));
        },
    }
}

/// The gates of an operation go by its kind, the width of its first operand
/// and the constant that it multiplies by; operations in order have their
/// shapes in order.
pub proof fn law_shapes(ops: Seq<Op>, op: Op)
    ensures
        match op {
            Op::Xor { x, y } => op.shape() == Shape::Xor,
            Op::FullAdder { x, y, carry } => op.shape() == Shape::FullAdder,
            Op::Add { a, b } => op.shape() == Shape::Add(a.bits@.len()),
            Op::AddWithoutCarry { a, b } => op.shape() == Shape::AddWithoutCarry(a.bits@.len()),
            Op::Sub { a, b } => op.shape() == Shape::Sub(a.bits@.len()),
            Op::MulKaratsuba { a, b } => op.shape() == Shape::MulKaratsuba(a.bits@.len()),
            Op::MulByConstant { a, c } => op.shape() == Shape::MulByConstant(a.bits@.len(), c),
            Op::MulByConstantModuloPowerTwo { a, c, power } => op.shape()
                == Shape::MulByConstantModuloPowerTwo(a.bits@.len(), c, power as nat),
            Op::SelfOrZero { a, s } => op.shape() == Shape::SelfOrZero(a.bits@.len()),
        },
        shapes_of(ops.push(op)) == shapes_of(ops).push(op.shape()),
        shapes_of(Seq::<Op>::empty()).len() == 0,
        products_of(ops.push(op)) == products_of(ops) + (if op is MulKaratsuba {
            1nat
        } else {
            0
        }),
        products_of(Seq::<Op>::empty()) == 0,
{
    reveal(shapes_of);
    assert(ops.push(op).drop_last() =~= ops);
    assert(shapes_of(ops.push(op)) =~= shapes_of(ops).push(op.shape()));
}

/// Constant wires spell the low bits of a number, the lowest first.
pub proof fn law_constant_wires(n: nat, width: nat, i: int)
    requires
        0 <= i < width,
    ensures
        constant_wires(n, width).len() == width,
        constant_wires(n, width)[i] == (if (n / pow2(i as nat)) % 2 == 1 {
            WireId::True
        } else {
            WireId::False
        }),
        zero_wires(width).len() == width,
        zero_wires(width)[i] == WireId::False,
{
}

} // verus!
