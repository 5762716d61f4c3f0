//! Circuits that read a message of bytes and drive 32 output bytes.
//!
//! A [`Plan`] is what an execution engine needs in order to run a gadget: the
//! operations to perform and the wires to read back. Bytes and words are
//! little-endian throughout.

use vstd::arithmetic::div_mod::*;
use vstd::arithmetic::mul::*;
use vstd::arithmetic::power2::*;
use vstd::prelude::*;

use crate::bits;
use crate::circuit;
use crate::circuit::{Circuit, WireId, FALSE_WIRE};

verus! {

/// Eight wires, least significant first.
#[derive(Clone, Copy, Debug)]
pub struct U8(pub [WireId; 8]);

/// The wires of a message.
#[derive(Debug)]
pub struct InputMessageWires {
    pub byte_arr: Vec<U8>,
}

/// The wires of a 32-byte output.
#[derive(Clone, Copy, Debug)]
pub struct HashOutputWires {
    pub value: [U8; 32],
}

/// A circuit over a message together with its output wires.
#[derive(Debug)]
pub struct Plan {
    pub circuit: Circuit,
    pub output: HashOutputWires,
}

/// What running a plan on one message gave: the output bytes, and how many
/// gates the run took, AND-type gates alone and all of them.
#[derive(Clone, Copy, Debug)]
pub struct Outcome {
    pub output: [u8; 32],
    pub nonfree: u64,
    pub total: u64,
}

/// The bits of a byte string, each byte least significant bit first.
pub open spec fn byte_bits(m: Seq<u8>) -> Seq<bool> {
    Seq::new(8 * m.len(), |i: int| ((m[i / 8] as nat) / pow2((i % 8) as nat)) % 2 == 1)
}

/// The wires of a byte string, in the order of [`byte_bits`].
pub open spec fn byte_wires(m: Seq<U8>) -> Seq<WireId> {
    Seq::new(8 * m.len(), |i: int| m[i / 8].0@[i % 8])
}

/// The number that four bytes from `off` on spell.
pub open spec fn le_word(m: Seq<u8>, off: int) -> nat {
    m[off] as nat + 0x100 * (m[off + 1] as nat) + 0x1_0000 * (m[off + 2] as nat) + 0x100_0000 * (
    m[off + 3] as nat)
}

/// The bits of one byte among those of the string.
pub proof fn lemma_byte_bits_at(m: Seq<u8>, k: int)
    requires
        0 <= k < m.len(),
    ensures
        byte_bits(m).subrange(8 * k, 8 * k + 8) =~= bits::low_bits(m[k] as nat, 8),
{
    assert forall|j: int| 0 <= j < 8 implies byte_bits(m).subrange(8 * k, 8 * k + 8)[j]
        == bits::low_bits(m[k] as nat, 8)[j] by {
        assert((8 * k + j) / 8 == k && (8 * k + j) % 8 == j);
    }
}

/// Four bytes spell the number that their bits denote.
pub proof fn lemma_le_word(m: Seq<u8>, off: int)
    requires
        0 <= off,
        off + 4 <= m.len(),
    ensures
        le_word(m, off) == bits::bits_value(byte_bits(m).subrange(8 * off, 8 * off + 32)),
        le_word(m, off) < 0x1_0000_0000,
{
    bits::lemma_word_powers();
    lemma2_to64();
    let s = byte_bits(m).subrange(8 * off, 8 * off + 32);
    let b = |k: int| bits::low_bits(m[off + k] as nat, 8);
    lemma_byte_bits_at(m, off);
    lemma_byte_bits_at(m, off + 1);
    lemma_byte_bits_at(m, off + 2);
    lemma_byte_bits_at(m, off + 3);
    assert forall|i: int| 0 <= i < 32 implies s[i] == (b(0) + b(1) + b(2) + b(3))[i] by {
        let k = i / 8;
        assert(s[i] == byte_bits(m).subrange(8 * (off + k), 8 * (off + k) + 8)[i % 8]);
    }
    assert(s =~= b(0) + b(1) + b(2) + b(3));
    bits::lemma_bits_value_concat(b(0), b(1));
    bits::lemma_bits_value_concat(b(0) + b(1), b(2));
    bits::lemma_bits_value_concat(b(0) + b(1) + b(2), b(3));
    bits::lemma_value_of_low_bits(m[off] as nat, 8);
    bits::lemma_value_of_low_bits(m[off + 1] as nat, 8);
    bits::lemma_value_of_low_bits(m[off + 2] as nat, 8);
    bits::lemma_value_of_low_bits(m[off + 3] as nat, 8);
}

/// The four bytes of `n` appended to a message.
pub fn push_word(out: &mut Vec<u8>, n: u32)
    ensures
        final(out)@.len() == old(out)@.len() + 4,
        final(out)@.take(old(out)@.len() as int) == old(out)@,
        le_word(final(out)@, old(out)@.len() as int) == n,
{
    out.push((n % 0x100) as u8);
    out.push((n / 0x100 % 0x100) as u8);
    out.push((n / 0x1_0000 % 0x100) as u8);
    out.push((n / 0x100_0000) as u8);
    assert(out@.take(old(out)@.len() as int) =~= old(out)@);
}

/// The number that four bytes from `off` on spell.
pub fn read_le_word(m: &[u8; 32], off: usize) -> (r: u32)
    requires
        off + 4 <= 32,
    ensures
        r == le_word(m@, off as int),
{
    m[off] as u32 + 0x100 * (m[off + 1] as u32) + 0x1_0000 * (m[off + 2] as u32) + 0x100_0000 * (
    m[off + 3] as u32)
}

impl InputMessageWires {
    /// The wires of a message of `n` bytes that are all the inputs of a circuit.
    pub fn new(n: usize) -> (r: InputMessageWires)
        requires
            8 * n <= usize::MAX,
        ensures
            r.byte_arr@.len() == n,
            r.is_input(),
    {
        let mut byte_arr: Vec<U8> = Vec::new();
        while byte_arr.len() < n
            invariant
                byte_arr@.len() <= n,
                8 * n <= usize::MAX,
                forall|i: int, j: int|
                    0 <= i < byte_arr@.len() && 0 <= j < 8 ==> #[trigger] byte_arr@[i].0@[j]
                        == WireId::Input((8 * i + j) as usize),
            decreases n - byte_arr@.len(),
        {
            let k = byte_arr.len();
            let mut b: [WireId; 8] = [FALSE_WIRE; 8];
            let mut j: usize = 0;
            while j < 8
                invariant
                    j <= 8,
                    k < n,
                    8 * n <= usize::MAX,
                    forall|l: int| 0 <= l < j ==> b@[l] == WireId::Input((8 * k + l) as usize),
                decreases 8 - j,
            {
                b[j] = WireId::Input(8 * k + j);
                j += 1;
            }
            byte_arr.push(U8(b));
        }
        InputMessageWires { byte_arr }
    }

    /// Byte `i` of the message is input bits `8i .. 8i + 8`.
    pub open spec fn is_input(self) -> bool {
        forall|i: int, j: int|
            0 <= i < self.byte_arr@.len() && 0 <= j < 8 ==> #[trigger] self.byte_arr@[i].0@[j]
                == WireId::Input((8 * i + j) as usize)
    }
}

impl HashOutputWires {
    /// The 256 output wires.
    pub open spec fn wires(self) -> Seq<WireId> {
        byte_wires(self.value@)
    }
}

impl Plan {
    /// The circuit is well formed and drives every output wire.
    pub open spec fn wf(self) -> bool {
        &&& self.circuit.wf()
        &&& forall|i: int| 0 <= i < 256 ==> self.circuit.has(#[trigger] self.output.wires()[i])
    }

    /// The 256 output bits on the input bits `env`.
    pub open spec fn output_bits(self, env: Seq<bool>) -> Seq<bool> {
        circuit::wires_value(circuit::outputs_of(self.circuit.ops@, env), env, self.output.wires())
    }

    /// Output bytes `4j .. 4j + 4` as a number.
    pub open spec fn output_word(self, env: Seq<bool>, j: int) -> nat {
        bits::bits_value(self.output_bits(env).subrange(32 * j, 32 * j + 32))
    }

    /// The output bytes on a message.
    pub fn evaluate(&self, message: &Vec<u8>) -> (r: [u8; 32])
        requires
            self.wf(),
            self.circuit.n_inputs == 8 * message@.len(),
        ensures
            byte_bits(r@) == self.output_bits(byte_bits(message@)),
            forall|j: int|
                0 <= j < 8 ==> #[trigger] le_word(r@, 4 * j) == self.output_word(
                    byte_bits(message@),
                    j,
                ),
    {
        let input = spread(message);
        let outs = self.circuit.execute(&input);
        let mut r: [u8; 32] = [0u8; 32];
        let mut k: usize = 0;
        let ghost goal = self.output_bits(byte_bits(message@));
        while k < 32
            invariant
                k <= 32,
                self.wf(),
                input@.len() == self.circuit.n_inputs,
                circuit::rows(outs@) == circuit::outputs_of(self.circuit.ops@, input@),
                goal == self.output_bits(input@),
                forall|i: int|
                    0 <= i < k ==> bits::low_bits((#[trigger] r@[i]) as nat, 8) == goal.subrange(
                        8 * i,
                        8 * i + 8,
                    ),
            decreases 32 - k,
        {
            r[k] = self.read_byte(k, &outs, &input);
            k += 1;
        }
        proof {
            assert forall|i: int| 0 <= i < 256 implies byte_bits(r@)[i] == goal[i] by {
                assert(bits::low_bits(r@[i / 8] as nat, 8)[i % 8] == goal.subrange(
                    8 * (i / 8),
                    8 * (i / 8) + 8,
                )[i % 8]);
            }
            assert(byte_bits(r@) =~= goal);
            assert forall|j: int| 0 <= j < 8 implies #[trigger] le_word(r@, 4 * j)
                == self.output_word(byte_bits(message@), j) by {
                lemma_le_word(r@, 4 * j);
                assert(8 * (4 * j) == 32 * j);
            }
        }
        r
    }

    /// Output byte `k`, once the circuit has been evaluated.
    fn read_byte(&self, k: usize, outs: &Vec<Vec<bool>>, input: &Vec<bool>) -> (r: u8)
        requires
            self.wf(),
            k < 32,
            input@.len() == self.circuit.n_inputs,
            circuit::rows(outs@) == circuit::outputs_of(self.circuit.ops@, input@),
        ensures
            bits::low_bits(r as nat, 8) == self.output_bits(input@).subrange(8 * k, 8 * k + 8),
    {
        let byte = self.output.value[k].0;
        let mut bits: Vec<WireId> = Vec::new();
        while bits.len() < 8
            invariant
                bits@.len() <= 8,
                forall|j: int| 0 <= j < bits@.len() ==> bits@[j] == byte@[j],
            decreases 8 - bits@.len(),
        {
            let j = bits.len();
            bits.push(byte[j]);
        }
        let x = circuit::BigIntWires { bits };
        proof {
            bits::lemma_word_powers();
            let ws = self.output.wires();
            assert forall|j: int| 0 <= j < 8 implies #[trigger] x.bits@[j] == ws[8 * k + j] by {
                assert((8 * k + j) / 8 == k && (8 * k + j) % 8 == j);
            }
            assert forall|j: int| 0 <= j < 8 implies self.circuit.has(#[trigger] x.bits@[j]) by {
                assert(self.circuit.has(ws[8 * k + j]));
            }
            let b = circuit::wires_value(
                circuit::outputs_of(self.circuit.ops@, input@),
                input@,
                x.bits@,
            );
            assert(b =~= self.output_bits(input@).subrange(8 * k, 8 * k + 8));
            bits::lemma_low_bits_of_value(b);
        }
        self.circuit.read(outs, input, &x) as u8
    }
}

/// The bits of a message, one by one.
fn spread(message: &Vec<u8>) -> (r: Vec<bool>)
    requires
        8 * message@.len() <= usize::MAX,
    ensures
        r@ == byte_bits(message@),
{
    let mut r: Vec<bool> = Vec::new();
    let mut k: usize = 0;
    while k < message.len()
        invariant
            k <= message@.len(),
            r@ =~= byte_bits(message@).take(8 * k),
        decreases message@.len() - k,
    {
        let byte = circuit::to_bits(message[k] as u128, 8);
        let ghost before = r@;
        let mut j: usize = 0;
        while j < 8
            invariant
                j <= 8,
                byte@.len() == 8,
                r@ =~= before + byte@.take(j as int),
            decreases 8 - j,
        {
            r.push(byte[j]);
            j += 1;
        }
        proof {
            lemma_byte_bits_at(message@, k as int);
            assert forall|i: int| 0 <= i < 8 * (k + 1) implies r@[i] == byte_bits(message@)[i] by {
                if i >= 8 * k {
                    assert(byte@[i - 8 * k] == byte_bits(message@).subrange(
                        8 * k as int,
                        8 * k + 8,
                    )[i - 8 * k]);
                } else {
                    assert(before[i] == byte_bits(message@).take(8 * k as int)[i]);
                }
            }
        }
        k += 1;
    }
    assert(byte_bits(message@).take(8 * k as int) =~= byte_bits(message@));
    r
}

/// A word cut out of the message carries that part of the input bits.
pub proof fn lemma_input_word(
    c: Circuit,
    message: InputMessageWires,
    x: circuit::BigIntWires,
    off: int,
    n: int,
)
    requires
        message.is_input(),
        0 <= off,
        0 <= n,
        8 * off + n <= 8 * message.byte_arr@.len() == c.n_inputs,
        x.bits@ == byte_wires(message.byte_arr@).subrange(8 * off, 8 * off + n),
    ensures
        c.is_word(x, n as nat),
        forall|env: Seq<bool>|
            env.len() == c.n_inputs ==> #[trigger] c.word(env, x) == bits::bits_value(
                env.subrange(8 * off, 8 * off + n),
            ),
{
    assert forall|i: int| 0 <= i < n implies #[trigger] x.bits@[i] == WireId::Input(
        (8 * off + i) as usize,
    ) by {
        let k = (8 * off + i) / 8;
        assert(message.byte_arr@[k].0@[(8 * off + i) % 8] == WireId::Input((8 * off + i) as usize));
    }
    assert forall|i: int| 0 <= i < n implies c.has(#[trigger] x.bits@[i]) by {
        assert(x.bits@[i] == WireId::Input((8 * off + i) as usize));
    }
    assert forall|env: Seq<bool>| env.len() == c.n_inputs implies #[trigger] c.word(env, x)
        == bits::bits_value(env.subrange(8 * off, 8 * off + n)) by {
        assert(circuit::wires_value(circuit::outputs_of(c.ops@, env), env, x.bits@)
            =~= env.subrange(8 * off, 8 * off + n));
    }
}

/// The low bits of four message bytes denote the low part of what the bytes spell.
pub proof fn lemma_message_word(m: Seq<u8>, off: int, n: int)
    requires
        0 <= off,
        off + 4 <= m.len(),
        0 <= n <= 32,
    ensures
        bits::bits_value(byte_bits(m).subrange(8 * off, 8 * off + n)) == le_word(m, off) % pow2(
            n as nat,
        ),
{
    lemma_le_word(m, off);
    let s = byte_bits(m).subrange(8 * off, 8 * off + 32);
    bits::lemma_bits_value_split(s, n);
    assert(s.take(n) =~= byte_bits(m).subrange(8 * off, 8 * off + n));
}

impl Plan {
    /// Where the output wires from `32j` on are a row, it carries output word `j`.
    pub proof fn lemma_output_at(self, ws: Seq<WireId>, j: int)
        requires
            0 <= j < 8,
            self.output.wires().subrange(32 * j, 32 * j + 32) == ws,
        ensures
            forall|env: Seq<bool>| #[trigger]
                self.output_word(env, j) == self.circuit.row(env, ws),
    {
        assert forall|env: Seq<bool>| #[trigger] self.output_word(env, j) == self.circuit.row(
            env,
            ws,
        ) by {
            assert(self.output_bits(env).subrange(32 * j, 32 * j + 32) =~= circuit::wires_value(
                circuit::outputs_of(self.circuit.ops@, env),
                env,
                ws,
            ));
        }
    }

    /// Where the output wires begin with those of a word, output word 0 is its low word.
    pub proof fn lemma_output_low(self, x: circuit::BigIntWires)
        requires
            x.bits@.len() <= 256,
            self.circuit.has_word(x),
            self.circuit.wf(),
            self.output.wires() == x.bits@ + circuit::zero_wires((256 - x.bits@.len()) as nat),
        ensures
            self.wf(),
            forall|env: Seq<bool>| #[trigger]
                self.output_word(env, 0) == self.circuit.word(env, x) % 0x1_0000_0000,
    {
        assert forall|i: int| 0 <= i < 256 implies self.circuit.has(
            #[trigger] self.output.wires()[i],
        ) by {
            if i < x.bits@.len() {
                assert(self.circuit.has(x.bits@[i]));
            }
        }
        bits::lemma_word_powers();
        assert forall|env: Seq<bool>| #[trigger] self.output_word(env, 0) == self.circuit.word(
            env,
            x,
        ) % 0x1_0000_0000 by {
            let outs = circuit::outputs_of(self.circuit.ops@, env);
            let low = circuit::wires_value(outs, env, x.bits@);
            let zeros = circuit::wires_value(
                outs,
                env,
                circuit::zero_wires((256 - x.bits@.len()) as nat),
            );
            assert(self.output_bits(env) =~= low + zeros);
            bits::lemma_bits_value_concat(low, zeros);
            bits::lemma_bits_value_zeros(zeros);
            lemma_mul_by_zero_is_zero(pow2(low.len()) as int);
            bits::lemma_bits_value_split(self.output_bits(env), 32);
            assert(self.output_bits(env).subrange(0, 32) =~= self.output_bits(env).take(32));
        }
    }
}

/// Four bytes spell the number whose lowest byte comes first: each byte can be
/// read back from it.
pub proof fn law_le_word(m: Seq<u8>, off: int)
    requires
        0 <= off,
        off + 4 <= m.len(),
    ensures
        le_word(m, off) < 0x1_0000_0000,
        le_word(m, off) % 0x100 == m[off],
        (le_word(m, off) / 0x100) % 0x100 == m[off + 1],
        (le_word(m, off) / 0x1_0000) % 0x100 == m[off + 2],
        le_word(m, off) / 0x100_0000 == m[off + 3],
{
}

/// The bits of a byte string are those of its bytes, each with the lowest
/// first.
pub proof fn law_byte_bits(m: Seq<u8>, k: int)
    requires
        0 <= k < m.len(),
    ensures
        byte_bits(m).len() == 8 * m.len(),
        byte_bits(m)[8 * k] <==> m[k] % 2 == 1,
        byte_bits(m)[8 * k + 1] <==> (m[k] / 2) % 2 == 1,
        byte_bits(m)[8 * k + 2] <==> (m[k] / 4) % 2 == 1,
        byte_bits(m)[8 * k + 3] <==> (m[k] / 8) % 2 == 1,
        byte_bits(m)[8 * k + 4] <==> (m[k] / 16) % 2 == 1,
        byte_bits(m)[8 * k + 5] <==> (m[k] / 32) % 2 == 1,
        byte_bits(m)[8 * k + 6] <==> (m[k] / 64) % 2 == 1,
        byte_bits(m)[8 * k + 7] <==> (m[k] / 128) % 2 == 1,
{
    lemma2_to64();
    assert((8 * k) / 8 == k && (8 * k) % 8 == 0);
    assert(byte_bits(m)[8 * k] == (((m[k] as nat) / 1) % 2 == 1));
}

/// The wires of a byte string are those of its bytes, in order, and a message
/// of inputs has its bits in order.
pub proof fn law_wires_in_order(
    m: Seq<U8>,
    message: InputMessageWires,
    output: HashOutputWires,
    k: int,
    j: int,
)
    requires
        0 <= k < m.len(),
        0 <= j < 8,
    ensures
        byte_wires(m).len() == 8 * m.len(),
        byte_wires(m)[8 * k + j] == m[k].0@[j],
        message.is_input() && k < message.byte_arr@.len() ==> message.byte_arr@[k].0@[j]
            == WireId::Input((8 * k + j) as usize),
        output.wires().len() == 256,
        k < 32 ==> output.wires()[8 * k + j] == output.value@[k].0@[j],
{
    assert((8 * k + j) / 8 == k && (8 * k + j) % 8 == j);
}

/// What a plan puts out: a bit for each output wire, and for each word the
/// number of its 32 bits.
pub proof fn law_outputs(plan: Plan, env: Seq<bool>, i: int, j: int)
    requires
        0 <= i < 256,
        0 <= j < 8,
    ensures
        plan.output_bits(env).len() == 256,
        plan.output_bits(env)[i] == plan.circuit.wire(env, plan.output.wires()[i]),
        plan.output_word(env, j) == plan.circuit.row(
            env,
            plan.output.wires().subrange(32 * j, 32 * j + 32),
        ),
{
    plan.lemma_output_at(plan.output.wires().subrange(32 * j, 32 * j + 32), j);
}

} // verus!
