//! Measurements of the Risc0 succinct receipt.

use vstd::arithmetic::div_mod::*;
use vstd::arithmetic::power2::*;
use vstd::prelude::*;
use vstd::string::StringExecFns;

use crate::count;
use crate::count::{Counters, Ops};
use crate::decimal;
use crate::field::BABYBEAR_P;
use crate::lines;
use crate::size;
use crate::size::Size;
use crate::text;

verus! {

/// The name of the system in results.
pub const SYSTEM: &'static str = "risc0";

/// What is measured.
pub const ARTIFACT: &'static str = "succinct receipt";

/// Where the receipt of a guest is kept.
pub open spec fn receipt_place(name: Seq<char>) -> Seq<char> {
    "../artifacts/risc0/"@ + name + ".bin"@
}

/// Where the receipt of a guest is kept.
pub fn receipt_path(name: &str) -> (r: String)
    ensures
        r@ == "../artifacts/risc0/"@ + name@ + ".bin"@,
        r@ == receipt_place(name@),
{
    text::join3("../artifacts/risc0/", name, ".bin")
}

/// The components of a receipt without its public inputs, in the order of
/// their names.
pub open spec fn components(
    seal_words: usize,
    control_id: usize,
    control_inclusion_proof: usize,
) -> Seq<(&'static str, usize)> {
    seq![
        ("control_id", control_id),
        ("control_inclusion_proof", control_inclusion_proof),
        ("seal", (4 * seal_words) as usize),
    ]
}

/// The size of a receipt without its public inputs: the seal, the control ID
/// and its inclusion proof. Excluded are the claim, the hash function's name,
/// the verifier parameters, the journal and the metadata.
pub fn receipt_size(
    seal_words: usize,
    control_id: usize,
    control_inclusion_proof: usize,
) -> (r: Size)
    requires
        4 * seal_words + control_id + control_inclusion_proof <= usize::MAX,
    ensures
        r.components@ == components(seal_words, control_id, control_inclusion_proof),
        r.proof_bytes == 4 * seal_words + control_id + control_inclusion_proof,
{
    let v: Vec<(&'static str, usize)> = vec![
        ("control_id", control_id),
        ("control_inclusion_proof", control_inclusion_proof),
        ("seal", seal_words * 4),
    ];
    proof {
        assert(v@ =~= components(seal_words, control_id, control_inclusion_proof));
        size::lemma_total_of_three(v@);
    }
    Size::of(v)
}

/// The serialized sizes of the parts of a receipt.
#[derive(Clone, Copy, Debug)]
pub struct ReceiptBytes {
    pub seal_words: usize,
    pub seal: usize,
    pub control_id: usize,
    pub control_inclusion_proof: usize,
    pub claim: usize,
    pub hashfn: usize,
    pub verifier_parameters: usize,
    pub inner: usize,
    pub journal: usize,
    pub metadata: usize,
    pub receipt: usize,
}

/// The labelled sizes of a receipt.
pub open spec fn receipt_table(b: ReceiptBytes) -> Seq<(&'static str, usize)> {
    seq![
        ("seal (u32 words * 4)", (4 * b.seal_words) as usize),
        ("seal, bincode (adds 8-byte length)", b.seal),
        ("control_id", b.control_id),
        ("control_inclusion_proof", b.control_inclusion_proof),
        ("claim", b.claim),
        ("hashfn", b.hashfn),
        ("verifier_parameters", b.verifier_parameters),
        ("inner receipt total (incl. enum tag)", b.inner),
        ("journal", b.journal),
        ("metadata", b.metadata),
        ("receipt total", b.receipt),
    ]
}

/// The labelled sizes of a receipt.
pub fn receipt_rows(b: ReceiptBytes) -> (r: Vec<(&'static str, usize)>)
    requires
        4 * b.seal_words <= usize::MAX,
    ensures
        r@ == seq![
            ("seal (u32 words * 4)", (4 * b.seal_words) as usize),
            ("seal, bincode (adds 8-byte length)", b.seal),
            ("control_id", b.control_id),
            ("control_inclusion_proof", b.control_inclusion_proof),
            ("claim", b.claim),
            ("hashfn", b.hashfn),
            ("verifier_parameters", b.verifier_parameters),
            ("inner receipt total (incl. enum tag)", b.inner),
            ("journal", b.journal),
            ("metadata", b.metadata),
            ("receipt total", b.receipt),
        ],
        r@ == receipt_table(b),
{
    vec![
        ("seal (u32 words * 4)", b.seal_words * 4),
        ("seal, bincode (adds 8-byte length)", b.seal),
        ("control_id", b.control_id),
        ("control_inclusion_proof", b.control_inclusion_proof),
        ("claim", b.claim),
        ("hashfn", b.hashfn),
        ("verifier_parameters", b.verifier_parameters),
        ("inner receipt total (incl. enum tag)", b.inner),
        ("journal", b.journal),
        ("metadata", b.metadata),
        ("receipt total", b.receipt),
    ]
}

/// What a receipt is of.
pub open spec fn receipt_text(name: Seq<char>, hashfn: Seq<char>, seal_words: usize) -> Seq<char> {
    "guest = "@ + name + ", hashfn = "@ + hashfn + ", seal words = "@ + decimal::dec_text(
        seal_words as nat,
    )
}

/// What a receipt is of.
pub fn receipt_line(name: &str, hashfn: &str, seal_words: usize) -> (r: String)
    ensures
        r@ == "guest = "@ + name@ + ", hashfn = "@ + hashfn@ + ", seal words = "@
            + decimal::dec_text(seal_words as nat),
        r@ == receipt_text(name@, hashfn@, seal_words),
{
    let mut r = String::from_str("guest = ");
    r.append(name);
    r.append(", hashfn = ");
    r.append(hashfn);
    r.append(", seal words = ");
    decimal::put_number(&mut r, seal_words as u64);
    r
}

/// What an execution takes: its cycles and its segments.
pub open spec fn execution_text(name: Seq<char>, cycles: u64, segments: usize) -> Seq<char> {
    name + ": "@ + decimal::dec_text(cycles as nat) + " cycles, "@ + decimal::dec_text(
        segments as nat,
    ) + " segments"@
}

/// What an execution takes: its cycles and its segments.
pub fn execution_line(name: &str, cycles: u64, segments: usize) -> (r: String)
    ensures
        r@ == name@ + ": "@ + decimal::dec_text(cycles as nat) + " cycles, "@ + decimal::dec_text(
            segments as nat,
        ) + " segments"@,
        r@ == execution_text(name@, cycles, segments),
{
    let mut r = String::from_str(name);
    r.append(": ");
    decimal::put_number(&mut r, cycles);
    r.append(" cycles, ");
    decimal::put_number(&mut r, segments as u64);
    r.append(" segments");
    r
}

/// What the exponentiations took.
pub open spec fn pow_text(total: Ops) -> Seq<char> {
    "  (mul: + "@ + decimal::dec_text(total.pow_mul as nat) + " inside "@ + decimal::dec_text(
        total.pow_calls as nat,
    ) + " pow calls, exponent-dependent, not in the ledger)"@
}

/// The labelled permutations of a verification.
pub open spec fn perm_rows(c: Counters) -> Seq<(&'static str, usize)> {
    seq![
        ("hash_pair", c.pair_calls),
        ("hash_elem_slice", c.elem_perms),
        ("hash_ext_elem_slice", c.ext_perms),
        ("rng", c.rng_perms),
    ]
}

/// How many permutations the verification of a guest's receipt took.
pub open spec fn perms_text(name: Seq<char>, perms: nat) -> Seq<char> {
    "guest = "@ + name + ", poseidon2 permutations = "@ + decimal::dec_text(perms)
}

/// The lines that show the counts of a verification: permutations, field
/// operations and exponentiations.
pub fn count_lines(name: &str, counters: &Counters, total: Ops) -> (r: Vec<String>)
    requires
        counters.accounts_for(total),
    ensures
        r@.len() == 9,
        r@[0]@ == "guest = "@ + name@ + ", poseidon2 permutations = "@ + decimal::dec_text(
            counters.total_perms(),
        ),
        r@[0]@ == perms_text(name@, counters.total_perms()),
        forall|i: int|
            0 <= i < 4 ==> (#[trigger] r@[i + 1])@ == decimal::row(
                perm_rows(*counters)[i].1 as nat,
                perm_rows(*counters)[i].0@,
            ),
        r@[1]@ == decimal::row(counters.pair_calls as nat, "hash_pair"@),
        r@[2]@ == decimal::row(counters.elem_perms as nat, "hash_elem_slice"@),
        r@[3]@ == decimal::row(counters.ext_perms as nat, "hash_ext_elem_slice"@),
        r@[4]@ == decimal::row(counters.rng_perms as nat, "rng"@),
        r@[5]@ == lines::measured_text(
            count::BASE@,
            "mul"@,
            total.mul,
            counters.suite_mul,
            counters.field_of(total).residual.mul,
        ),
        r@[6]@ == lines::measured_text(
            count::BASE@,
            "add"@,
            total.add,
            counters.suite_add,
            counters.field_of(total).residual.add,
        ),
        r@[7]@ == lines::measured_text(
            count::BASE@,
            "sub"@,
            total.sub,
            counters.suite_sub,
            counters.field_of(total).residual.sub,
        ),
        r@[8]@ == pow_text(total),
{
    let f = counters.field(total);
    let (h, e) = (f.in_hash_suite, f.residual);
    let mut first = String::from_str("guest = ");
    first.append(name);
    first.append(", poseidon2 permutations = ");
    let perms: usize = counters.pair_calls + counters.elem_perms + counters.ext_perms
        + counters.rng_perms;
    decimal::put_number(&mut first, perms as u64);
    let mut last = String::from_str("  (mul: + ");
    decimal::put_number(&mut last, total.pow_mul);
    last.append(" inside ");
    decimal::put_number(&mut last, total.pow_calls);
    last.append(" pow calls, exponent-dependent, not in the ledger)");
    let mut r: Vec<String> = Vec::new();
    r.push(first);
    r.push(decimal::table_row(counters.pair_calls as u64, "hash_pair"));
    r.push(decimal::table_row(counters.elem_perms as u64, "hash_elem_slice"));
    r.push(decimal::table_row(counters.ext_perms as u64, "hash_ext_elem_slice"));
    r.push(decimal::table_row(counters.rng_perms as u64, "rng"));
    r.push(lines::measured(count::BASE, "mul", total.mul, h.mul, e.mul));
    r.push(lines::measured(count::BASE, "add", total.add, h.add, e.add));
    r.push(lines::measured(count::BASE, "sub", total.sub, h.sub, e.sub));
    r.push(last);
    r
}

/// The operation ledger of a verification.
#[derive(Debug)]
pub struct Ledger {
    pub system: &'static str,
    pub version: String,
    pub artifact: &'static str,
    pub hash: count::Hash,
    pub field: count::Field,
}

/// The ledger of a verification from what the suite counted and the counter
/// delta over the whole.
pub fn ledger(version: String, counters: &Counters, total: Ops) -> (r: Ledger)
    requires
        counters.accounts_for(total),
    ensures
        r.system == SYSTEM,
        r.version@ == version@,
        r.artifact == ARTIFACT,
        r.hash.function == count::FUNCTION,
        r.hash.state_cells == 24,
        r.hash.rate == 16,
        r.hash.rounds_full == 8,
        r.hash.rounds_partial == 21,
        r.hash.permutations == (count::Perms {
            hash_pair: counters.pair_calls,
            hash_elem_slice: counters.elem_perms,
            hash_ext_elem_slice: counters.ext_perms,
            rng: counters.rng_perms,
            total: counters.total_perms() as usize,
        }),
        r.hash.permutations == counters.perms(),
        counters.made(r.hash.calls),
        r.hash.calls.hash_pair == counters.pair_calls,
        r.hash.calls.hash_elem_slice == counters.elem_calls,
        r.hash.calls.hash_elem_slice_len_histogram@ == counters.elem_hist@,
        r.hash.calls.hash_ext_elem_slice == counters.ext_calls,
        r.hash.calls.hash_ext_elem_slice_len_histogram@ == counters.ext_hist@,
        r.hash.calls.rng_mix == counters.rng_mixes,
        r.hash.calls.rng_elems_squeezed == counters.rng_squeezed,
        r.field == counters.field_of(total),
{
    Ledger {
        system: SYSTEM,
        version,
        artifact: ARTIFACT,
        hash: counters.report(),
        field: counters.field(total),
    }
}

/// The parameters of the proof system.
#[derive(Debug)]
pub struct Params {
    pub system: &'static str,
    pub version: String,
    pub artifact: &'static str,
    pub field: FieldParams,
    pub fri: FriParams,
    pub trace_log_size: u32,
    pub security: Security,
}

/// The base field and its extension.
#[derive(Clone, Copy, Debug)]
pub struct FieldParams {
    pub base: &'static str,
    pub modulus: u32,
    pub extension_degree: usize,
}

/// The parameters of the low-degree test.
#[derive(Clone, Copy, Debug, PartialEq, Eq, Structural)]
pub struct FriParams {
    pub log_blowup: u32,
    pub queries: usize,
    pub log_fold: u32,
    pub pow_bits: u32,
}

/// What is stated of the security.
#[derive(Clone, Copy, Debug)]
pub struct Security {
    pub stated_bits: u32,
    pub basis: &'static str,
    pub source: &'static str,
}

/// `risc0_zkp::INV_RATE`.
#[verifier::external_body]
fn inv_rate() -> (r: usize)
    ensures
        r == 4,
{
    risc0_zkp::INV_RATE
}

/// `risc0_zkp::QUERIES`.
#[verifier::external_body]
fn queries() -> (r: usize)
    ensures
        r == 50,
{
    risc0_zkp::QUERIES
}

/// `risc0_zkp::FRI_FOLD`.
#[verifier::external_body]
fn fri_fold() -> (r: usize)
    ensures
        r == 16,
{
    risc0_zkp::FRI_FOLD
}

/// `risc0_zkp::MAX_CYCLES_PO2`.
#[verifier::external_body]
fn max_cycles_po2() -> (r: usize)
    ensures
        r == 24,
{
    risc0_zkp::MAX_CYCLES_PO2
}

/// How often two divides a number.
pub fn trailing_zeros(n: usize) -> (r: u32)
    requires
        n > 0,
    ensures
        (n as nat) % pow2(r as nat) == 0,
        ((n as nat) / pow2(r as nat)) % 2 == 1,
{
    let mut rest: usize = n;
    let mut r: u32 = 0;
    proof {
        lemma2_to64();
    }
    while rest % 2 == 0
        invariant
            0 < rest <= n <= usize::MAX,
            r <= 64,
            n == rest * pow2(r as nat),
        decreases rest,
    {
        proof {
            lemma_pow2_pos(r as nat);
            lemma_pow2_unfold((r + 1) as nat);
            let (h, p) = ((rest / 2) as int, pow2(r as nat) as int);
            assert((2 * h) * p == h * (2 * p)) by (nonlinear_arith);
            if r == 64 {
                lemma2_to64_rest();
                assert(n >= p) by (nonlinear_arith)
                    requires
                        n == rest * p,
                        rest >= 1,
                        p > 0,
                ;
            }
        }
        rest = rest / 2;
        r += 1;
    }
    proof {
        let p = pow2(r as nat) as int;
        lemma_pow2_pos(r as nat);
        lemma_mod_multiples_basic(rest as int, p);
        lemma_div_multiples_vanish(rest as int, p);
        vstd::arithmetic::mul::lemma_mul_is_commutative(rest as int, p);
    }
    r
}

/// Why the parameters cannot be read off a receipt.
#[derive(Clone, Copy, Debug, PartialEq, Eq, Structural)]
pub enum ParamsError {
    /// The seal ends before the trace size.
    ShortSeal,
    /// The trace is larger than the verifier accepts.
    TraceTooLarge,
}

/// The base-two logarithm of the trace size: the seal starts with the
/// circuit's globals, `output_size` words, followed by one raw element that
/// holds it.
pub fn trace_log_size(seal: &Vec<u32>, output_size: usize) -> (r: Result<u32, ParamsError>)
    ensures
        r == po2_of(seal@, output_size),
        match r {
            Ok(po2) => output_size < seal@.len() && po2 == seal@[output_size as int] && po2 <= 24,
            Err(ParamsError::ShortSeal) => output_size >= seal@.len(),
            Err(ParamsError::TraceTooLarge) => output_size < seal@.len()
                && seal@[output_size as int] > 24,
        },
{
    if output_size >= seal.len() {
        return Err(ParamsError::ShortSeal);
    }
    let po2 = seal[output_size];
    if po2 as usize > max_cycles_po2() {
        return Err(ParamsError::TraceTooLarge);
    }
    Ok(po2)
}

/// The base-two logarithm of the trace size that a seal gives.
pub open spec fn po2_of(seal: Seq<u32>, output_size: usize) -> Result<u32, ParamsError> {
    if output_size >= seal.len() {
        Err(ParamsError::ShortSeal)
    } else if seal[output_size as int] > 24 {
        Err(ParamsError::TraceTooLarge)
    } else {
        Ok(seal[output_size as int])
    }
}

/// What the security statement rests on.
pub const BASIS: &'static str = "conjectured; no proof-of-work grinding";

/// Where the security statement stands.
pub const SOURCE: &'static str = "risc0-zkp/src/lib.rs, doc comment on QUERIES";

/// Whether `p` describes the verifier and a trace of this size.
pub open spec fn describes(p: Params, version: Seq<char>, po2: u32) -> bool {
    &&& p.system == SYSTEM
    &&& p.version@ == version
    &&& p.artifact == ARTIFACT
    &&& p.field.base == count::BASE
    &&& p.field.modulus == BABYBEAR_P
    &&& p.field.extension_degree == 4
    &&& p.fri == (FriParams { log_blowup: 2, queries: 50, log_fold: 4, pow_bits: 0 })
    &&& p.trace_log_size == po2
    &&& p.security.stated_bits == 97
    &&& p.security.basis == BASIS
    &&& p.security.source == SOURCE
}

/// The parameters that the verifier is compiled with and the trace size that
/// a receipt's seal gives.
pub fn params(version: String, seal: &Vec<u32>, output_size: usize) -> (r: Result<
    Params,
    ParamsError,
>)
    ensures
        match r {
            Ok(p) => {
                &&& output_size < seal@.len() && seal@[output_size as int] <= 24
                &&& po2_of(seal@, output_size) matches Ok(po2) && describes(p, version@, po2)
                &&& p.system == SYSTEM
                &&& p.version@ == version@
                &&& p.artifact == ARTIFACT
                &&& p.field.base == count::BASE
                &&& p.field.modulus == BABYBEAR_P
                &&& p.field.extension_degree == 4
                &&& p.fri == (FriParams { log_blowup: 2, queries: 50, log_fold: 4, pow_bits: 0 })
                &&& p.trace_log_size == seal@[output_size as int]
                &&& p.security.stated_bits == 97
                &&& p.security.basis == BASIS
                &&& p.security.source == SOURCE
            },
            Err(ParamsError::ShortSeal) => output_size >= seal@.len(),
            Err(ParamsError::TraceTooLarge) => output_size < seal@.len()
                && seal@[output_size as int] > 24,
        },
{
    let trace_log_size = match trace_log_size(seal, output_size) {
        Ok(po2) => po2,
        Err(e) => {
            return Err(e);
        },
    };
    let log_blowup = trailing_zeros(inv_rate());
    let log_fold = trailing_zeros(fri_fold());
    proof {
        lemma2_to64();
        lemma_trailing_zeros_unique(4, log_blowup as nat, 2);
        lemma_trailing_zeros_unique(16, log_fold as nat, 4);
    }
    Ok(
        Params {
            system: SYSTEM,
            version,
            artifact: ARTIFACT,
            field: FieldParams {
                base: count::BASE,
                modulus: BABYBEAR_P,
                extension_degree: count::EXT_SIZE,
            },
            fri: FriParams { log_blowup, queries: queries(), log_fold, pow_bits: 0 },
            trace_log_size,
            security: Security { stated_bits: 97, basis: BASIS, source: SOURCE },
        },
    )
}

/// A power of two has one exponent.
proof fn lemma_trailing_zeros_unique(n: nat, r: nat, k: nat)
    requires
        n == pow2(k),
        n % pow2(r) == 0,
        (n / pow2(r)) % 2 == 1,
    ensures
        r == k,
{
    lemma_pow2_pos(r);
    lemma_pow2_pos(k);
    if r < k {
        lemma_pow2_adds(r, (k - r) as nat);
        lemma_div_multiples_vanish(pow2((k - r) as nat) as int, pow2(r) as int);
        lemma_pow2_unfold((k - r) as nat);
    } else if r > k {
        lemma_pow2_strictly_increases(k, r);
        lemma_small_mod(n, pow2(r));
    }
}

/// Each part of a receipt stands under its own label, the seal's words by
/// their four bytes each, and there are no other rows.
pub proof fn law_receipt_rows_are_labelled(b: ReceiptBytes, seal: usize)
    requires
        seal == b.seal_words + b.seal_words + b.seal_words + b.seal_words,
    ensures
        ({
            let rows = receipt_table(b);
            &&& rows.len() == 11
            &&& rows.contains(("seal (u32 words * 4)", seal))
            &&& rows.contains(("seal, bincode (adds 8-byte length)", b.seal))
            &&& rows.contains(("control_id", b.control_id))
            &&& rows.contains(("control_inclusion_proof", b.control_inclusion_proof))
            &&& rows.contains(("claim", b.claim))
            &&& rows.contains(("hashfn", b.hashfn))
            &&& rows.contains(("verifier_parameters", b.verifier_parameters))
            &&& rows.contains(("inner receipt total (incl. enum tag)", b.inner))
            &&& rows.contains(("journal", b.journal))
            &&& rows.contains(("metadata", b.metadata))
            &&& rows.contains(("receipt total", b.receipt))
        }),
{
    let rows = receipt_table(b);
    assert(rows[0] == ("seal (u32 words * 4)", seal));
    assert(rows[1] == ("seal, bincode (adds 8-byte length)", b.seal));
    assert(rows[2] == ("control_id", b.control_id));
    assert(rows[3] == ("control_inclusion_proof", b.control_inclusion_proof));
    assert(rows[4] == ("claim", b.claim));
    assert(rows[5] == ("hashfn", b.hashfn));
    assert(rows[6] == ("verifier_parameters", b.verifier_parameters));
    assert(rows[7] == ("inner receipt total (incl. enum tag)", b.inner));
    assert(rows[8] == ("journal", b.journal));
    assert(rows[9] == ("metadata", b.metadata));
    assert(rows[10] == ("receipt total", b.receipt));
}

/// Each component of a receipt stands under its own name, the seal's words by
/// their four bytes each.
pub proof fn law_components_are_named(
    seal_words: usize,
    control_id: usize,
    control_inclusion_proof: usize,
    seal: usize,
)
    requires
        seal == seal_words + seal_words + seal_words + seal_words,
    ensures
        ({
            let c = components(seal_words, control_id, control_inclusion_proof);
            &&& c.len() == 3
            &&& c.contains(("control_id", control_id))
            &&& c.contains(("control_inclusion_proof", control_inclusion_proof))
            &&& c.contains(("seal", seal))
            &&& size::total(c) == control_id + control_inclusion_proof + seal
        }),
{
    let c = components(seal_words, control_id, control_inclusion_proof);
    assert(c[0] == ("control_id", control_id));
    assert(c[1] == ("control_inclusion_proof", control_inclusion_proof));
    assert(c[2] == ("seal", seal));
    size::lemma_total_of_three(c);
}

/// What the exponentiations took is shown number by number, each before the
/// words that say what it counts.
pub proof fn law_pow_text(total: Ops)
    ensures
        ({
            let s = pow_text(total);
            let (m, c) = (
                decimal::dec_text(total.pow_mul as nat),
                decimal::dec_text(total.pow_calls as nat),
            );
            let (p, q, r) = (
                "  (mul: + "@,
                " inside "@,
                " pow calls, exponent-dependent, not in the ledger)"@,
            );
            &&& text::stands_between(s, p, m, q)
            &&& text::stands_between(s, q, c, r)
            &&& s.len() == p.len() + m.len() + q.len() + c.len() + r.len()
        }),
{
    broadcast use {text::lemma_stands_at_end, text::lemma_stands_earlier};

    let (p, m, q) = ("  (mul: + "@, decimal::dec_text(total.pow_mul as nat), " inside "@);
    assert(p + m + q =~= Seq::<char>::empty() + p + m + q);
}

/// The system and its artifact are named, and where its security statement
/// stands.
pub proof fn law_names()
    ensures
        SYSTEM@ == "risc0"@,
        ARTIFACT@ == "succinct receipt"@,
        BASIS@ == "conjectured; no proof-of-work grinding"@,
        SOURCE@ == "risc0-zkp/src/lib.rs, doc comment on QUERIES"@,
{
}

/// A receipt is kept under its guest's whole name, so that no two guests
/// share a file.
pub proof fn law_receipt_place(a: Seq<char>, b: Seq<char>)
    ensures
        receipt_place(a) == "../artifacts/risc0/"@ + a + ".bin"@,
        a != b ==> receipt_place(a) != receipt_place(b),
{
    text::lemma_held_apart("../artifacts/risc0/"@, a, b, ".bin"@);
}

/// What a receipt is of is shown part by part, each behind the words that say
/// what it is.
pub proof fn law_receipt_text(name: Seq<char>, hashfn: Seq<char>, seal_words: usize)
    ensures
        ({
            let (s, d) = (
                receipt_text(name, hashfn, seal_words),
                decimal::dec_text(seal_words as nat),
            );
            &&& text::stands_between(s, "guest = "@, name, ", hashfn = "@)
            &&& text::stands_between(s, ", hashfn = "@, hashfn, ", seal words = "@)
            &&& s.skip(s.len() - d.len()) == d
            &&& s.len() == "guest = "@.len() + name.len() + ", hashfn = "@.len() + hashfn.len()
                + ", seal words = "@.len() + d.len()
        }),
{
    broadcast use {text::lemma_stands_at_end, text::lemma_stands_earlier};

    let (p, q) = ("guest = "@, ", hashfn = "@);
    assert(p + name + q =~= Seq::<char>::empty() + p + name + q);
    let (s, d) = (receipt_text(name, hashfn, seal_words), decimal::dec_text(seal_words as nat));
    assert(s.skip(s.len() - d.len()) =~= d);
}

/// What an execution takes is shown behind its guest's name, each number
/// before the words that say what it counts.
pub proof fn law_execution_text(name: Seq<char>, cycles: u64, segments: usize)
    ensures
        ({
            let s = execution_text(name, cycles, segments);
            let (c, n) = (decimal::dec_text(cycles as nat), decimal::dec_text(segments as nat));
            &&& s.take(name.len() as int) == name
            &&& text::stands_between(s, ": "@, c, " cycles, "@)
            &&& text::stands_between(s, " cycles, "@, n, " segments"@)
            &&& s.len() == name.len() + ": "@.len() + c.len() + " cycles, "@.len() + n.len()
                + " segments"@.len()
        }),
{
    broadcast use {text::lemma_stands_at_end, text::lemma_stands_earlier};

    assert(execution_text(name, cycles, segments).take(name.len() as int) =~= name);
}

/// The permutations of a verification are shown behind its guest's name.
pub proof fn law_perms_text(name: Seq<char>, perms: nat)
    ensures
        ({
            let (s, d) = (perms_text(name, perms), decimal::dec_text(perms));
            &&& text::stands_between(s, "guest = "@, name, ", poseidon2 permutations = "@)
            &&& s.skip(s.len() - d.len()) == d
        }),
{
    broadcast use {text::lemma_stands_at_end, text::lemma_stands_earlier};

    let (p, q) = ("guest = "@, ", poseidon2 permutations = "@);
    assert(p + name + q =~= Seq::<char>::empty() + p + name + q);
    let (s, d) = (perms_text(name, perms), decimal::dec_text(perms));
    assert(s.skip(s.len() - d.len()) =~= d);
}

/// The permutations of each method stand under its own label.
pub proof fn law_perm_rows_are_labelled(c: Counters)
    ensures
        ({
            let rows = perm_rows(c);
            &&& rows.len() == 4
            &&& rows.contains(("hash_pair", c.pair_calls))
            &&& rows.contains(("hash_elem_slice", c.elem_perms))
            &&& rows.contains(("hash_ext_elem_slice", c.ext_perms))
            &&& rows.contains(("rng", c.rng_perms))
        }),
{
    let rows = perm_rows(c);
    assert(rows[0] == ("hash_pair", c.pair_calls));
    assert(rows[1] == ("hash_elem_slice", c.elem_perms));
    assert(rows[2] == ("hash_ext_elem_slice", c.ext_perms));
    assert(rows[3] == ("rng", c.rng_perms));
}

/// The trace size is the word behind the circuit's globals, where the seal
/// reaches that far and the word is no larger than the verifier accepts.
pub proof fn law_trace_size(globals: Seq<u32>, po2: u32, rest: Seq<u32>)
    requires
        globals.len() <= usize::MAX,
    ensures
        po2 <= 24 ==> po2_of(globals + seq![po2] + rest, globals.len() as usize) == Ok::<
            _,
            ParamsError,
        >(po2),
        po2 > 24 ==> po2_of(globals + seq![po2] + rest, globals.len() as usize) == Err::<u32, _>(
            ParamsError::TraceTooLarge,
        ),
        po2_of(globals, globals.len() as usize) == Err::<u32, _>(ParamsError::ShortSeal),
{
    assert((globals + seq![po2] + rest)[globals.len() as int] == po2);
}

/// Parameters describe the verifier exactly where they carry its version and
/// numbers, over the field of `2^31 - 2^27 + 1` elements and its extension of
/// degree four, at 97 bits without grinding.
pub proof fn law_describes(p: Params, version: Seq<char>, po2: u32)
    requires
        describes(p, version, po2),
    ensures
        p.system@ == "risc0"@,
        p.version@ == version,
        p.artifact@ == "succinct receipt"@,
        p.field.base@ == "babybear"@,
        p.field.modulus == 0x8000_0000 - 0x800_0000 + 1,
        p.field.extension_degree == 4,
        p.fri.log_blowup == 2,
        p.fri.queries == 50,
        p.fri.log_fold == 4,
        p.fri.pow_bits == 0,
        p.trace_log_size == po2,
        p.security.stated_bits == 97,
        p.security.basis@ == "conjectured; no proof-of-work grinding"@,
        p.security.source@ == "risc0-zkp/src/lib.rs, doc comment on QUERIES"@,
{
}

} // verus!
