//! Measurements of the SP1 compressed proof and of the shrink proof.

use vstd::arithmetic::div_mod::*;
use vstd::arithmetic::mul::*;
use vstd::prelude::*;
use vstd::string::StringExecFns;

use crate::decimal;
use crate::field::KOALABEAR_P;
use crate::guests::Guest;
use crate::lines;
use crate::size;
use crate::size::Size;
use crate::text;

verus! {

/// The name of the system in results.
pub const SYSTEM: &'static str = "sp1";

/// The proof that the recursion ends on.
pub const COMPRESSED: &'static str = "compressed proof";

/// The proof of the step behind it: the compressed proof verified inside a
/// smaller machine at a higher blowup.
pub const SHRINK: &'static str = "shrink proof";

/// Where what belongs to a guest is kept.
pub open spec fn place(name: Seq<char>, suffix: Seq<char>) -> Seq<char> {
    "../artifacts/sp1/"@ + name + suffix
}

/// Where the proof and the verifying key of a guest are kept.
pub fn paths(name: &str) -> (r: (String, String))
    ensures
        r.0@ == "../artifacts/sp1/"@ + name@ + ".bin"@,
        r.1@ == "../artifacts/sp1/"@ + name@ + ".vk"@,
        r.0@ == place(name@, ".bin"@),
        r.1@ == place(name@, ".vk"@),
{
    (
        text::join3("../artifacts/sp1/", name, ".bin"),
        text::join3("../artifacts/sp1/", name, ".vk"),
    )
}

/// Where the shrink proof of a guest is kept.
pub fn shrink_path(name: &str) -> (r: String)
    ensures
        r@ == "../artifacts/sp1/"@ + name@ + ".shrink.bin"@,
        r@ == place(name@, ".shrink.bin"@),
{
    text::join3("../artifacts/sp1/", name, ".shrink.bin")
}

/// Where the executable of a guest is built to.
pub open spec fn elf_place(name: Seq<char>) -> Seq<char> {
    "../programs/"@ + name + "/target/elf-compilation/riscv64im-succinct-zkvm-elf/release/"@ + name
}

/// Where the executable of a guest is built to; none for a name that no guest has.
pub fn elf_path(name: &str) -> (r: Option<String>)
    ensures
        match r {
            Some(path) => (exists|g: Guest| name@ == #[trigger] g.label()@) && path@ == elf_place(
                name@,
            ) && path@
                == "../programs/"@ + name@
                + "/target/elf-compilation/riscv64im-succinct-zkvm-elf/release/"@ + name@,
            None => forall|g: Guest| name@ != #[trigger] g.label()@,
        },
{
    match Guest::parse(name) {
        Some(g) => {
            assert(name@ == g.label()@);
            let dir = text::join3(
                "../programs/",
                name,
                "/target/elf-compilation/riscv64im-succinct-zkvm-elf/release/",
            );
            Some(text::join2(dir.as_str(), name))
        },
        None => None,
    }
}

/// The cycles of a shard when `fib` is proved; the default would fit it in
/// one shard.
pub const FIB_SHARD_SIZE: u64 = 0x40_0000;

/// The cycles of a shard by default.
pub const SHARD_SIZE: u64 = 0x100_0000;

/// The cycles of a shard when a guest is proved.
pub open spec fn shard_cycles(name: Seq<char>) -> u64 {
    if name == "fib"@ {
        FIB_SHARD_SIZE
    } else {
        SHARD_SIZE
    }
}

/// The cycles of a shard when a guest is proved.
pub fn shard_size(name: &str) -> (r: u64)
    ensures
        r == shard_cycles(name@),
        r == if name@ == "fib"@ {
            FIB_SHARD_SIZE
        } else {
            SHARD_SIZE
        },
{
    if text::same(name, "fib") {
        FIB_SHARD_SIZE
    } else {
        SHARD_SIZE
    }
}

/// How many shards an execution spans.
pub open spec fn shard_count(cycles: u64, shard_size: u64) -> nat {
    ((cycles + shard_size - 1) / (shard_size as int)) as nat
}

/// How many shards an execution spans.
pub fn shards(cycles: u64, shard_size: u64) -> (r: u64)
    requires
        shard_size > 0,
    ensures
        r == shard_count(cycles, shard_size),
        r == (cycles + shard_size - 1) / (shard_size as int),
{
    let q: u64 = cycles / shard_size;
    proof {
        let (c, s) = (cycles as int, shard_size as int);
        lemma_fundamental_div_mod(c, s);
        lemma_mul_is_commutative(s, c / s);
        if c % s == 0 {
            lemma_fundamental_div_mod_converse(c + s - 1, s, c / s, s - 1);
        } else {
            lemma_mul_is_distributive_add_other_way(s, c / s, 1);
            lemma_fundamental_div_mod_converse(c + s - 1, s, c / s + 1, c % s - 1);
            lemma_div_is_ordered_by_denominator(c, 1, s);
            if s == 1 {
                assert(c % 1 == 0);
            } else {
                lemma_div_is_ordered_by_denominator(c, 2, s);
            }
        }
    }
    if cycles % shard_size == 0 {
        q
    } else {
        q + 1
    }
}

/// What an execution takes: its cycles and its shards.
pub open spec fn execution_text(name: Seq<char>, cycles: u64, shard_size: u64) -> Seq<char> {
    name + ": "@ + decimal::dec_text(cycles as nat) + " cycles, shard size "@ + decimal::dec_text(
        shard_size as nat,
    ) + ", "@ + decimal::dec_text(
        ((cycles + shard_size - 1) / (shard_size as int)) as nat,
    ) + " shards"@
}

/// What an execution takes: its cycles and its shards.
pub fn execution_line(name: &str, cycles: u64, shard_size: u64) -> (r: String)
    requires
        shard_size > 0,
    ensures
        r@ == execution_text(name@, cycles, shard_size),
{
    let mut r = String::from_str(name);
    r.append(": ");
    decimal::put_number(&mut r, cycles);
    r.append(" cycles, shard size ");
    decimal::put_number(&mut r, shard_size);
    r.append(", ");
    decimal::put_number(&mut r, shards(cycles, shard_size));
    r.append(" shards");
    r
}

/// The serialized sizes of the parts of a shard proof.
#[derive(Clone, Copy, Debug)]
pub struct ShardBytes {
    pub public_values: usize,
    pub main_commitment: usize,
    pub logup_gkr_proof: usize,
    pub zerocheck_proof: usize,
    pub opened_values: usize,
    pub evaluation_proof: usize,
    pub pcs_proof: usize,
    pub fri_commitments: usize,
    pub component_openings: usize,
    pub fri_openings: usize,
    pub batch_evaluations: usize,
    pub sumcheck_proof: usize,
    pub jagged_eval_proof: usize,
    pub total: usize,
}

/// The serialized sizes around the shard proof of a compressed proof.
#[derive(Clone, Copy, Debug)]
pub struct CompressedBytes {
    pub recursion_vk: usize,
    pub vk_merkle_proof: usize,
    pub proof: usize,
    pub public_values: usize,
    pub sp1_version: usize,
    pub tee_proof: usize,
    pub file: usize,
    pub vk_file: usize,
}

/// The serialized sizes around the shard proof of a shrink proof.
#[derive(Clone, Copy, Debug)]
pub struct ShrinkBytes {
    pub shrink_vk: usize,
    pub vk_merkle_proof: usize,
    pub file: usize,
}

/// The labelled sizes of a shard proof and its parts.
pub open spec fn shard_rows(s: ShardBytes) -> Seq<(&'static str, usize)> {
    seq![
        ("shard proof: public_values", s.public_values),
        ("shard proof: main_commitment", s.main_commitment),
        ("shard proof: logup_gkr_proof", s.logup_gkr_proof),
        ("shard proof: zerocheck_proof", s.zerocheck_proof),
        ("shard proof: opened_values", s.opened_values),
        ("shard proof: evaluation_proof", s.evaluation_proof),
        ("  pcs_proof (stacked BaseFold)", s.pcs_proof),
        ("    fri_commitments", s.fri_commitments),
        ("    component query openings + paths", s.component_openings),
        ("    FRI query openings + paths", s.fri_openings),
        ("    batch_evaluations", s.batch_evaluations),
        ("  sumcheck_proof", s.sumcheck_proof),
        ("  jagged_eval_proof", s.jagged_eval_proof),
        ("shard proof total", s.total),
    ]
}

fn shard_table(s: ShardBytes) -> (r: Vec<(&'static str, usize)>)
    ensures
        r@ == shard_rows(s),
{
    let r: Vec<(&'static str, usize)> = vec![
        ("shard proof: public_values", s.public_values),
        ("shard proof: main_commitment", s.main_commitment),
        ("shard proof: logup_gkr_proof", s.logup_gkr_proof),
        ("shard proof: zerocheck_proof", s.zerocheck_proof),
        ("shard proof: opened_values", s.opened_values),
        ("shard proof: evaluation_proof", s.evaluation_proof),
        ("  pcs_proof (stacked BaseFold)", s.pcs_proof),
        ("    fri_commitments", s.fri_commitments),
        ("    component query openings + paths", s.component_openings),
        ("    FRI query openings + paths", s.fri_openings),
        ("    batch_evaluations", s.batch_evaluations),
        ("  sumcheck_proof", s.sumcheck_proof),
        ("  jagged_eval_proof", s.jagged_eval_proof),
        ("shard proof total", s.total),
    ];
    assert(r@ =~= shard_rows(s));
    r
}

/// The labelled sizes of a compressed proof: those of its shard proof and of
/// what is around it.
pub open spec fn compressed_table(s: ShardBytes, b: CompressedBytes) -> Seq<(&'static str, usize)> {
    shard_rows(s) + seq![
        ("recursion vk (inside proof)", b.recursion_vk),
        ("vk_merkle_proof", b.vk_merkle_proof),
        ("proof total (incl. enum tag)", b.proof),
        ("public_values", b.public_values),
        ("sp1_version", b.sp1_version),
        ("tee_proof", b.tee_proof),
        ("file total", b.file),
        ("verifying key file", b.vk_file),
    ]
}

/// The labelled sizes of a compressed proof.
pub fn compressed_rows(s: ShardBytes, b: CompressedBytes) -> (r: Vec<(&'static str, usize)>)
    ensures
        r@ == shard_rows(s) + seq![
            ("recursion vk (inside proof)", b.recursion_vk),
            ("vk_merkle_proof", b.vk_merkle_proof),
            ("proof total (incl. enum tag)", b.proof),
            ("public_values", b.public_values),
            ("sp1_version", b.sp1_version),
            ("tee_proof", b.tee_proof),
            ("file total", b.file),
            ("verifying key file", b.vk_file),
        ],
        r@ == compressed_table(s, b),
{
    let mut r = shard_table(s);
    r.push(("recursion vk (inside proof)", b.recursion_vk));
    r.push(("vk_merkle_proof", b.vk_merkle_proof));
    r.push(("proof total (incl. enum tag)", b.proof));
    r.push(("public_values", b.public_values));
    r.push(("sp1_version", b.sp1_version));
    r.push(("tee_proof", b.tee_proof));
    r.push(("file total", b.file));
    r.push(("verifying key file", b.vk_file));
    r
}

/// The labelled sizes of a shrink proof: those of its shard proof and of what
/// is around it.
pub open spec fn shrink_table(s: ShardBytes, b: ShrinkBytes) -> Seq<(&'static str, usize)> {
    shard_rows(s) + seq![
        ("shrink vk (inside proof, constant)", b.shrink_vk),
        ("vk_merkle_proof (constant)", b.vk_merkle_proof),
        ("file total", b.file),
    ]
}

/// The labelled sizes of a shrink proof.
pub fn shrink_rows(s: ShardBytes, b: ShrinkBytes) -> (r: Vec<(&'static str, usize)>)
    ensures
        r@ == shard_rows(s) + seq![
            ("shrink vk (inside proof, constant)", b.shrink_vk),
            ("vk_merkle_proof (constant)", b.vk_merkle_proof),
            ("file total", b.file),
        ],
        r@ == shrink_table(s, b),
{
    let mut r = shard_table(s);
    r.push(("shrink vk (inside proof, constant)", b.shrink_vk));
    r.push(("vk_merkle_proof (constant)", b.vk_merkle_proof));
    r.push(("file total", b.file));
    r
}

/// The components of a compressed proof, in the order of their names.
pub open spec fn compressed_components(
    shard_proof: usize,
    public_values: usize,
    recursion_vk: usize,
    vk_merkle_proof: usize,
) -> Seq<(&'static str, usize)> {
    seq![
        ("recursion_vk", recursion_vk),
        ("shard_proof_without_public_values", (shard_proof - public_values) as usize),
        ("vk_merkle_proof", vk_merkle_proof),
    ]
}

/// The size of a compressed proof without its public inputs: the shard proof
/// without its public values, the recursion key and its Merkle proof.
/// Excluded are the public values, the version and the TEE proof.
pub fn compressed_size(
    shard_proof: usize,
    public_values: usize,
    recursion_vk: usize,
    vk_merkle_proof: usize,
) -> (r: Size)
    requires
        public_values <= shard_proof,
        shard_proof - public_values + recursion_vk + vk_merkle_proof <= usize::MAX,
    ensures
        r.components@ == compressed_components(
            shard_proof,
            public_values,
            recursion_vk,
            vk_merkle_proof,
        ),
        r.proof_bytes == shard_proof - public_values + recursion_vk + vk_merkle_proof,
{
    let shard: usize = shard_proof - public_values;
    let v: Vec<(&'static str, usize)> = vec![
        ("recursion_vk", recursion_vk),
        ("shard_proof_without_public_values", shard),
        ("vk_merkle_proof", vk_merkle_proof),
    ];
    proof {
        assert(v@ =~= compressed_components(
            shard_proof,
            public_values,
            recursion_vk,
            vk_merkle_proof,
        ));
        size::lemma_total_of_three(v@);
    }
    Size::of(v)
}

/// The components of a shrink proof, in the order of their names.
pub open spec fn shrink_components(
    shard_proof: usize,
    public_values: usize,
    shrink_vk: usize,
    vk_merkle_proof: usize,
) -> Seq<(&'static str, usize)> {
    seq![
        ("shard_proof_without_public_values", (shard_proof - public_values) as usize),
        ("shrink_vk", shrink_vk),
        ("vk_merkle_proof", vk_merkle_proof),
    ]
}

/// The size of a shrink proof without its public inputs. The key inside it is
/// the fixed shrink key and the Merkle proof the fixed path to it, so that a
/// verifier can hold both as constants.
pub fn shrink_size(
    shard_proof: usize,
    public_values: usize,
    shrink_vk: usize,
    vk_merkle_proof: usize,
) -> (r: Size)
    requires
        public_values <= shard_proof,
        shard_proof - public_values + shrink_vk + vk_merkle_proof <= usize::MAX,
    ensures
        r.components@ == shrink_components(shard_proof, public_values, shrink_vk, vk_merkle_proof),
        r.proof_bytes == shard_proof - public_values + shrink_vk + vk_merkle_proof,
{
    let shard: usize = shard_proof - public_values;
    let v: Vec<(&'static str, usize)> = vec![
        ("shard_proof_without_public_values", shard),
        ("shrink_vk", shrink_vk),
        ("vk_merkle_proof", vk_merkle_proof),
    ];
    proof {
        assert(v@ =~= shrink_components(shard_proof, public_values, shrink_vk, vk_merkle_proof));
        size::lemma_total_of_three(v@);
    }
    Size::of(v)
}

/// Proofs whose parts have the same sizes have the same size whatever their
/// public values.
pub proof fn law_size_ignores_public_values(
    shard_proof: usize,
    public_values: usize,
    other_proof: usize,
    other_values: usize,
    key: usize,
    vk_merkle_proof: usize,
)
    requires
        public_values <= shard_proof,
        other_values <= other_proof,
        shard_proof - public_values == other_proof - other_values,
    ensures
        compressed_components(shard_proof, public_values, key, vk_merkle_proof)
            == compressed_components(other_proof, other_values, key, vk_merkle_proof),
        shrink_components(shard_proof, public_values, key, vk_merkle_proof) == shrink_components(
            other_proof,
            other_values,
            key,
            vk_merkle_proof,
        ),
        size::total(compressed_components(shard_proof, public_values, key, vk_merkle_proof))
            == shard_proof - public_values + key + vk_merkle_proof,
        size::total(shrink_components(shard_proof, public_values, key, vk_merkle_proof))
            == shard_proof - public_values + key + vk_merkle_proof,
{
    size::lemma_total_of_three(
        compressed_components(shard_proof, public_values, key, vk_merkle_proof),
    );
    size::lemma_total_of_three(shrink_components(shard_proof, public_values, key, vk_merkle_proof));
}

/// Field operations.
#[derive(Clone, Copy, Debug, PartialEq, Eq, Structural)]
pub struct Ops {
    pub mul: u64,
    pub add: u64,
    pub sub: u64,
}

/// A snapshot of the field's and the permutation's counters.
#[derive(Clone, Copy, Debug, PartialEq, Eq, Structural)]
pub struct Snapshot {
    /// All field operations.
    pub total: Ops,
    /// Those inside exponentiations.
    pub in_pow: Ops,
    /// Those inside permutations.
    pub in_hash: Ops,
    pub perm_compress: u64,
    pub perm_sponge: u64,
    pub perm_duplex: u64,
    pub pow_calls: u64,
    pub inv_calls: u64,
}

impl Ops {
    /// No counter is behind `start`.
    pub open spec fn follows(self, start: Ops) -> bool {
        start.mul <= self.mul && start.add <= self.add && start.sub <= self.sub
    }

    /// Whether no counter is behind `start`.
    pub fn is_after(self, start: Ops) -> (r: bool)
        ensures
            r == self.follows(start),
    {
        start.mul <= self.mul && start.add <= self.add && start.sub <= self.sub
    }

    /// The counters of `start` taken from these.
    pub open spec fn minus(self, start: Ops) -> Ops {
        Ops {
            mul: (self.mul - start.mul) as u64,
            add: (self.add - start.add) as u64,
            sub: (self.sub - start.sub) as u64,
        }
    }

    /// The operations between the snapshot `start` and this one.
    pub fn since(self, start: Ops) -> (r: Ops)
        requires
            self.follows(start),
        ensures
            r == self.minus(start),
    {
        Ops { mul: self.mul - start.mul, add: self.add - start.add, sub: self.sub - start.sub }
    }
}

impl Snapshot {
    /// No counter is behind `start`.
    pub open spec fn follows(self, start: Snapshot) -> bool {
        &&& self.total.follows(start.total)
        &&& self.in_pow.follows(start.in_pow)
        &&& self.in_hash.follows(start.in_hash)
        &&& start.perm_compress <= self.perm_compress
        &&& start.perm_sponge <= self.perm_sponge
        &&& start.perm_duplex <= self.perm_duplex
        &&& start.pow_calls <= self.pow_calls
        &&& start.inv_calls <= self.inv_calls
    }

    /// Whether no counter is behind `start`.
    pub fn is_after(self, start: Snapshot) -> (r: bool)
        ensures
            r == self.follows(start),
    {
        self.total.is_after(start.total) && self.in_pow.is_after(start.in_pow)
            && self.in_hash.is_after(start.in_hash) && start.perm_compress <= self.perm_compress
            && start.perm_sponge <= self.perm_sponge && start.perm_duplex <= self.perm_duplex
            && start.pow_calls <= self.pow_calls && start.inv_calls <= self.inv_calls
    }

    /// The counters of `start` taken from these.
    pub open spec fn minus(self, start: Snapshot) -> Snapshot {
        Snapshot {
            total: self.total.minus(start.total),
            in_pow: self.in_pow.minus(start.in_pow),
            in_hash: self.in_hash.minus(start.in_hash),
            perm_compress: (self.perm_compress - start.perm_compress) as u64,
            perm_sponge: (self.perm_sponge - start.perm_sponge) as u64,
            perm_duplex: (self.perm_duplex - start.perm_duplex) as u64,
            pow_calls: (self.pow_calls - start.pow_calls) as u64,
            inv_calls: (self.inv_calls - start.inv_calls) as u64,
        }
    }

    /// What was counted between the snapshot `start` and this one.
    pub fn since(self, start: Snapshot) -> (r: Snapshot)
        requires
            self.follows(start),
        ensures
            r == self.minus(start),
    {
        Snapshot {
            total: self.total.since(start.total),
            in_pow: self.in_pow.since(start.in_pow),
            in_hash: self.in_hash.since(start.in_hash),
            perm_compress: self.perm_compress - start.perm_compress,
            perm_sponge: self.perm_sponge - start.perm_sponge,
            perm_duplex: self.perm_duplex - start.perm_duplex,
            pow_calls: self.pow_calls - start.pow_calls,
            inv_calls: self.inv_calls - start.inv_calls,
        }
    }

    /// All permutations.
    pub open spec fn total_perms(self) -> nat {
        (self.perm_compress + self.perm_sponge + self.perm_duplex) as nat
    }

    /// Whether the counts of a verification fit together: there is a
    /// permutation, each takes the same number of multiplications, and what
    /// the permutations and the exponentiations took is part of the whole.
    pub open spec fn adds_up(self) -> bool {
        &&& 0 < self.total_perms() <= u64::MAX
        &&& (self.in_hash.mul as nat) % self.total_perms() == 0
        &&& self.total.follows(self.in_hash)
        &&& self.in_hash.mul + self.in_pow.mul <= self.total.mul
    }

    /// Whether [`Snapshot::field`] can be asked for these counts.
    pub fn fits(self) -> (r: bool)
        ensures
            r == self.adds_up(),
    {
        let sum: u128 = self.perm_compress as u128 + self.perm_sponge as u128
            + self.perm_duplex as u128;
        if sum == 0 || sum > u64::MAX as u128 {
            return false;
        }
        (self.in_hash.mul as u128) % sum == 0 && self.total.is_after(self.in_hash)
            && self.in_hash.mul as u128 + self.in_pow.mul as u128 <= self.total.mul as u128
    }
}

impl Ops {
    /// Each counter is the sum of those of `a` and `b`.
    pub open spec fn is_sum(self, a: Ops, b: Ops) -> bool {
        self.mul == a.mul + b.mul && self.add == a.add + b.add && self.sub == a.sub + b.sub
    }
}

/// Counts over two adjacent stretches add up to those over both.
pub proof fn law_since_chains(start: Snapshot, middle: Snapshot, end: Snapshot)
    requires
        middle.follows(start),
        end.follows(middle),
    ensures
        end.follows(start),
        ({
            let (a, b, c) = (middle.minus(start), end.minus(middle), end.minus(start));
            &&& c.total.is_sum(a.total, b.total)
            &&& c.in_pow.is_sum(a.in_pow, b.in_pow)
            &&& c.in_hash.is_sum(a.in_hash, b.in_hash)
            &&& c.perm_compress == a.perm_compress + b.perm_compress
            &&& c.perm_sponge == a.perm_sponge + b.perm_sponge
            &&& c.perm_duplex == a.perm_duplex + b.perm_duplex
            &&& c.pow_calls == a.pow_calls + b.pow_calls
            &&& c.inv_calls == a.inv_calls + b.inv_calls
        }),
{
}

/// Permutations by the site that performs them.
#[derive(Clone, Copy, Debug, PartialEq, Eq, Structural)]
pub struct Perms {
    pub truncated_permutation_compress: u64,
    pub padding_free_sponge: u64,
    pub duplex_challenger: u64,
    pub total: u64,
}

/// The hash part of an operation ledger.
#[derive(Clone, Copy, Debug)]
pub struct Hash {
    pub function: &'static str,
    pub permutations: Perms,
}

/// Exponentiations.
#[derive(Clone, Copy, Debug, PartialEq, Eq, Structural)]
pub struct Pow {
    /// Exponentiations by squaring; their multiplication count depends on the
    /// exponent bits.
    pub calls: u64,
    /// Inversions, a fixed 29 squarings and 7 multiplications each, counted
    /// in `residual`.
    pub inv_calls: u64,
    /// Multiplications performed inside the exponentiations. Kept out of
    /// `residual` because the count varies with the proof. Additions and
    /// subtractions inside exponentiations stay in `residual`.
    pub mul: u64,
}

/// The field part of an operation ledger.
#[derive(Clone, Copy, Debug)]
pub struct Field {
    pub base: &'static str,
    pub counted_at: &'static str,
    /// Spent inside the permutations. Charged to the hash.
    pub in_hash_suite: Ops,
    /// The verifier's own arithmetic, without the hash and without the
    /// multiplications inside exponentiations.
    pub residual: Ops,
    pub pow: Pow,
    /// `in_hash_suite.mul / permutations`; exact.
    pub mul_per_permutation: u64,
}

/// The operation ledger of a verification.
#[derive(Debug)]
pub struct Ledger {
    pub system: &'static str,
    pub version: String,
    pub artifact: &'static str,
    pub hash: Hash,
    pub field: Field,
}

/// The hash function's name in a ledger.
pub const FUNCTION: &'static str = "poseidon2-koalabear";

/// The field's name in a ledger.
pub const BASE: &'static str = "koalabear";

/// Where field operations are counted.
pub const COUNTED_AT: &'static str =
    "KoalaBear Add/Sub/Mul impls; extension-field ops decompose into these";

impl Snapshot {
    /// The permutations of the ledger for these counts.
    pub open spec fn perms(self) -> Perms {
        Perms {
            truncated_permutation_compress: self.perm_compress,
            padding_free_sponge: self.perm_sponge,
            duplex_challenger: self.perm_duplex,
            total: self.total_perms() as u64,
        }
    }

    /// The field part of the ledger for these counts.
    pub open spec fn field_of(self) -> Field {
        Field {
            base: BASE,
            counted_at: COUNTED_AT,
            in_hash_suite: self.in_hash,
            residual: Ops {
                mul: (self.total.mul - self.in_hash.mul - self.in_pow.mul) as u64,
                add: (self.total.add - self.in_hash.add) as u64,
                sub: (self.total.sub - self.in_hash.sub) as u64,
            },
            pow: Pow { calls: self.pow_calls, inv_calls: self.inv_calls, mul: self.in_pow.mul },
            mul_per_permutation: ((self.in_hash.mul as nat) / self.total_perms()) as u64,
        }
    }

    /// The field part of the ledger.
    pub fn field(self) -> (f: Field)
        requires
            self.adds_up(),
        ensures
            f == self.field_of(),
            f.pow.calls == self.pow_calls,
            f.pow.inv_calls == self.inv_calls,
            f.pow.mul == self.in_pow.mul,
            f.in_hash_suite == self.in_hash,
            f.residual.mul == self.total.mul - self.in_hash.mul - self.in_pow.mul,
            f.residual.add == self.total.add - self.in_hash.add,
            f.residual.sub == self.total.sub - self.in_hash.sub,
    {
        let perms: u64 = self.perm_compress + self.perm_sponge + self.perm_duplex;
        Field {
            base: BASE,
            counted_at: COUNTED_AT,
            in_hash_suite: self.in_hash,
            residual: Ops {
                mul: self.total.mul - self.in_hash.mul - self.in_pow.mul,
                add: self.total.add - self.in_hash.add,
                sub: self.total.sub - self.in_hash.sub,
            },
            pow: Pow { calls: self.pow_calls, inv_calls: self.inv_calls, mul: self.in_pow.mul },
            mul_per_permutation: self.in_hash.mul / perms,
        }
    }
}

/// The ledger of the verification of an artifact from the counters before and
/// after it.
pub fn ledger(
    artifact: &'static str,
    version: String,
    before: Snapshot,
    after: Snapshot,
) -> (r: Ledger)
    requires
        after.follows(before),
        after.minus(before).adds_up(),
    ensures
        r.system == SYSTEM,
        r.version@ == version@,
        r.artifact == artifact,
        r.hash.function == FUNCTION,
        r.hash.permutations == after.minus(before).perms(),
        r.field == after.minus(before).field_of(),
        r.hash.permutations.truncated_permutation_compress == after.perm_compress
            - before.perm_compress,
        r.hash.permutations.padding_free_sponge == after.perm_sponge - before.perm_sponge,
        r.hash.permutations.duplex_challenger == after.perm_duplex - before.perm_duplex,
        r.field.pow.calls == after.pow_calls - before.pow_calls,
        r.field.pow.inv_calls == after.inv_calls - before.inv_calls,
        r.field.pow.mul == after.in_pow.mul - before.in_pow.mul,
        r.field.in_hash_suite.mul == after.in_hash.mul - before.in_hash.mul,
        r.field.in_hash_suite.add == after.in_hash.add - before.in_hash.add,
        r.field.in_hash_suite.sub == after.in_hash.sub - before.in_hash.sub,
{
    let d = after.since(before);
    Ledger {
        system: SYSTEM,
        version,
        artifact,
        hash: Hash {
            function: FUNCTION,
            permutations: Perms {
                truncated_permutation_compress: d.perm_compress,
                padding_free_sponge: d.perm_sponge,
                duplex_challenger: d.perm_duplex,
                total: d.perm_compress + d.perm_sponge + d.perm_duplex,
            },
        },
        field: d.field(),
    }
}

/// Nothing is lost or counted twice: the hash's share, the exponentiations
/// and the residual make up the measured totals, and the permutations times
/// their multiplications are the hash's.
pub proof fn law_field_adds_up(d: Snapshot)
    requires
        d.adds_up(),
    ensures
        ({
            let (f, p) = (d.field_of(), d.perms());
            &&& f.in_hash_suite.mul + f.residual.mul + f.pow.mul == d.total.mul
            &&& f.in_hash_suite.add + f.residual.add == d.total.add
            &&& f.in_hash_suite.sub + f.residual.sub == d.total.sub
            &&& f.mul_per_permutation * p.total == f.in_hash_suite.mul
            &&& p.truncated_permutation_compress + p.padding_free_sponge + p.duplex_challenger
                == p.total
        }),
{
    let (m, n) = (d.in_hash.mul as int, d.total_perms() as int);
    lemma_fundamental_div_mod(m, n);
    lemma_div_is_ordered_by_denominator(m, 1, n);
    lemma_div_basics(m);
    lemma_mul_is_commutative(n, m / n);
}

/// What the exponentiations took.
pub open spec fn pow_text(d: Snapshot) -> Seq<char> {
    "  (+ "@ + decimal::dec_text(d.in_pow.mul as nat) + " mul inside "@ + decimal::dec_text(
        d.pow_calls as nat,
    ) + " pow calls, exponent-dependent, recorded as pow.mul; "@ + decimal::dec_text(
        d.in_pow.add as nat,
    ) + " add, "@ + decimal::dec_text(d.in_pow.sub as nat) + " sub inside pow stay in residual)"@
}

fn pow_line(d: Snapshot) -> (r: String)
    ensures
        r@ == pow_text(d),
{
    let mut r = String::from_str("  (+ ");
    decimal::put_number(&mut r, d.in_pow.mul);
    r.append(" mul inside ");
    decimal::put_number(&mut r, d.pow_calls);
    r.append(" pow calls, exponent-dependent, recorded as pow.mul; ");
    decimal::put_number(&mut r, d.in_pow.add);
    r.append(" add, ");
    decimal::put_number(&mut r, d.in_pow.sub);
    r.append(" sub inside pow stay in residual)");
    r
}

/// The labelled permutations of a verification.
pub open spec fn perm_rows(d: Snapshot) -> Seq<(&'static str, u64)> {
    seq![
        ("truncated_permutation_compress", d.perm_compress),
        ("padding_free_sponge", d.perm_sponge),
        ("duplex_challenger", d.perm_duplex),
    ]
}

/// How many permutations the verification of an artifact took.
pub open spec fn perms_text(artifact: Seq<char>, perms: nat) -> Seq<char> {
    artifact + ": poseidon2 permutations = "@ + decimal::dec_text(perms)
}

/// The lines that show the counts of the verification of an artifact:
/// permutations, field operations and exponentiations.
pub fn count_lines(artifact: &str, d: Snapshot) -> (r: Vec<String>)
    requires
        d.adds_up(),
    ensures
        r@.len() == 8,
        r@[0]@ == artifact@ + ": poseidon2 permutations = "@ + decimal::dec_text(d.total_perms()),
        r@[0]@ == perms_text(artifact@, d.total_perms()),
        forall|i: int|
            0 <= i < 3 ==> (#[trigger] r@[i + 1])@ == decimal::row(
                perm_rows(d)[i].1 as nat,
                perm_rows(d)[i].0@,
            ),
        r@[1]@ == decimal::row(d.perm_compress as nat, "truncated_permutation_compress"@),
        r@[2]@ == decimal::row(d.perm_sponge as nat, "padding_free_sponge"@),
        r@[3]@ == decimal::row(d.perm_duplex as nat, "duplex_challenger"@),
        r@[4]@ == lines::measured_text(
            BASE@,
            "mul"@,
            d.total.mul,
            d.in_hash.mul,
            d.field_of().residual.mul,
        ),
        r@[5]@ == lines::measured_text(
            BASE@,
            "add"@,
            d.total.add,
            d.in_hash.add,
            d.field_of().residual.add,
        ),
        r@[6]@ == lines::measured_text(
            BASE@,
            "sub"@,
            d.total.sub,
            d.in_hash.sub,
            d.field_of().residual.sub,
        ),
        r@[7]@ == pow_text(d),
{
    let residual = d.field().residual;
    let mut first = String::from_str(artifact);
    first.append(": poseidon2 permutations = ");
    decimal::put_number(&mut first, d.perm_compress + d.perm_sponge + d.perm_duplex);
    let mut r: Vec<String> = Vec::new();
    r.push(first);
    r.push(decimal::table_row(d.perm_compress, "truncated_permutation_compress"));
    r.push(decimal::table_row(d.perm_sponge, "padding_free_sponge"));
    r.push(decimal::table_row(d.perm_duplex, "duplex_challenger"));
    r.push(lines::measured(BASE, "mul", d.total.mul, d.in_hash.mul, residual.mul));
    r.push(lines::measured(BASE, "add", d.total.add, d.in_hash.add, residual.add));
    r.push(lines::measured(BASE, "sub", d.total.sub, d.in_hash.sub, residual.sub));
    r.push(pow_line(d));
    r
}

/// The parameters of the proof system.
#[derive(Debug)]
pub struct Params {
    pub system: &'static str,
    pub version: String,
    pub artifact: &'static str,
    pub field: FieldParams,
    pub fri: FriParams,
    pub log_stacking_height: u32,
    pub max_log_row_count: usize,
    pub security: Security,
}

/// The base field and its extension.
#[derive(Clone, Copy, Debug)]
pub struct FieldParams {
    pub base: &'static str,
    pub modulus: u32,
    pub extension_degree: usize,
}

/// The parameters of the low-degree test.
#[derive(Clone, Copy, Debug, PartialEq, Eq, Structural)]
pub struct FriParams {
    pub log_blowup: usize,
    pub queries: usize,
    pub log_fold: u32,
    pub pow_bits: usize,
}

/// What is stated of the security.
#[derive(Clone, Copy, Debug)]
pub struct Security {
    pub stated_bits: usize,
    pub basis: &'static str,
    pub source: &'static str,
}

/// `sp1_primitives::fri_params::recursion_fri_config`: the logarithm of the
/// blowup, the number of queries and the bits of proof of work.
#[verifier::external_body]
fn recursion_fri() -> (r: (usize, usize, usize))
    ensures
        r == (2usize, 124usize, 16usize),
{
    let fri = sp1_primitives::fri_params::recursion_fri_config();
    (fri.log_blowup, fri.num_queries, fri.proof_of_work_bits)
}

/// `sp1_primitives::fri_params::shrink_fri_config`: the logarithm of the
/// blowup, the number of queries and the bits of proof of work.
#[verifier::external_body]
fn shrink_fri() -> (r: (usize, usize, usize))
    ensures
        r == (3usize, 94usize, 22usize),
{
    let fri = sp1_primitives::fri_params::shrink_fri_config();
    (fri.log_blowup, fri.num_queries, fri.proof_of_work_bits)
}

/// `sp1_primitives::fri_params::SP1_TARGET_BITS_OF_SECURITY`.
#[verifier::external_body]
fn target_bits() -> (r: usize)
    ensures
        r == 100,
{
    sp1_primitives::fri_params::SP1_TARGET_BITS_OF_SECURITY
}

/// `p3_field::PrimeField32::ORDER_U32` of `sp1_primitives::SP1Field`: the
/// KoalaBear prime.
#[verifier::external_body]
fn field_order() -> (r: u32)
    ensures
        r == KOALABEAR_P,
{
    <sp1_primitives::SP1Field as p3_field::PrimeField32>::ORDER_U32
}

/// The size in bytes of `sp1_primitives::SP1Field`, a transparent `u32`.
#[verifier::external_body]
fn field_bytes() -> (r: usize)
    ensures
        r == 4,
{
    std::mem::size_of::<sp1_primitives::SP1Field>()
}

/// The size in bytes of `sp1_primitives::SP1ExtensionField`, an array of four
/// base elements.
#[verifier::external_body]
fn extension_bytes() -> (r: usize)
    ensures
        r == 16,
{
    std::mem::size_of::<sp1_primitives::SP1ExtensionField>()
}

/// What the security statement rests on.
pub const BASIS: &'static str =
    "unique decoding: queries = ceil((target - pow_bits) / -log2((1 + rate) / 2))";

/// Where the security statement stands.
pub const SOURCE: &'static str = "sp1-primitives/src/fri_params.rs";

/// Whether `p` describes an artifact with these parameters.
pub open spec fn describes(
    p: Params,
    artifact: &'static str,
    version: Seq<char>,
    fri: FriParams,
    log_stacking_height: u32,
    max_log_row_count: usize,
) -> bool {
    &&& p.system == SYSTEM
    &&& p.version@ == version
    &&& p.artifact == artifact
    &&& p.field.base == BASE
    &&& p.field.modulus == KOALABEAR_P
    &&& p.field.extension_degree == 4
    &&& p.fri == fri
    &&& p.log_stacking_height == log_stacking_height
    &&& p.max_log_row_count == max_log_row_count
    &&& p.security.stated_bits == 100
    &&& p.security.basis == BASIS
    &&& p.security.source == SOURCE
}

fn params_with(
    artifact: &'static str,
    version: String,
    fri: FriParams,
    log_stacking_height: u32,
    max_log_row_count: usize,
) -> (p: Params)
    ensures
        describes(p, artifact, version@, fri, log_stacking_height, max_log_row_count),
{
    Params {
        system: SYSTEM,
        version,
        artifact,
        field: FieldParams {
            base: BASE,
            modulus: field_order(),
            extension_degree: extension_bytes() / field_bytes(),
        },
        fri,
        log_stacking_height,
        max_log_row_count,
        security: Security { stated_bits: target_bits(), basis: BASIS, source: SOURCE },
    }
}

/// The parameters that the verifier of compressed proofs is compiled with.
pub fn params(version: String, log_stacking_height: u32, max_log_row_count: usize) -> (p: Params)
    ensures
        describes(
            p,
            COMPRESSED,
            version@,
            (FriParams { log_blowup: 2, queries: 124, log_fold: 1, pow_bits: 16 }),
            log_stacking_height,
            max_log_row_count,
        ),
{
    let (log_blowup, queries, pow_bits) = recursion_fri();
    params_with(
        COMPRESSED,
        version,
        FriParams { log_blowup, queries, log_fold: 1, pow_bits },
        log_stacking_height,
        max_log_row_count,
    )
}

/// The parameters that the verifier of shrink proofs is compiled with.
pub fn shrink_params(version: String, log_stacking_height: u32, max_log_row_count: usize) -> (p:
    Params)
    ensures
        describes(
            p,
            SHRINK,
            version@,
            (FriParams { log_blowup: 3, queries: 94, log_fold: 1, pow_bits: 22 }),
            log_stacking_height,
            max_log_row_count,
        ),
{
    let (log_blowup, queries, pow_bits) = shrink_fri();
    params_with(
        SHRINK,
        version,
        FriParams { log_blowup, queries, log_fold: 1, pow_bits },
        log_stacking_height,
        max_log_row_count,
    )
}

/// Each part of a shard proof stands under its own label, and there are no
/// other rows.
pub proof fn law_shard_rows_are_labelled(s: ShardBytes)
    ensures
        ({
            let rows = shard_rows(s);
            &&& rows.len() == 14
            &&& rows.contains(("shard proof: public_values", s.public_values))
            &&& rows.contains(("shard proof: main_commitment", s.main_commitment))
            &&& rows.contains(("shard proof: logup_gkr_proof", s.logup_gkr_proof))
            &&& rows.contains(("shard proof: zerocheck_proof", s.zerocheck_proof))
            &&& rows.contains(("shard proof: opened_values", s.opened_values))
            &&& rows.contains(("shard proof: evaluation_proof", s.evaluation_proof))
            &&& rows.contains(("  pcs_proof (stacked BaseFold)", s.pcs_proof))
            &&& rows.contains(("    fri_commitments", s.fri_commitments))
            &&& rows.contains(("    component query openings + paths", s.component_openings))
            &&& rows.contains(("    FRI query openings + paths", s.fri_openings))
            &&& rows.contains(("    batch_evaluations", s.batch_evaluations))
            &&& rows.contains(("  sumcheck_proof", s.sumcheck_proof))
            &&& rows.contains(("  jagged_eval_proof", s.jagged_eval_proof))
            &&& rows.contains(("shard proof total", s.total))
        }),
{
    let rows = shard_rows(s);
    assert(rows[0] == ("shard proof: public_values", s.public_values));
    assert(rows[1] == ("shard proof: main_commitment", s.main_commitment));
    assert(rows[2] == ("shard proof: logup_gkr_proof", s.logup_gkr_proof));
    assert(rows[3] == ("shard proof: zerocheck_proof", s.zerocheck_proof));
    assert(rows[4] == ("shard proof: opened_values", s.opened_values));
    assert(rows[5] == ("shard proof: evaluation_proof", s.evaluation_proof));
    assert(rows[6] == ("  pcs_proof (stacked BaseFold)", s.pcs_proof));
    assert(rows[7] == ("    fri_commitments", s.fri_commitments));
    assert(rows[8] == ("    component query openings + paths", s.component_openings));
    assert(rows[9] == ("    FRI query openings + paths", s.fri_openings));
    assert(rows[10] == ("    batch_evaluations", s.batch_evaluations));
    assert(rows[11] == ("  sumcheck_proof", s.sumcheck_proof));
    assert(rows[12] == ("  jagged_eval_proof", s.jagged_eval_proof));
    assert(rows[13] == ("shard proof total", s.total));
}

/// A compressed proof is shown with all rows of its shard proof, and each part
/// around that stands under its own label.
pub proof fn law_compressed_rows_are_labelled(
    s: ShardBytes,
    b: CompressedBytes,
    row: (&'static str, usize),
)
    requires
        shard_rows(s).contains(row),
    ensures
        ({
            let rows = compressed_table(s, b);
            &&& rows.len() == 22
            &&& rows.contains(row)
            &&& rows.contains(("recursion vk (inside proof)", b.recursion_vk))
            &&& rows.contains(("vk_merkle_proof", b.vk_merkle_proof))
            &&& rows.contains(("proof total (incl. enum tag)", b.proof))
            &&& rows.contains(("public_values", b.public_values))
            &&& rows.contains(("sp1_version", b.sp1_version))
            &&& rows.contains(("tee_proof", b.tee_proof))
            &&& rows.contains(("file total", b.file))
            &&& rows.contains(("verifying key file", b.vk_file))
        }),
{
    let rows = compressed_table(s, b);
    let i = shard_rows(s).index_of(row);
    assert(rows[i] == row);
    assert(rows[14] == ("recursion vk (inside proof)", b.recursion_vk));
    assert(rows[15] == ("vk_merkle_proof", b.vk_merkle_proof));
    assert(rows[16] == ("proof total (incl. enum tag)", b.proof));
    assert(rows[17] == ("public_values", b.public_values));
    assert(rows[18] == ("sp1_version", b.sp1_version));
    assert(rows[19] == ("tee_proof", b.tee_proof));
    assert(rows[20] == ("file total", b.file));
    assert(rows[21] == ("verifying key file", b.vk_file));
}

/// A shrink proof is shown with all rows of its shard proof, and each part
/// around that stands under its own label.
pub proof fn law_shrink_rows_are_labelled(
    s: ShardBytes,
    b: ShrinkBytes,
    row: (&'static str, usize),
)
    requires
        shard_rows(s).contains(row),
    ensures
        ({
            let rows = shrink_table(s, b);
            &&& rows.len() == 17
            &&& rows.contains(row)
            &&& rows.contains(("shrink vk (inside proof, constant)", b.shrink_vk))
            &&& rows.contains(("vk_merkle_proof (constant)", b.vk_merkle_proof))
            &&& rows.contains(("file total", b.file))
        }),
{
    let rows = shrink_table(s, b);
    let i = shard_rows(s).index_of(row);
    assert(rows[i] == row);
    assert(rows[14] == ("shrink vk (inside proof, constant)", b.shrink_vk));
    assert(rows[15] == ("vk_merkle_proof (constant)", b.vk_merkle_proof));
    assert(rows[16] == ("file total", b.file));
}

/// Each component of a proof stands under its own name: the shard proof
/// without its public values, the key and the Merkle proof.
pub proof fn law_components_are_named(
    shard_proof: usize,
    public_values: usize,
    key: usize,
    vk_merkle_proof: usize,
    shard: usize,
)
    requires
        shard_proof == public_values + shard,
    ensures
        ({
            let c = compressed_components(shard_proof, public_values, key, vk_merkle_proof);
            let s = shrink_components(shard_proof, public_values, key, vk_merkle_proof);
            &&& c.len() == 3 && s.len() == 3
            &&& c.contains(("recursion_vk", key))
            &&& c.contains(("shard_proof_without_public_values", shard))
            &&& c.contains(("vk_merkle_proof", vk_merkle_proof))
            &&& s.contains(("shrink_vk", key))
            &&& s.contains(("shard_proof_without_public_values", shard))
            &&& s.contains(("vk_merkle_proof", vk_merkle_proof))
        }),
{
    let c = compressed_components(shard_proof, public_values, key, vk_merkle_proof);
    let s = shrink_components(shard_proof, public_values, key, vk_merkle_proof);
    assert(c[0] == ("recursion_vk", key));
    assert(c[1] == ("shard_proof_without_public_values", shard));
    assert(c[2] == ("vk_merkle_proof", vk_merkle_proof));
    assert(s[0] == ("shard_proof_without_public_values", shard));
    assert(s[1] == ("shrink_vk", key));
    assert(s[2] == ("vk_merkle_proof", vk_merkle_proof));
}

/// A later snapshot is one with no counter behind, and what was counted since
/// the earlier one is what each counter has to be raised by.
pub proof fn law_counted_since(start: Snapshot, end: Snapshot)
    ensures
        end.follows(start) <==> ({
            &&& start.total.mul <= end.total.mul
            &&& start.total.add <= end.total.add
            &&& start.total.sub <= end.total.sub
            &&& start.in_pow.mul <= end.in_pow.mul
            &&& start.in_pow.add <= end.in_pow.add
            &&& start.in_pow.sub <= end.in_pow.sub
            &&& start.in_hash.mul <= end.in_hash.mul
            &&& start.in_hash.add <= end.in_hash.add
            &&& start.in_hash.sub <= end.in_hash.sub
            &&& start.perm_compress <= end.perm_compress
            &&& start.perm_sponge <= end.perm_sponge
            &&& start.perm_duplex <= end.perm_duplex
            &&& start.pow_calls <= end.pow_calls
            &&& start.inv_calls <= end.inv_calls
        }),
        end.follows(start) ==> ({
            let d = end.minus(start);
            &&& start.total.mul + d.total.mul == end.total.mul
            &&& start.total.add + d.total.add == end.total.add
            &&& start.total.sub + d.total.sub == end.total.sub
            &&& start.in_pow.mul + d.in_pow.mul == end.in_pow.mul
            &&& start.in_pow.add + d.in_pow.add == end.in_pow.add
            &&& start.in_pow.sub + d.in_pow.sub == end.in_pow.sub
            &&& start.in_hash.mul + d.in_hash.mul == end.in_hash.mul
            &&& start.in_hash.add + d.in_hash.add == end.in_hash.add
            &&& start.in_hash.sub + d.in_hash.sub == end.in_hash.sub
            &&& start.perm_compress + d.perm_compress == end.perm_compress
            &&& start.perm_sponge + d.perm_sponge == end.perm_sponge
            &&& start.perm_duplex + d.perm_duplex == end.perm_duplex
            &&& start.pow_calls + d.pow_calls == end.pow_calls
            &&& start.inv_calls + d.inv_calls == end.inv_calls
        }),
{
}

/// Counts fit together exactly where the permutations divide the
/// multiplications inside them evenly, and neither these nor those inside
/// exponentiations exceed the whole.
pub proof fn law_counts_fit(d: Snapshot, each: nat)
    ensures
        d.adds_up() ==> ({
            &&& 0 < d.perm_compress + d.perm_sponge + d.perm_duplex <= u64::MAX
            &&& d.in_hash.add <= d.total.add
            &&& d.in_hash.sub <= d.total.sub
            &&& d.in_hash.mul + d.in_pow.mul <= d.total.mul
            &&& d.field_of().mul_per_permutation * (d.perm_compress + d.perm_sponge
                + d.perm_duplex) == d.in_hash.mul
        }),
        ({
            &&& 0 < d.perm_compress + d.perm_sponge + d.perm_duplex <= u64::MAX
            &&& d.in_hash.mul == each * (d.perm_compress + d.perm_sponge + d.perm_duplex)
            &&& d.in_hash.add <= d.total.add
            &&& d.in_hash.sub <= d.total.sub
            &&& d.in_hash.mul + d.in_pow.mul <= d.total.mul
        }) ==> d.adds_up() && d.field_of().mul_per_permutation == each,
{
    let n = d.perm_compress + d.perm_sponge + d.perm_duplex;
    if d.adds_up() {
        law_field_adds_up(d);
    }
    if n > 0 && d.in_hash.mul == each * n {
        lemma_mod_multiples_basic(each as int, n);
        lemma_div_multiples_vanish(each as int, n);
        lemma_mul_is_commutative(each as int, n);
        lemma_div_is_ordered_by_denominator(d.in_hash.mul as int, 1, n);
        lemma_div_basics(d.in_hash.mul as int);
    }
}

/// Each part of a ledger is what its own counters moved by between the two
/// snapshots: exponentiations and inversions by their calls, permutations by
/// their sites, and the residual by what the hash and the multiplications
/// inside exponentiations leave of the whole.
pub proof fn law_ledger_parts(before: Snapshot, after: Snapshot)
    requires
        after.follows(before),
        after.minus(before).adds_up(),
    ensures
        ({
            let f = after.minus(before).field_of();
            let p = after.minus(before).perms();
            &&& before.pow_calls + f.pow.calls == after.pow_calls
            &&& before.inv_calls + f.pow.inv_calls == after.inv_calls
            &&& before.in_pow.mul + f.pow.mul == after.in_pow.mul
            &&& before.in_hash.mul + f.in_hash_suite.mul == after.in_hash.mul
            &&& before.in_hash.add + f.in_hash_suite.add == after.in_hash.add
            &&& before.in_hash.sub + f.in_hash_suite.sub == after.in_hash.sub
            &&& f.residual.mul == (after.total.mul - before.total.mul) - (after.in_hash.mul
                - before.in_hash.mul) - (after.in_pow.mul - before.in_pow.mul)
            &&& f.residual.add == (after.total.add - before.total.add) - (after.in_hash.add
                - before.in_hash.add)
            &&& f.residual.sub == (after.total.sub - before.total.sub) - (after.in_hash.sub
                - before.in_hash.sub)
            &&& before.perm_compress + p.truncated_permutation_compress == after.perm_compress
            &&& before.perm_sponge + p.padding_free_sponge == after.perm_sponge
            &&& before.perm_duplex + p.duplex_challenger == after.perm_duplex
            &&& p.total == p.truncated_permutation_compress + p.padding_free_sponge
                + p.duplex_challenger
            &&& f.base@ == "koalabear"@
            &&& f.counted_at@
                == "KoalaBear Add/Sub/Mul impls; extension-field ops decompose into these"@
        }),
{
}

/// The counters inside a stretch do not depend on each other: the calls of
/// exponentiations move nothing but their own entry.
pub proof fn law_calls_are_kept_apart(d: Snapshot, e: Snapshot)
    requires
        e.total == d.total,
        e.in_pow == d.in_pow,
        e.in_hash == d.in_hash,
        e.perm_compress == d.perm_compress,
        e.perm_sponge == d.perm_sponge,
        e.perm_duplex == d.perm_duplex,
    ensures
        e.field_of().in_hash_suite == d.field_of().in_hash_suite,
        e.field_of().residual == d.field_of().residual,
        e.field_of().mul_per_permutation == d.field_of().mul_per_permutation,
        e.field_of().pow.mul == d.field_of().pow.mul,
        e.inv_calls == d.inv_calls ==> e.field_of().pow.inv_calls == d.field_of().pow.inv_calls,
        e.pow_calls == d.pow_calls ==> e.field_of().pow.calls == d.field_of().pow.calls,
        e.field_of().pow.calls == e.pow_calls,
        e.field_of().pow.inv_calls == e.inv_calls,
{
}

/// An execution's line holds its cycles, the size of a shard and the least
/// number of shards that the cycles fit into.
pub proof fn law_execution_text(name: Seq<char>, cycles: u64, shard_size: u64, shards: nat)
    requires
        shard_size > 0,
        cycles <= shards * shard_size,
        (shards - 1) * shard_size < cycles,
    ensures
        ({
            let s = execution_text(name, cycles, shard_size);
            let (c, z, n) = (
                decimal::dec_text(cycles as nat),
                decimal::dec_text(shard_size as nat),
                decimal::dec_text(shards),
            );
            &&& s.take(name.len() as int) == name
            &&& text::stands_between(s, ": "@, c, " cycles, shard size "@)
            &&& text::stands_between(s, " cycles, shard size "@, z, ", "@)
            &&& text::stands_between(s, ", "@, n, " shards"@)
            &&& s.len() == name.len() + c.len() + z.len() + n.len() + ": "@.len()
                + " cycles, shard size "@.len() + ", "@.len() + " shards"@.len()
        }),
{
    broadcast use {text::lemma_stands_at_end, text::lemma_stands_earlier};

    let (c, z, k) = (cycles as int, shard_size as int, shards as int);
    assert((k - 1) * z == k * z - z) by (nonlinear_arith);
    lemma_fundamental_div_mod_converse(c + z - 1, z, k, c + z - 1 - k * z);
    let s = execution_text(name, cycles, shard_size);
    assert(s.take(name.len() as int) =~= name);
}

/// What the exponentiations took is shown number by number, each before the
/// words that say what it counts.
pub proof fn law_pow_text(d: Snapshot)
    ensures
        ({
            let s = pow_text(d);
            let (m, c, a, b) = (
                decimal::dec_text(d.in_pow.mul as nat),
                decimal::dec_text(d.pow_calls as nat),
                decimal::dec_text(d.in_pow.add as nat),
                decimal::dec_text(d.in_pow.sub as nat),
            );
            let (p, q, r, t, u) = (
                "  (+ "@,
                " mul inside "@,
                " pow calls, exponent-dependent, recorded as pow.mul; "@,
                " add, "@,
                " sub inside pow stay in residual)"@,
            );
            &&& text::stands_between(s, p, m, q)
            &&& text::stands_between(s, q, c, r)
            &&& text::stands_between(s, r, a, t)
            &&& text::stands_between(s, t, b, u)
            &&& s.len() == p.len() + m.len() + q.len() + c.len() + r.len() + a.len() + t.len()
                + b.len() + u.len()
        }),
{
    broadcast use {text::lemma_stands_at_end, text::lemma_stands_earlier};

    let (p, m, q) = ("  (+ "@, decimal::dec_text(d.in_pow.mul as nat), " mul inside "@);
    assert(p + m + q =~= Seq::<char>::empty() + p + m + q);
}

/// Parameters describe an artifact exactly where they carry its name, version
/// and numbers, over the field of `2^31 - 2^24 + 1` elements and its extension
/// of degree four, at a hundred bits.
pub proof fn law_describes(
    p: Params,
    artifact: &'static str,
    version: Seq<char>,
    fri: FriParams,
    log_stacking_height: u32,
    max_log_row_count: usize,
)
    requires
        describes(p, artifact, version, fri, log_stacking_height, max_log_row_count),
    ensures
        p.system@ == "sp1"@,
        p.version@ == version,
        p.artifact == artifact,
        p.field.base@ == "koalabear"@,
        p.field.modulus == 0x8000_0000 - 0x100_0000 + 1,
        p.field.extension_degree == 4,
        p.fri.log_blowup == fri.log_blowup,
        p.fri.queries == fri.queries,
        p.fri.log_fold == fri.log_fold,
        p.fri.pow_bits == fri.pow_bits,
        p.log_stacking_height == log_stacking_height,
        p.max_log_row_count == max_log_row_count,
        p.security.stated_bits == 100,
        p.security.basis@
            == "unique decoding: queries = ceil((target - pow_bits) / -log2((1 + rate) / 2))"@,
        p.security.source@ == "sp1-primitives/src/fri_params.rs"@,
{
}

/// The system, its two artifacts and its hash are named apart.
pub proof fn law_names()
    ensures
        SYSTEM@ == "sp1"@,
        COMPRESSED@ == "compressed proof"@,
        SHRINK@ == "shrink proof"@,
        FUNCTION@ == "poseidon2-koalabear"@,
        BASE@ == "koalabear"@,
        FIB_SHARD_SIZE * 4 == SHARD_SIZE == 0x100_0000,
{
}

/// What belongs to a guest is kept under its whole name, so that no two guests
/// share a file.
pub proof fn law_place(a: Seq<char>, b: Seq<char>, suffix: Seq<char>)
    ensures
        place(a, suffix) == "../artifacts/sp1/"@ + a + suffix,
        a != b ==> place(a, suffix) != place(b, suffix),
{
    text::lemma_held_apart("../artifacts/sp1/"@, a, b, suffix);
}

/// Only `fib` is proved in shards of a quarter of the default.
pub proof fn law_shard_cycles(name: Seq<char>)
    ensures
        name == "fib"@ <==> 4 * shard_cycles(name) == 0x100_0000,
        name != "fib"@ <==> shard_cycles(name) == 0x100_0000,
{
}

/// The permutations of a verification are shown behind its artifact.
pub proof fn law_perms_text(artifact: Seq<char>, perms: nat)
    ensures
        ({
            let (s, d) = (perms_text(artifact, perms), decimal::dec_text(perms));
            &&& s.take(artifact.len() as int) == artifact
            &&& s.skip(s.len() - d.len()) == d
            &&& s.subrange(artifact.len() as int, s.len() - d.len())
                == ": poseidon2 permutations = "@
        }),
{
    let (s, d) = (perms_text(artifact, perms), decimal::dec_text(perms));
    assert(s.take(artifact.len() as int) =~= artifact);
    assert(s.skip(s.len() - d.len()) =~= d);
    assert(s.subrange(artifact.len() as int, s.len() - d.len()) =~= ": poseidon2 permutations = "@);
}

/// The permutations of each site stand under its own label.
pub proof fn law_perm_rows_are_labelled(d: Snapshot)
    ensures
        ({
            let rows = perm_rows(d);
            &&& rows.len() == 3
            &&& rows.contains(("truncated_permutation_compress", d.perm_compress))
            &&& rows.contains(("padding_free_sponge", d.perm_sponge))
            &&& rows.contains(("duplex_challenger", d.perm_duplex))
        }),
{
    let rows = perm_rows(d);
    assert(rows[0] == ("truncated_permutation_compress", d.perm_compress));
    assert(rows[1] == ("padding_free_sponge", d.perm_sponge));
    assert(rows[2] == ("duplex_challenger", d.perm_duplex));
}

/// An execution spans the least number of shards that its cycles fit into.
pub proof fn law_shards(cycles: u64, shard_size: u64)
    requires
        shard_size > 0,
    ensures
        cycles <= shard_count(cycles, shard_size) * shard_size,
        (shard_count(cycles, shard_size) - 1) * shard_size < cycles,
{
    let (c, s) = (cycles as int, shard_size as int);
    let n = (c + s - 1) / s;
    lemma_fundamental_div_mod(c + s - 1, s);
    lemma_div_pos_is_pos(c + s - 1, s);
    lemma_mul_is_commutative(s, n);
    assert((n - 1) * s == n * s - s) by (nonlinear_arith);
}

/// An executable lies in its guest's directory, under the guest's name.
pub proof fn law_elf_place(name: Seq<char>)
    ensures
        ({
            let s = elf_place(name);
            &&& text::stands_between(
                s,
                "../programs/"@,
                name,
                "/target/elf-compilation/riscv64im-succinct-zkvm-elf/release/"@,
            )
            &&& s.skip(s.len() - name.len()) == name
            &&& s.len() == "../programs/"@.len() + 2 * name.len()
                + "/target/elf-compilation/riscv64im-succinct-zkvm-elf/release/"@.len()
        }),
{
    broadcast use {text::lemma_stands_at_end, text::lemma_stands_earlier};

    let (p, q) = (
        "../programs/"@,
        "/target/elf-compilation/riscv64im-succinct-zkvm-elf/release/"@,
    );
    assert(p + name + q =~= Seq::<char>::empty() + p + name + q);
    assert(elf_place(name).skip(elf_place(name).len() - name.len()) =~= name);
}

} // verus!
