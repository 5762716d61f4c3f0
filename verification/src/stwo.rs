//! Measurements of the Stwo leaf circuit proof.

use vstd::prelude::*;
use vstd::string::{StrSliceExecFns, StringExecFns};

use crate::compiled;
use crate::decimal;
use crate::felt;
use crate::field::M31_P;
use crate::size;
use crate::size::Size;
use crate::text;

verus! {

/// The name of the system in results.
pub const SYSTEM: &'static str = "stwo";

/// What is measured.
pub const ARTIFACT: &'static str = "leaf circuit proof";

/// Where what belongs to a guest is kept.
pub open spec fn place(name: Seq<char>, suffix: Seq<char>) -> Seq<char> {
    "../artifacts/stwo/"@ + name + suffix
}

/// Where the compiled program of a guest is kept.
pub open spec fn program_place(name: Seq<char>) -> Seq<char> {
    "programs/"@ + name + "/compiled.json"@
}

/// Where the proof of a guest is kept.
pub fn proof_path(name: &str) -> (r: String)
    ensures
        r@ == place(name@, ".bin"@),
        r@ == "../artifacts/stwo/"@ + name@ + ".bin"@,
{
    text::join3("../artifacts/stwo/", name, ".bin")
}

/// Where the compiled program of a guest is kept.
pub fn program_path(name: &str) -> (r: String)
    ensures
        r@ == program_place(name@),
        r@ == "programs/"@ + name@ + "/compiled.json"@,
{
    text::join3("programs/", name, "/compiled.json")
}

/// Where the leaf circuit proof of a guest is kept.
pub fn leaf_path(name: &str) -> (r: String)
    ensures
        r@ == place(name@, ".leaf.json"@),
        r@ == "../artifacts/stwo/"@ + name@ + ".leaf.json"@,
{
    text::join3("../artifacts/stwo/", name, ".leaf.json")
}

/// The guest whose leaf proof is asked for by a name that ends in `.leaf`.
pub fn leaf_guest(name: &str) -> (r: Option<String>)
    ensures
        match r {
            Some(g) => name@ == g@ + ".leaf"@,
            None => forall|g: Seq<char>| name@ != #[trigger] (g + ".leaf"@),
        },
{
    let s = text::chars(name);
    let suffix = text::chars(".leaf");
    proof {
        reveal_strlit(".leaf");
    }
    if s.len() < 5 {
        return None;
    }
    let n: usize = s.len() - 5;
    if text::begins_at(&s, n, s.len(), &suffix) {
        let g = name.substring_char(0, n).to_owned();
        proof {
            let tail = s@.subrange(n as int, s@.len() as int);
            assert(tail.take(5) =~= tail);
            assert(name@ =~= g@ + ".leaf"@);
        }
        Some(g)
    } else {
        proof {
            let tail = s@.subrange(n as int, s@.len() as int);
            assert forall|g: Seq<char>| name@ != #[trigger] (g + ".leaf"@) by {
                if name@ == g + ".leaf"@ {
                    assert(tail.take(5) =~= ".leaf"@);
                }
            }
        }
        None
    }
}

/// The index of the first entry with a given circuit hash.
pub fn select(circuit_hashes: &Vec<[u32; 8]>, wanted: &[u32; 8]) -> (r: Option<usize>)
    ensures
        match r {
            Some(i) => {
                &&& i < circuit_hashes@.len()
                &&& circuit_hashes@[i as int]@ == wanted@
                &&& forall|j: int| 0 <= j < i ==> (#[trigger] circuit_hashes@[j])@ != wanted@
            },
            None => forall|j: int|
                0 <= j < circuit_hashes@.len() ==> (#[trigger] circuit_hashes@[j])@ != wanted@,
        },
{
    let mut i: usize = 0;
    while i < circuit_hashes.len()
        invariant
            i <= circuit_hashes@.len(),
            forall|j: int| 0 <= j < i ==> (#[trigger] circuit_hashes@[j])@ != wanted@,
        decreases circuit_hashes@.len() - i,
    {
        let mut k: usize = 0;
        while k < 8 && circuit_hashes[i][k] == wanted[k]
            invariant
                k <= 8,
                i < circuit_hashes@.len(),
                forall|j: int| 0 <= j < k ==> circuit_hashes@[i as int]@[j] == wanted@[j],
            decreases 8 - k,
        {
            k += 1;
        }
        if k == 8 {
            assert(circuit_hashes@[i as int]@ =~= wanted@);
            return Some(i);
        }
        i += 1;
    }
    None
}

/// The largest of the columns' log sizes; none where there is no column.
pub fn trace_log_size(log_sizes: &Vec<u32>) -> (r: Option<u32>)
    ensures
        match r {
            Some(m) => log_sizes@.contains(m) && forall|i: int|
                0 <= i < log_sizes@.len() ==> #[trigger] log_sizes@[i] <= m,
            None => log_sizes@.len() == 0,
        },
{
    if log_sizes.len() == 0 {
        return None;
    }
    let mut m: u32 = log_sizes[0];
    let mut i: usize = 1;
    while i < log_sizes.len()
        invariant
            1 <= i <= log_sizes@.len(),
            log_sizes@.contains(m),
            forall|j: int| 0 <= j < i ==> #[trigger] log_sizes@[j] <= m,
        decreases log_sizes@.len() - i,
    {
        if log_sizes[i] > m {
            m = log_sizes[i];
        }
        i += 1;
    }
    Some(m)
}

/// The sum of numbers.
pub open spec fn sum(v: Seq<usize>) -> nat
    decreases v.len(),
{
    if v.len() == 0 {
        0
    } else {
        sum(v.drop_last()) + (v.last() as nat)
    }
}

proof fn lemma_sum_grows(v: Seq<usize>, k: int)
    requires
        0 <= k <= v.len(),
    ensures
        sum(v.take(k)) <= sum(v),
    decreases v.len(),
{
    if k == v.len() {
        assert(v.take(k) =~= v);
    } else {
        lemma_sum_grows(v.drop_last(), k);
        assert(v.drop_last().take(k) =~= v.take(k));
    }
}

/// The sum of numbers; none where it does not fit.
pub fn total(v: &Vec<usize>) -> (r: Option<usize>)
    ensures
        match r {
            Some(n) => n == sum(v@),
            None => sum(v@) > usize::MAX,
        },
{
    let mut n: usize = 0;
    let mut i: usize = 0;
    assert(v@.take(0) =~= Seq::<usize>::empty());
    while i < v.len()
        invariant
            i <= v@.len(),
            n == sum(v@.take(i as int)),
        decreases v@.len() - i,
    {
        proof {
            lemma_sum_grows(v@, i + 1);
            assert(v@.take(i + 1).drop_last() =~= v@.take(i as int));
        }
        n = match n.checked_add(v[i]) {
            Some(m) => m,
            None => {
                return None;
            },
        };
        i += 1;
    }
    assert(v@.take(i as int) =~= v@);
    Some(n)
}

/// A compiled program without its hints: where it starts, the names of its
/// builtins, and its words, each as 32 bytes, most significant first.
#[derive(Debug)]
pub struct Program {
    pub main: usize,
    pub builtins: Vec<String>,
    pub data: Vec<[u8; 32]>,
}

/// The hash that the bootloader computes of a program with these contents, if
/// it computes one.
pub uninterp spec fn program_hash(
    main: usize,
    builtins: Seq<Seq<char>>,
    data: Seq<Seq<u8>>,
) -> Option<Seq<u8>>;

/// Whether a name is that of a builtin.
pub open spec fn is_builtin(name: Seq<char>) -> bool {
    ||| name == "output"@
    ||| name == "range_check"@
    ||| name == "pedersen"@
    ||| name == "ecdsa"@
    ||| name == "keccak"@
    ||| name == "bitwise"@
    ||| name == "ec_op"@
    ||| name == "poseidon"@
    ||| name == "segment_arena"@
    ||| name == "range_check96"@
    ||| name == "add_mod"@
    ||| name == "mul_mod"@
}

impl Program {
    /// The names of the builtins.
    pub open spec fn builtin_names(self) -> Seq<Seq<char>> {
        self.builtins@.map_values(|s: String| s@)
    }

    /// The words.
    pub open spec fn words(self) -> Seq<Seq<u8>> {
        self.data@.map_values(|d: [u8; 32]| d@)
    }

    /// The hash of the program, if it has one.
    pub open spec fn hash(self) -> Option<Seq<u8>> {
        program_hash(self.main, self.builtin_names(), self.words())
    }

    /// Whether every builtin is a known one.
    pub open spec fn builtins_known(self) -> bool {
        forall|i: int| 0 <= i < self.builtins@.len() ==> is_builtin((#[trigger] self.builtins@[i])@)
    }
}

/// `compute_program_hash_chain` of `cairo-program-runner-lib`, with bootloader
/// version 0 and BLAKE, on a program of these contents: the hash as 32 bytes,
/// most significant first, a function of the contents, and that of an element,
/// which is below the prime. There is one unless a builtin's name is not one
/// that `BuiltinName::from_str` of `cairo-vm` knows.
#[verifier::external_body]
fn native_program_hash(program: &Program) -> (r: Option<[u8; 32]>)
    ensures
        match r {
            Some(h) => program_hash(program.main, program.builtin_names(), program.words()) == Some(
                h@,
            ),
            None => program_hash(program.main, program.builtin_names(), program.words()) is None,
        },
        r is Some == program.builtins_known(),
        r matches Some(h) ==> felt::be_value(h@) < felt::prime(),
{
    let stripped = cairo_vm::vm::runners::cairo_pie::StrippedProgram {
        data: program.data.iter().map(|d| cairo_vm::Felt252::from_bytes_be(d).into()).collect(),
        builtins: program.builtins.iter()
            .map(|b| cairo_vm::types::builtin_name::BuiltinName::from_str(b)).collect::<Option<_>>()?,
        main: program.main,
        prime: (),
    };
    let blake = cairo_program_runner_lib::types::HashFunc::Blake;
    cairo_program_runner_lib::hints::compute_program_hash_chain(&stripped, 0, blake).ok()
        .map(|h| h.to_bytes_be())
}

/// Why a preimage does not name a program.
#[derive(Debug)]
pub enum PreimageError {
    /// The text of the program is not read as one.
    Text(compiled::ProgramError),
    /// The program has no hash, for it has an unknown builtin.
    Program,
    /// The preimage is empty.
    Empty,
    /// The preimage's first entry is no element.
    NotAFelt(String),
    /// The preimage's first entry is another element than the program's hash.
    Mismatch([u8; 32]),
}

/// Whether `r` is the comparison of a preimage's first entry with a program's
/// hash.
pub open spec fn compared(
    hash: Seq<u8>,
    preimage: Seq<String>,
    r: Result<(), PreimageError>,
) -> bool {
    if preimage.len() == 0 {
        r matches Err(PreimageError::Empty)
    } else {
        match felt::dec_felt(preimage[0]@) {
            None => r matches Err(PreimageError::NotAFelt(_)),
            Some(n) => if n == felt::be_value(hash) {
                r is Ok
            } else {
                r matches Err(PreimageError::Mismatch(h)) && h@ == hash
            },
        }
    }
}

/// Compares a preimage's first entry with a program's hash.
pub fn compare_program_hash(hash: [u8; 32], preimage: &Vec<String>) -> (r: Result<
    (),
    PreimageError,
>)
    ensures
        compared(hash@, preimage@, r),
{
    if preimage.len() == 0 {
        return Err(PreimageError::Empty);
    }
    let claimed = preimage[0].as_str();
    let bytes = match felt::read_felt(claimed) {
        Ok(b) => b,
        Err(e) => {
            return Err(PreimageError::NotAFelt(e));
        },
    };
    let mut i: usize = 0;
    while i < 32
        invariant
            i <= 32,
            compared(hash@, preimage@, Ok(())) <==> felt::be_value(bytes@) == felt::be_value(hash@),
            felt::be_value(bytes@) != felt::be_value(hash@) ==> compared(
                hash@,
                preimage@,
                Err(PreimageError::Mismatch(hash)),
            ),
            forall|k: int| 0 <= k < i ==> bytes@[k] == hash@[k],
        decreases 32 - i,
    {
        if bytes[i] != hash[i] {
            proof {
                if felt::be_value(bytes@) == felt::be_value(hash@) {
                    felt::lemma_be_injective(bytes@, hash@);
                }
            }
            return Err(PreimageError::Mismatch(hash));
        }
        i += 1;
    }
    assert(bytes@ =~= hash@);
    Ok(())
}

/// Checks that a leaf's output preimage names the committed program: its first
/// entry is the program's hash.
pub fn check_program_hash(program: &Program, preimage: &Vec<String>) -> (r: Result<
    (),
    PreimageError,
>)
    ensures
        match program.hash() {
            None => r matches Err(PreimageError::Program),
            Some(h) => compared(h, preimage@, r),
        },
        program.hash() is Some == program.builtins_known(),
        program.hash() matches Some(h) ==> felt::be_value(h) < felt::prime(),
{
    match native_program_hash(program) {
        Some(h) => compare_program_hash(h, preimage),
        None => Err(PreimageError::Program),
    }
}

/// Checks that a leaf's output preimage names the program in the text of a
/// compiled one: its first entry is the program's hash.
pub fn check_compiled_program(bytes: &Vec<u8>, preimage: &Vec<String>) -> (r: Result<
    (),
    PreimageError,
>)
    ensures
        if compiled::readable(bytes@) {
            match compiled::compiled_program(bytes@, "main"@) {
                None => r matches Err(PreimageError::Text(compiled::ProgramError::Rejected(_))),
                Some((main, builtins, words)) => {
                    &&& program_hash(main, builtins, words) is Some
                    &&& felt::be_value(program_hash(main, builtins, words)->0) < felt::prime()
                    &&& compared(program_hash(main, builtins, words)->0, preimage@, r)
                },
            }
        } else {
            r matches Err(PreimageError::Text(compiled::ProgramError::Unreadable))
        },
{
    match compiled::parse_program(bytes, "main") {
        Ok(program) => check_program_hash(&program, preimage),
        Err(e) => Err(PreimageError::Text(e)),
    }
}

/// A preimage that was recorded from a dump whose first entry is the program's
/// hash passes the check.
pub proof fn law_recorded_preimage_passes(
    hash: Seq<u8>,
    entry: Seq<char>,
    preimage: Seq<String>,
    r: Result<(), PreimageError>,
)
    requires
        felt::be_value(hash) < felt::prime(),
        felt::dumped_number(entry) == Some(felt::be_value(hash)),
        preimage.len() > 0,
        preimage[0]@ == decimal::dec_text(felt::be_value(hash)),
        compared(hash, preimage, r),
    ensures
        r is Ok,
{
    felt::law_recorded_felt_is_read_back(entry, felt::be_value(hash));
}

/// The number of gates of each kind in a circuit.
#[derive(Debug)]
pub struct Gates {
    pub blake_g: usize,
    pub triple_xor: usize,
    pub m31_to_u32: usize,
    pub add: usize,
    pub sub: usize,
    pub mul: usize,
    pub pointwise_mul: usize,
    pub eq: usize,
    /// The number of inputs of each permutation gate.
    pub permutation: Vec<usize>,
    pub output: usize,
    pub n_vars: usize,
}

/// What was counted while a circuit was built.
#[derive(Clone, Copy, Debug)]
pub struct Stats {
    pub blake_updates: usize,
    pub permutation_inputs: usize,
    pub inv: usize,
    pub div: usize,
    pub simd_inv: usize,
    pub simd_inv_lanes: usize,
    pub simd_inv_vars: usize,
    pub guess: usize,
}

/// The operation ledger of a verification.
#[derive(Debug)]
pub struct Ledger {
    pub system: &'static str,
    pub version: String,
    pub artifact: &'static str,
    pub verifier: &'static str,
    pub hash: Hash,
    pub field: Field,
    pub n_vars: usize,
}

/// The hash part of an operation ledger.
#[derive(Clone, Copy, Debug)]
pub struct Hash {
    pub function: &'static str,
    /// 64-byte compressions.
    pub compressions: usize,
    pub gates: HashGates,
}

/// The gates that implement the compressions: `blake_g` is 80 for each
/// (10 rounds of 8), `triple_xor` is the finalization, and `m31_to_u32`
/// re-encodes field elements as words.
#[derive(Clone, Copy, Debug, PartialEq, Eq, Structural)]
pub struct HashGates {
    pub blake_g: usize,
    pub triple_xor: usize,
    pub m31_to_u32: usize,
}

/// The field part of an operation ledger.
#[derive(Clone, Copy, Debug)]
pub struct Field {
    pub base: &'static str,
    pub gates: FieldGates,
    /// Operations that the gates already cover. Inversions are guessed and
    /// checked by one multiplication and one equality each.
    pub ops: FieldOps,
}

/// Gates that compute in the field.
#[derive(Clone, Copy, Debug, PartialEq, Eq, Structural)]
pub struct FieldGates {
    pub add: usize,
    pub sub: usize,
    pub mul: usize,
    pub pointwise_mul: usize,
    pub eq: usize,
    pub permutation: usize,
    pub permutation_inputs: usize,
    pub output: usize,
}

/// Operations that the gates already cover.
#[derive(Clone, Copy, Debug, PartialEq, Eq, Structural)]
pub struct FieldOps {
    /// QM31 inversions, one guess each.
    pub inv: usize,
    /// QM31 divisions, one guess each.
    pub div: usize,
    /// Calls that invert several M31 values at once.
    pub m31_inv_calls: usize,
    /// M31 inversions performed by those calls.
    pub m31_inv: usize,
    /// QM31 variables guessed by those calls.
    pub m31_inv_vars: usize,
    /// All guessed variables.
    pub guess: usize,
    /// The guesses that are inversion results.
    pub guess_for_inversions: usize,
    /// The rest: the proof and the public inputs, and bit decompositions.
    pub guess_other: usize,
}

/// What the counts are taken of.
pub const VERIFIER: &'static str =
    "circuit_verifier::verify_circuit: the verifier is a stwo-circuits circuit; counts are its gates";

/// The hash function's name in a ledger.
pub const FUNCTION: &'static str = "blake2s";

/// The field's name in a ledger.
pub const BASE: &'static str = "qm31";

/// Which counts do not fit together.
#[derive(Clone, Copy, Debug, PartialEq, Eq, Structural)]
pub enum CountFault {
    /// A compression does not take 80 gates.
    BlakeGates,
    /// The permutation gates have another number of inputs than was counted.
    PermutationInputs,
    /// More inversion results than guesses.
    Guesses,
}

/// The first fault of counts, if there is one.
pub open spec fn fault_of(gates: Gates, stats: Stats) -> Option<CountFault> {
    if gates.blake_g != 80 * stats.blake_updates {
        Some(CountFault::BlakeGates)
    } else if sum(gates.permutation@) != stats.permutation_inputs {
        Some(CountFault::PermutationInputs)
    } else if stats.inv + stats.div + stats.simd_inv_vars > stats.guess {
        Some(CountFault::Guesses)
    } else {
        None
    }
}

/// The operations of the ledger for these counts.
pub open spec fn ops_of(stats: Stats) -> FieldOps {
    FieldOps {
        inv: stats.inv,
        div: stats.div,
        m31_inv_calls: stats.simd_inv,
        m31_inv: stats.simd_inv_lanes,
        m31_inv_vars: stats.simd_inv_vars,
        guess: stats.guess,
        guess_for_inversions: (stats.inv + stats.div + stats.simd_inv_vars) as usize,
        guess_other: (stats.guess - stats.inv - stats.div - stats.simd_inv_vars) as usize,
    }
}

/// The gates that implement the compressions.
pub open spec fn hash_gates_of(gates: Gates) -> HashGates {
    HashGates {
        blake_g: gates.blake_g,
        triple_xor: gates.triple_xor,
        m31_to_u32: gates.m31_to_u32,
    }
}

/// The gates that compute in the field.
pub open spec fn field_gates_of(gates: Gates, stats: Stats) -> FieldGates {
    FieldGates {
        add: gates.add,
        sub: gates.sub,
        mul: gates.mul,
        pointwise_mul: gates.pointwise_mul,
        eq: gates.eq,
        permutation: gates.permutation@.len() as usize,
        permutation_inputs: stats.permutation_inputs,
        output: gates.output,
    }
}

/// The ledger of a verification circuit.
pub fn ledger(version: String, gates: &Gates, stats: Stats) -> (r: Result<Ledger, CountFault>)
    ensures
        match r {
            Ok(l) => {
                &&& fault_of(*gates, stats) is None
                &&& l.system == SYSTEM
                &&& l.version@ == version@
                &&& l.artifact == ARTIFACT
                &&& l.verifier == VERIFIER
                &&& l.hash.function == FUNCTION
                &&& l.hash.compressions == stats.blake_updates
                &&& l.hash.gates == (HashGates {
                    blake_g: gates.blake_g,
                    triple_xor: gates.triple_xor,
                    m31_to_u32: gates.m31_to_u32,
                })
                &&& l.field.base == BASE
                &&& l.field.gates == (FieldGates {
                    add: gates.add,
                    sub: gates.sub,
                    mul: gates.mul,
                    pointwise_mul: gates.pointwise_mul,
                    eq: gates.eq,
                    permutation: gates.permutation@.len() as usize,
                    permutation_inputs: stats.permutation_inputs,
                    output: gates.output,
                })
                &&& l.hash.gates == hash_gates_of(*gates)
                &&& l.field.gates == field_gates_of(*gates, stats)
                &&& l.field.ops == ops_of(stats)
                &&& l.field.ops.m31_inv == stats.simd_inv_lanes
                &&& l.field.ops.m31_inv_calls == stats.simd_inv
                &&& l.field.ops.m31_inv_vars == stats.simd_inv_vars
                &&& l.field.ops.inv == stats.inv
                &&& l.field.ops.div == stats.div
                &&& l.field.ops.guess == stats.guess
                &&& l.n_vars == gates.n_vars
            },
            Err(e) => fault_of(*gates, stats) == Some(e),
        },
{
    if gates.blake_g as u128 != 80 * (stats.blake_updates as u128) {
        return Err(CountFault::BlakeGates);
    }
    match total(&gates.permutation) {
        Some(n) => {
            if n != stats.permutation_inputs {
                return Err(CountFault::PermutationInputs);
            }
        },
        None => {
            return Err(CountFault::PermutationInputs);
        },
    }
    if stats.inv as u128 + stats.div as u128 + stats.simd_inv_vars as u128 > stats.guess as u128 {
        return Err(CountFault::Guesses);
    }
    Ok(
        Ledger {
            system: SYSTEM,
            version,
            artifact: ARTIFACT,
            verifier: VERIFIER,
            hash: Hash {
                function: FUNCTION,
                compressions: stats.blake_updates,
                gates: HashGates {
                    blake_g: gates.blake_g,
                    triple_xor: gates.triple_xor,
                    m31_to_u32: gates.m31_to_u32,
                },
            },
            field: Field {
                base: BASE,
                gates: FieldGates {
                    add: gates.add,
                    sub: gates.sub,
                    mul: gates.mul,
                    pointwise_mul: gates.pointwise_mul,
                    eq: gates.eq,
                    permutation: gates.permutation.len(),
                    permutation_inputs: stats.permutation_inputs,
                    output: gates.output,
                },
                ops: FieldOps {
                    inv: stats.inv,
                    div: stats.div,
                    m31_inv_calls: stats.simd_inv,
                    m31_inv: stats.simd_inv_lanes,
                    m31_inv_vars: stats.simd_inv_vars,
                    guess: stats.guess,
                    guess_for_inversions: stats.inv + stats.div + stats.simd_inv_vars,
                    guess_other: stats.guess - stats.inv - stats.div - stats.simd_inv_vars,
                },
            },
            n_vars: gates.n_vars,
        },
    )
}

/// Every guess is accounted for once: inversion results and the rest make up
/// the guesses.
pub proof fn law_guesses_add_up(gates: Gates, stats: Stats)
    requires
        fault_of(gates, stats) is None,
    ensures
        ({
            let o = ops_of(stats);
            &&& o.guess_for_inversions + o.guess_other == o.guess
            &&& o.inv + o.div + o.m31_inv_vars == o.guess_for_inversions
        }),
{
}

/// How the guesses split into inversion results and the rest.
pub open spec fn guesses_text(o: FieldOps) -> Seq<char> {
    "guesses = "@ + decimal::dec_text(o.guess as nat) + " = "@ + decimal::dec_text(
        o.guess_for_inversions as nat,
    ) + " inversion results ("@ + decimal::dec_text(o.inv as nat) + " qm31 inv + "@
        + decimal::dec_text(o.div as nat) + " qm31 div + "@ + decimal::dec_text(
        o.m31_inv_vars as nat,
    ) + " qm31 vars holding "@ + decimal::dec_text(o.m31_inv as nat) + " m31 inversions in "@
        + decimal::dec_text(o.m31_inv_calls as nat) + " Simd::inv calls) + "@ + decimal::dec_text(
        o.guess_other as nat,
    ) + " proof, public input and bit-decomposition wires"@
}

fn guesses_line(o: FieldOps) -> (r: String)
    ensures
        r@ == guesses_text(o),
{
    let mut r = String::from_str("guesses = ");
    decimal::put_number(&mut r, o.guess as u64);
    r.append(" = ");
    decimal::put_number(&mut r, o.guess_for_inversions as u64);
    r.append(" inversion results (");
    decimal::put_number(&mut r, o.inv as u64);
    r.append(" qm31 inv + ");
    decimal::put_number(&mut r, o.div as u64);
    r.append(" qm31 div + ");
    decimal::put_number(&mut r, o.m31_inv_vars as u64);
    r.append(" qm31 vars holding ");
    decimal::put_number(&mut r, o.m31_inv as u64);
    r.append(" m31 inversions in ");
    decimal::put_number(&mut r, o.m31_inv_calls as u64);
    r.append(" Simd::inv calls) + ");
    decimal::put_number(&mut r, o.guess_other as u64);
    r.append(" proof, public input and bit-decomposition wires");
    r
}

/// The labelled gate counts of a ledger.
pub open spec fn gate_rows(l: Ledger) -> Seq<(&'static str, usize)> {
    seq![
        ("blake_g gates", l.hash.gates.blake_g),
        ("triple_xor gates", l.hash.gates.triple_xor),
        ("m31_to_u32 gates", l.hash.gates.m31_to_u32),
        ("qm31 add gates", l.field.gates.add),
        ("qm31 sub gates", l.field.gates.sub),
        ("qm31 mul gates", l.field.gates.mul),
        ("qm31 pointwise_mul gates", l.field.gates.pointwise_mul),
        ("eq gates", l.field.gates.eq),
        ("permutation gates", l.field.gates.permutation),
        ("output gates", l.field.gates.output),
    ]
}

/// How many compressions a verification takes.
pub open spec fn compressions_text(n: nat) -> Seq<char> {
    "blake2s compressions = "@ + decimal::dec_text(n)
}

/// The lines that show a ledger: compressions, gates and guesses.
pub fn count_lines(l: &Ledger) -> (r: Vec<String>)
    ensures
        r@.len() == 12,
        r@[0]@ == compressions_text(l.hash.compressions as nat),
        r@[0]@ == "blake2s compressions = "@ + decimal::dec_text(l.hash.compressions as nat),
        forall|i: int|
            0 <= i < 10 ==> (#[trigger] r@[i + 1])@ == decimal::row(
                gate_rows(*l)[i].1 as nat,
                gate_rows(*l)[i].0@,
            ),
        r@[11]@ == guesses_text(l.field.ops),
{
    let (h, f) = (l.hash.gates, l.field.gates);
    let rows: Vec<(&'static str, usize)> = vec![
        ("blake_g gates", h.blake_g),
        ("triple_xor gates", h.triple_xor),
        ("m31_to_u32 gates", h.m31_to_u32),
        ("qm31 add gates", f.add),
        ("qm31 sub gates", f.sub),
        ("qm31 mul gates", f.mul),
        ("qm31 pointwise_mul gates", f.pointwise_mul),
        ("eq gates", f.eq),
        ("permutation gates", f.permutation),
        ("output gates", f.output),
    ];
    assert(rows@ =~= gate_rows(*l));
    let mut first = String::from_str("blake2s compressions = ");
    decimal::put_number(&mut first, l.hash.compressions as u64);
    let mut r: Vec<String> = Vec::new();
    r.push(first);
    let mut table = decimal::table(&rows);
    r.append(&mut table);
    r.push(guesses_line(l.field.ops));
    r
}

/// The sizes of the parts of a proof.
#[derive(Clone, Copy, Debug)]
pub struct ProofBytes {
    pub oods_samples: usize,
    pub queried_values: usize,
    pub fri_samples: usize,
    pub fri_decommitments: usize,
    pub trace_decommitments: usize,
    pub estimate: usize,
    pub file: usize,
}

/// The labelled sizes of a proof.
pub open spec fn proof_table(b: ProofBytes) -> Seq<(&'static str, usize)> {
    seq![
        ("OODS samples", b.oods_samples),
        ("queried values", b.queried_values),
        ("FRI witness + last layer", b.fri_samples),
        ("FRI decommitments", b.fri_decommitments),
        ("trace decommitments", b.trace_decommitments),
        ("intrinsic total (size_estimate)", b.estimate),
        ("file (bincode + bzip2)", b.file),
    ]
}

/// The labelled sizes of a proof.
pub fn proof_rows(b: ProofBytes) -> (r: Vec<(&'static str, usize)>)
    ensures
        r@ == seq![
            ("OODS samples", b.oods_samples),
            ("queried values", b.queried_values),
            ("FRI witness + last layer", b.fri_samples),
            ("FRI decommitments", b.fri_decommitments),
            ("trace decommitments", b.trace_decommitments),
            ("intrinsic total (size_estimate)", b.estimate),
            ("file (bincode + bzip2)", b.file),
        ],
        r@ == proof_table(b),
{
    vec![
        ("OODS samples", b.oods_samples),
        ("queried values", b.queried_values),
        ("FRI witness + last layer", b.fri_samples),
        ("FRI decommitments", b.fri_decommitments),
        ("trace decommitments", b.trace_decommitments),
        ("intrinsic total (size_estimate)", b.estimate),
        ("file (bincode + bzip2)", b.file),
    ]
}

/// The components of a leaf circuit proof, in the order of their names.
pub open spec fn components(leaf_circuit_proof: usize) -> Seq<(&'static str, usize)> {
    seq![
        ("circuit_hash", 32usize),
        ("leaf_circuit_proof", leaf_circuit_proof),
        ("preprocessed_root", 32usize),
    ]
}

/// The size of a leaf circuit proof without its public inputs: the serialized
/// proof, the circuit hash that selects the registry entry and the
/// preprocessed root of that circuit, eight words each. Excluded is the
/// output preimage.
pub fn leaf_size(leaf_circuit_proof: usize) -> (r: Size)
    requires
        leaf_circuit_proof + 64 <= usize::MAX,
    ensures
        r.components@ == components(leaf_circuit_proof),
        r.proof_bytes == leaf_circuit_proof + 64,
{
    let v: Vec<(&'static str, usize)> = vec![
        ("circuit_hash", 32),
        ("leaf_circuit_proof", leaf_circuit_proof),
        ("preprocessed_root", 32),
    ];
    proof {
        assert(v@ =~= components(leaf_circuit_proof));
        size::lemma_total_of_three(v@);
    }
    Size::of(v)
}

/// The parameters of the proof system.
#[derive(Debug)]
pub struct Params {
    pub system: &'static str,
    pub version: String,
    pub artifact: &'static str,
    pub field: FieldParams,
    pub fri: FriParams,
    pub trace_log_size: u32,
    pub cairo_trace_log_size: u32,
    pub security: Security,
}

/// The base field and its extension.
#[derive(Clone, Copy, Debug)]
pub struct FieldParams {
    pub base: &'static str,
    pub modulus: u32,
    pub extension_degree: usize,
}

/// The parameters of the low-degree test.
#[derive(Clone, Copy, Debug, PartialEq, Eq, Structural)]
pub struct FriParams {
    pub log_blowup: u32,
    pub queries: usize,
    pub log_fold: u32,
    pub log_last_layer_degree_bound: u32,
    pub pow_bits: u32,
}

/// What is stated of the security.
#[derive(Clone, Copy, Debug)]
pub struct Security {
    pub stated_bits: u32,
    pub basis: &'static str,
    pub source: &'static str,
}

/// What the security statement rests on.
pub const SECURITY_BASIS: &'static str = "conjectured: pow_bits + log_blowup * queries";

/// Where the security statement stands.
pub const SECURITY_SOURCE: &'static str = "stwo/src/core/fri.rs, FriConfig::security_bits";

impl FriParams {
    /// The bits of security that the parameters are conjectured to give.
    pub open spec fn bits(self) -> nat {
        self.pow_bits as nat + self.log_blowup as nat * (self.queries as nat)
    }

    /// The bits of security; none where they do not fit.
    pub fn security_bits(self) -> (r: Option<u32>)
        ensures
            match r {
                Some(b) => b == self.bits(),
                None => self.bits() > u32::MAX,
            },
    {
        proof {
            crate::circuit::lemma_product_bound(
                self.log_blowup as nat,
                0x1_0000_0000,
                self.queries as nat,
                0x1_0000_0000_0000_0000,
            );
        }
        let bits: u128 = self.pow_bits as u128 + self.log_blowup as u128 * (self.queries as u128);
        if bits > u32::MAX as u128 {
            None
        } else {
            Some(bits as u32)
        }
    }
}

/// What a proof is of: its parameters and its shape.
pub open spec fn proof_text(
    name: Seq<char>,
    fri: FriParams,
    preprocessed_trace: Seq<char>,
    commitment_trees: usize,
    queried_columns: usize,
) -> Seq<char> {
    "guest = "@ + name + ", pow_bits = "@ + decimal::dec_text(fri.pow_bits as nat)
        + ", log_blowup = "@ + decimal::dec_text(fri.log_blowup as nat) + ", n_queries = "@
        + decimal::dec_text(fri.queries as nat) + ", security_bits = "@ + decimal::dec_text(
        fri.bits(),
    ) + ", preprocessed_trace = "@ + preprocessed_trace + ", commitment trees = "@
        + decimal::dec_text(commitment_trees as nat) + ", queried columns = "@ + decimal::dec_text(
        queried_columns as nat,
    )
}

/// What a proof is of; none where the bits of security do not fit.
pub fn proof_line(
    name: &str,
    fri: FriParams,
    preprocessed_trace: &str,
    commitment_trees: usize,
    queried_columns: usize,
) -> (r: Option<String>)
    ensures
        match r {
            Some(t) => t@ == proof_text(
                name@,
                fri,
                preprocessed_trace@,
                commitment_trees,
                queried_columns,
            ),
            None => fri.bits() > u32::MAX,
        },
{
    let bits = match fri.security_bits() {
        Some(b) => b,
        None => {
            return None;
        },
    };
    let mut r = String::from_str("guest = ");
    r.append(name);
    r.append(", pow_bits = ");
    decimal::put_number(&mut r, fri.pow_bits as u64);
    r.append(", log_blowup = ");
    decimal::put_number(&mut r, fri.log_blowup as u64);
    r.append(", n_queries = ");
    decimal::put_number(&mut r, fri.queries as u64);
    r.append(", security_bits = ");
    decimal::put_number(&mut r, bits as u64);
    r.append(", preprocessed_trace = ");
    r.append(preprocessed_trace);
    r.append(", commitment trees = ");
    decimal::put_number(&mut r, commitment_trees as u64);
    r.append(", queried columns = ");
    decimal::put_number(&mut r, queried_columns as u64);
    Some(r)
}

/// What a leaf proof is of: the verifier that it selects and its parameters.
pub open spec fn leaf_text(
    name: Seq<char>,
    cairo_trace_log_size: u32,
    circuit_hash: Seq<char>,
    trace_log_size: u32,
    fri: FriParams,
) -> Seq<char> {
    "guest = "@ + name + ".leaf, leaf verifier for Cairo trace log size "@ + decimal::dec_text(
        cairo_trace_log_size as nat,
    ) + ", circuit hash "@ + circuit_hash + ", circuit trace log size "@ + decimal::dec_text(
        trace_log_size as nat,
    ) + ", pow_bits = "@ + decimal::dec_text(fri.pow_bits as nat) + ", n_queries = "@
        + decimal::dec_text(fri.queries as nat) + ", fold_step = "@ + decimal::dec_text(
        fri.log_fold as nat,
    )
}

/// What a leaf proof is of: the verifier that it selects and its parameters.
pub fn leaf_line(
    name: &str,
    cairo_trace_log_size: u32,
    circuit_hash: &str,
    trace_log_size: u32,
    fri: FriParams,
) -> (r: String)
    ensures
        r@ == "guest = "@ + name@ + ".leaf, leaf verifier for Cairo trace log size "@
            + decimal::dec_text(cairo_trace_log_size as nat) + ", circuit hash "@ + circuit_hash@
            + ", circuit trace log size "@ + decimal::dec_text(trace_log_size as nat)
            + ", pow_bits = "@ + decimal::dec_text(fri.pow_bits as nat) + ", n_queries = "@
            + decimal::dec_text(fri.queries as nat) + ", fold_step = "@ + decimal::dec_text(
            fri.log_fold as nat,
        ),
        r@ == leaf_text(name@, cairo_trace_log_size, circuit_hash@, trace_log_size, fri),
{
    let mut r = String::from_str("guest = ");
    r.append(name);
    r.append(".leaf, leaf verifier for Cairo trace log size ");
    decimal::put_number(&mut r, cairo_trace_log_size as u64);
    r.append(", circuit hash ");
    r.append(circuit_hash);
    r.append(", circuit trace log size ");
    decimal::put_number(&mut r, trace_log_size as u64);
    r.append(", pow_bits = ");
    decimal::put_number(&mut r, fri.pow_bits as u64);
    r.append(", n_queries = ");
    decimal::put_number(&mut r, fri.queries as u64);
    r.append(", fold_step = ");
    decimal::put_number(&mut r, fri.log_fold as u64);
    r
}

/// Whether `p` describes a leaf verifier with these parameters.
pub open spec fn describes(
    p: Params,
    version: Seq<char>,
    fri: FriParams,
    trace_log_size: u32,
    cairo_trace_log_size: u32,
) -> bool {
    &&& p.system == SYSTEM
    &&& p.version@ == version
    &&& p.artifact == ARTIFACT
    &&& p.field.base@ == "m31"@
    &&& p.field.modulus == M31_P
    &&& p.field.extension_degree == 4
    &&& p.fri == fri
    &&& p.trace_log_size == trace_log_size
    &&& p.cairo_trace_log_size == cairo_trace_log_size
    &&& p.security.stated_bits == fri.bits()
    &&& p.security.basis == SECURITY_BASIS
    &&& p.security.source == SECURITY_SOURCE
}

/// The parameters of the leaf verifier that a proof selects; none where the
/// bits of security do not fit.
pub fn params(
    version: String,
    fri: FriParams,
    trace_log_size: u32,
    cairo_trace_log_size: u32,
) -> (r: Option<Params>)
    ensures
        match r {
            Some(p) => {
                &&& describes(p, version@, fri, trace_log_size, cairo_trace_log_size)
                &&& p.system == SYSTEM
                &&& p.version@ == version@
                &&& p.artifact == ARTIFACT
                &&& p.field.base@ == "m31"@
                &&& p.field.modulus == M31_P
                &&& p.field.extension_degree == 4
                &&& p.fri == fri
                &&& p.trace_log_size == trace_log_size
                &&& p.cairo_trace_log_size == cairo_trace_log_size
                &&& p.security.stated_bits == fri.bits()
                &&& p.security.basis == SECURITY_BASIS
                &&& p.security.source == SECURITY_SOURCE
            },
            None => fri.bits() > u32::MAX,
        },
{
    let stated_bits = match fri.security_bits() {
        Some(b) => b,
        None => {
            return None;
        },
    };
    Some(
        Params {
            system: SYSTEM,
            version,
            artifact: ARTIFACT,
            field: FieldParams { base: "m31", modulus: M31_P, extension_degree: 4 },
            fri,
            trace_log_size,
            cairo_trace_log_size,
            security: Security {
                stated_bits,
                basis: SECURITY_BASIS,
                source: SECURITY_SOURCE,
            },
        },
    )
}

/// Each kind of gate stands under its own label, and there are no other rows.
pub proof fn law_gate_rows_are_labelled(l: Ledger)
    ensures
        ({
            let rows = gate_rows(l);
            &&& rows.len() == 10
            &&& rows.contains(("blake_g gates", l.hash.gates.blake_g))
            &&& rows.contains(("triple_xor gates", l.hash.gates.triple_xor))
            &&& rows.contains(("m31_to_u32 gates", l.hash.gates.m31_to_u32))
            &&& rows.contains(("qm31 add gates", l.field.gates.add))
            &&& rows.contains(("qm31 sub gates", l.field.gates.sub))
            &&& rows.contains(("qm31 mul gates", l.field.gates.mul))
            &&& rows.contains(("qm31 pointwise_mul gates", l.field.gates.pointwise_mul))
            &&& rows.contains(("eq gates", l.field.gates.eq))
            &&& rows.contains(("permutation gates", l.field.gates.permutation))
            &&& rows.contains(("output gates", l.field.gates.output))
        }),
{
    let rows = gate_rows(l);
    assert(rows[0] == ("blake_g gates", l.hash.gates.blake_g));
    assert(rows[1] == ("triple_xor gates", l.hash.gates.triple_xor));
    assert(rows[2] == ("m31_to_u32 gates", l.hash.gates.m31_to_u32));
    assert(rows[3] == ("qm31 add gates", l.field.gates.add));
    assert(rows[4] == ("qm31 sub gates", l.field.gates.sub));
    assert(rows[5] == ("qm31 mul gates", l.field.gates.mul));
    assert(rows[6] == ("qm31 pointwise_mul gates", l.field.gates.pointwise_mul));
    assert(rows[7] == ("eq gates", l.field.gates.eq));
    assert(rows[8] == ("permutation gates", l.field.gates.permutation));
    assert(rows[9] == ("output gates", l.field.gates.output));
}

/// Each part of a proof stands under its own label, and there are no other
/// rows.
pub proof fn law_proof_rows_are_labelled(b: ProofBytes)
    ensures
        ({
            let rows = proof_table(b);
            &&& rows.len() == 7
            &&& rows.contains(("OODS samples", b.oods_samples))
            &&& rows.contains(("queried values", b.queried_values))
            &&& rows.contains(("FRI witness + last layer", b.fri_samples))
            &&& rows.contains(("FRI decommitments", b.fri_decommitments))
            &&& rows.contains(("trace decommitments", b.trace_decommitments))
            &&& rows.contains(("intrinsic total (size_estimate)", b.estimate))
            &&& rows.contains(("file (bincode + bzip2)", b.file))
        }),
{
    let rows = proof_table(b);
    assert(rows[0] == ("OODS samples", b.oods_samples));
    assert(rows[1] == ("queried values", b.queried_values));
    assert(rows[2] == ("FRI witness + last layer", b.fri_samples));
    assert(rows[3] == ("FRI decommitments", b.fri_decommitments));
    assert(rows[4] == ("trace decommitments", b.trace_decommitments));
    assert(rows[5] == ("intrinsic total (size_estimate)", b.estimate));
    assert(rows[6] == ("file (bincode + bzip2)", b.file));
}

/// The components of a leaf circuit proof are the proof itself and two digests
/// of eight words of four bytes, each under its own name.
pub proof fn law_components_are_named(leaf_circuit_proof: usize)
    ensures
        ({
            let c = components(leaf_circuit_proof);
            &&& c.len() == 3
            &&& c.contains(("circuit_hash", (8 * 4) as usize))
            &&& c.contains(("leaf_circuit_proof", leaf_circuit_proof))
            &&& c.contains(("preprocessed_root", (8 * 4) as usize))
        }),
{
    let c = components(leaf_circuit_proof);
    assert(c[0] == ("circuit_hash", 32usize));
    assert(c[1] == ("leaf_circuit_proof", leaf_circuit_proof));
    assert(c[2] == ("preprocessed_root", 32usize));
}

/// A sum grows by each number.
pub proof fn law_sum_grows(v: Seq<usize>, n: usize)
    ensures
        sum(v.push(n)) == sum(v) + n,
        sum(Seq::<usize>::empty()) == 0,
{
    assert(v.push(n).drop_last() =~= v);
}

/// The M31 inversions of a ledger are the lanes that were inverted, its calls
/// those that invert several at once, and every other entry its own counter;
/// the guesses are split by what was guessed for.
pub proof fn law_ops_are_counted(gates: Gates, stats: Stats)
    requires
        fault_of(gates, stats) is None,
    ensures
        ({
            let o = ops_of(stats);
            &&& o.m31_inv == stats.simd_inv_lanes
            &&& o.m31_inv_calls == stats.simd_inv
            &&& o.m31_inv_vars == stats.simd_inv_vars
            &&& o.inv == stats.inv
            &&& o.div == stats.div
            &&& o.guess == stats.guess
            &&& o.guess_for_inversions == stats.inv + stats.div + stats.simd_inv_vars
            &&& o.guess_other + stats.inv + stats.div + stats.simd_inv_vars == stats.guess
        }),
{
}

/// What was guessed does not count as an inversion: circuits with the same
/// lanes have the same M31 inversions whatever else they hold.
pub proof fn law_inversions_are_lanes(a: Stats, b: Stats)
    ensures
        ops_of(a).m31_inv == ops_of(b).m31_inv <==> a.simd_inv_lanes == b.simd_inv_lanes,
        ops_of(a).m31_inv_calls == ops_of(b).m31_inv_calls <==> a.simd_inv == b.simd_inv,
        ops_of(a).m31_inv_vars == ops_of(b).m31_inv_vars <==> a.simd_inv_vars == b.simd_inv_vars,
        ops_of(a).inv == ops_of(b).inv <==> a.inv == b.inv,
        ops_of(a).div == ops_of(b).div <==> a.div == b.div,
{
}

/// Counts have no fault exactly where a compression takes ten rounds of eight
/// gates, the permutation gates have as many inputs as were counted, and no
/// more inversion results than guesses were counted; the faults come in that
/// order.
pub proof fn law_faults(gates: Gates, stats: Stats)
    ensures
        fault_of(gates, stats) is None <==> ({
            &&& gates.blake_g == 10 * 8 * stats.blake_updates
            &&& sum(gates.permutation@) == stats.permutation_inputs
            &&& stats.inv + stats.div + stats.simd_inv_vars <= stats.guess
        }),
        gates.blake_g != 80 * stats.blake_updates <==> fault_of(gates, stats) == Some(
            CountFault::BlakeGates,
        ),
        gates.blake_g == 80 * stats.blake_updates && sum(gates.permutation@)
            != stats.permutation_inputs <==> fault_of(gates, stats) == Some(
            CountFault::PermutationInputs,
        ),
{
}

/// How the guesses split is shown number by number, each before the words
/// that say what it counts.
pub proof fn law_guesses_text(o: FieldOps)
    ensures
        ({
            let s = guesses_text(o);
            &&& text::stands_between(s, "guesses = "@, decimal::dec_text(o.guess as nat), " = "@)
            &&& text::stands_between(
                s,
                " = "@,
                decimal::dec_text(o.guess_for_inversions as nat),
                " inversion results ("@,
            )
            &&& text::stands_between(
                s,
                " inversion results ("@,
                decimal::dec_text(o.inv as nat),
                " qm31 inv + "@,
            )
            &&& text::stands_between(
                s,
                " qm31 inv + "@,
                decimal::dec_text(o.div as nat),
                " qm31 div + "@,
            )
            &&& text::stands_between(
                s,
                " qm31 div + "@,
                decimal::dec_text(o.m31_inv_vars as nat),
                " qm31 vars holding "@,
            )
            &&& text::stands_between(
                s,
                " qm31 vars holding "@,
                decimal::dec_text(o.m31_inv as nat),
                " m31 inversions in "@,
            )
            &&& text::stands_between(
                s,
                " m31 inversions in "@,
                decimal::dec_text(o.m31_inv_calls as nat),
                " Simd::inv calls) + "@,
            )
            &&& text::stands_between(
                s,
                " Simd::inv calls) + "@,
                decimal::dec_text(o.guess_other as nat),
                " proof, public input and bit-decomposition wires"@,
            )
        }),
{
    broadcast use {text::lemma_stands_at_end, text::lemma_stands_earlier};

    let (p, m, q) = ("guesses = "@, decimal::dec_text(o.guess as nat), " = "@);
    assert(p + m + q =~= Seq::<char>::empty() + p + m + q);
}

/// The grinding gives its bits once, and every query those of the blowup.
pub proof fn law_bits_of_security(fri: FriParams, more: FriParams)
    requires
        more.log_blowup == fri.log_blowup,
        more.pow_bits == fri.pow_bits,
        more.queries == fri.queries + 1,
    ensures
        more.bits() == fri.bits() + fri.log_blowup,
        fri.queries == 0 ==> fri.bits() == fri.pow_bits,
{
    let (b, q) = (fri.log_blowup as int, fri.queries as int);
    assert(b * (q + 1) == b * q + b) by (nonlinear_arith);
    assert(b * 0 == 0) by (nonlinear_arith);
}

/// The steps of the folding and of the last layer do not count as security.
pub proof fn law_bits_ignore_folding(fri: FriParams, log_fold: u32, bound: u32)
    ensures
        (FriParams { log_fold, log_last_layer_degree_bound: bound, ..fri }).bits() == fri.bits(),
{
}

/// What a proof is of is shown part by part, each behind the words that say
/// what it is.
pub proof fn law_proof_text(
    name: Seq<char>,
    fri: FriParams,
    preprocessed_trace: Seq<char>,
    commitment_trees: usize,
    queried_columns: usize,
)
    ensures
        ({
            let s = proof_text(name, fri, preprocessed_trace, commitment_trees, queried_columns);
            let c = decimal::dec_text(queried_columns as nat);
            &&& text::stands_between(s, "guest = "@, name, ", pow_bits = "@)
            &&& text::stands_between(
                s,
                ", pow_bits = "@,
                decimal::dec_text(fri.pow_bits as nat),
                ", log_blowup = "@,
            )
            &&& text::stands_between(
                s,
                ", log_blowup = "@,
                decimal::dec_text(fri.log_blowup as nat),
                ", n_queries = "@,
            )
            &&& text::stands_between(
                s,
                ", n_queries = "@,
                decimal::dec_text(fri.queries as nat),
                ", security_bits = "@,
            )
            &&& text::stands_between(
                s,
                ", security_bits = "@,
                decimal::dec_text(fri.pow_bits as nat + fri.log_blowup as nat * (fri.queries as nat)),
                ", preprocessed_trace = "@,
            )
            &&& text::stands_between(
                s,
                ", preprocessed_trace = "@,
                preprocessed_trace,
                ", commitment trees = "@,
            )
            &&& text::stands_between(
                s,
                ", commitment trees = "@,
                decimal::dec_text(commitment_trees as nat),
                ", queried columns = "@,
            )
            &&& s.skip(s.len() - c.len()) == c
        }),
{
    broadcast use {text::lemma_stands_at_end, text::lemma_stands_earlier};

    let (p, q) = ("guest = "@, ", pow_bits = "@);
    assert(p + name + q =~= Seq::<char>::empty() + p + name + q);
    let s = proof_text(name, fri, preprocessed_trace, commitment_trees, queried_columns);
    let c = decimal::dec_text(queried_columns as nat);
    assert(s.skip(s.len() - c.len()) =~= c);
}

/// A preimage passes exactly where its first entry is read as the element
/// that the program's hash is; otherwise the fault is told from the first
/// entry alone.
pub proof fn law_preimage_is_compared(
    hash: Seq<u8>,
    preimage: Seq<String>,
    r: Result<(), PreimageError>,
)
    requires
        compared(hash, preimage, r),
    ensures
        r is Ok <==> preimage.len() > 0 && felt::dec_felt(preimage[0]@) == Some(
            felt::be_value(hash),
        ),
        (r matches Err(PreimageError::Empty)) <==> preimage.len() == 0,
        (r matches Err(PreimageError::NotAFelt(_))) <==> preimage.len() > 0 && felt::dec_felt(
            preimage[0]@,
        ) is None,
        r matches Err(PreimageError::Mismatch(h)) ==> h@ == hash,
        !(r matches Err(PreimageError::Text(_))),
        !(r matches Err(PreimageError::Program)),
{
}

/// The system, its artifact, its hash and its field are named, and the
/// security is stated on the parameters.
pub proof fn law_names()
    ensures
        SYSTEM@ == "stwo"@,
        ARTIFACT@ == "leaf circuit proof"@,
        FUNCTION@ == "blake2s"@,
        BASE@ == "qm31"@,
        VERIFIER@
            == "circuit_verifier::verify_circuit: the verifier is a stwo-circuits circuit; counts are its gates"@,
        SECURITY_BASIS@ == "conjectured: pow_bits + log_blowup * queries"@,
        SECURITY_SOURCE@ == "stwo/src/core/fri.rs, FriConfig::security_bits"@,
{
}

/// What belongs to a guest is kept under its whole name, so that no two guests
/// share a file.
pub proof fn law_places(a: Seq<char>, b: Seq<char>, suffix: Seq<char>)
    ensures
        place(a, suffix) == "../artifacts/stwo/"@ + a + suffix,
        program_place(a) == "programs/"@ + a + "/compiled.json"@,
        a != b ==> place(a, suffix) != place(b, suffix),
        a != b ==> program_place(a) != program_place(b),
{
    text::lemma_held_apart("../artifacts/stwo/"@, a, b, suffix);
    text::lemma_held_apart("programs/"@, a, b, "/compiled.json"@);
}

/// The compressions of a verification are shown behind the words for them.
pub proof fn law_compressions_text(n: nat)
    ensures
        ({
            let (s, d) = (compressions_text(n), decimal::dec_text(n));
            &&& s.skip(s.len() - d.len()) == d
            &&& s.take(s.len() - d.len()) == "blake2s compressions = "@
        }),
{
    let (s, d) = (compressions_text(n), decimal::dec_text(n));
    assert(s.skip(s.len() - d.len()) =~= d);
    assert(s.take(s.len() - d.len()) =~= "blake2s compressions = "@);
}

/// What a leaf proof is of is shown part by part, each behind the words that
/// say what it is.
pub proof fn law_leaf_text(
    name: Seq<char>,
    cairo_trace_log_size: u32,
    circuit_hash: Seq<char>,
    trace_log_size: u32,
    fri: FriParams,
)
    ensures
        ({
            let s = leaf_text(name, cairo_trace_log_size, circuit_hash, trace_log_size, fri);
            let f = decimal::dec_text(fri.log_fold as nat);
            &&& text::stands_between(
                s,
                "guest = "@,
                name,
                ".leaf, leaf verifier for Cairo trace log size "@,
            )
            &&& text::stands_between(
                s,
                ".leaf, leaf verifier for Cairo trace log size "@,
                decimal::dec_text(cairo_trace_log_size as nat),
                ", circuit hash "@,
            )
            &&& text::stands_between(
                s,
                ", circuit hash "@,
                circuit_hash,
                ", circuit trace log size "@,
            )
            &&& text::stands_between(
                s,
                ", circuit trace log size "@,
                decimal::dec_text(trace_log_size as nat),
                ", pow_bits = "@,
            )
            &&& text::stands_between(
                s,
                ", pow_bits = "@,
                decimal::dec_text(fri.pow_bits as nat),
                ", n_queries = "@,
            )
            &&& text::stands_between(
                s,
                ", n_queries = "@,
                decimal::dec_text(fri.queries as nat),
                ", fold_step = "@,
            )
            &&& s.skip(s.len() - f.len()) == f
        }),
{
    broadcast use {text::lemma_stands_at_end, text::lemma_stands_earlier};

    let (p, q) = ("guest = "@, ".leaf, leaf verifier for Cairo trace log size "@);
    assert(p + name + q =~= Seq::<char>::empty() + p + name + q);
    let s = leaf_text(name, cairo_trace_log_size, circuit_hash, trace_log_size, fri);
    let f = decimal::dec_text(fri.log_fold as nat);
    assert(s.skip(s.len() - f.len()) =~= f);
}

/// A program's hash is that of where it starts, the names of its builtins and
/// its words, in order.
pub proof fn law_program_contents(p: Program, i: int, j: int)
    requires
        0 <= i < p.builtins@.len(),
        0 <= j < p.data@.len(),
    ensures
        p.builtin_names().len() == p.builtins@.len() && p.builtin_names()[i] == p.builtins@[i]@,
        p.words().len() == p.data@.len() && p.words()[j] == p.data@[j]@,
        p.hash() == program_hash(p.main, p.builtin_names(), p.words()),
        p.builtins_known() ==> is_builtin(p.builtins@[i]@),
        !is_builtin(p.builtins@[i]@) ==> !p.builtins_known(),
{
}

/// The builtins go by twelve names.
pub proof fn law_builtins(name: Seq<char>)
    ensures
        is_builtin(name) <==> seq![
            "output"@,
            "range_check"@,
            "pedersen"@,
            "ecdsa"@,
            "keccak"@,
            "bitwise"@,
            "ec_op"@,
            "poseidon"@,
            "segment_arena"@,
            "range_check96"@,
            "add_mod"@,
            "mul_mod"@,
        ].contains(name),
{
    let v = seq![
        "output"@,
        "range_check"@,
        "pedersen"@,
        "ecdsa"@,
        "keccak"@,
        "bitwise"@,
        "ec_op"@,
        "poseidon"@,
        "segment_arena"@,
        "range_check96"@,
        "add_mod"@,
        "mul_mod"@,
    ];
    assert(v[0] == "output"@ && v[1] == "range_check"@ && v[2] == "pedersen"@ && v[3] == "ecdsa"@
        && v[4] == "keccak"@ && v[5] == "bitwise"@ && v[6] == "ec_op"@ && v[7] == "poseidon"@
        && v[8] == "segment_arena"@ && v[9] == "range_check96"@ && v[10] == "add_mod"@ && v[11]
        == "mul_mod"@);
}

/// Each kind of gate is counted in its own entry of a ledger, permutation
/// gates by their number and by their inputs.
pub proof fn law_gates_are_counted(gates: Gates, stats: Stats)
    requires
        gates.permutation@.len() <= usize::MAX,
    ensures
        ({
            let (h, f) = (hash_gates_of(gates), field_gates_of(gates, stats));
            &&& h.blake_g == gates.blake_g
            &&& h.triple_xor == gates.triple_xor
            &&& h.m31_to_u32 == gates.m31_to_u32
            &&& f.add == gates.add
            &&& f.sub == gates.sub
            &&& f.mul == gates.mul
            &&& f.pointwise_mul == gates.pointwise_mul
            &&& f.eq == gates.eq
            &&& f.permutation == gates.permutation@.len()
            &&& f.permutation_inputs == stats.permutation_inputs
            &&& f.output == gates.output
        }),
{
}

/// Parameters describe a leaf verifier exactly where they carry its version
/// and numbers, over the field of `2^31 - 1` elements and its extension of
/// degree four, at the bits that the low-degree test gives.
pub proof fn law_describes(
    p: Params,
    version: Seq<char>,
    fri: FriParams,
    trace_log_size: u32,
    cairo_trace_log_size: u32,
)
    requires
        describes(p, version, fri, trace_log_size, cairo_trace_log_size),
    ensures
        p.system@ == "stwo"@,
        p.version@ == version,
        p.artifact@ == "leaf circuit proof"@,
        p.field.base@ == "m31"@,
        p.field.modulus == 0x8000_0000 - 1,
        p.field.extension_degree == 4,
        p.fri.log_blowup == fri.log_blowup,
        p.fri.queries == fri.queries,
        p.fri.log_fold == fri.log_fold,
        p.fri.log_last_layer_degree_bound == fri.log_last_layer_degree_bound,
        p.fri.pow_bits == fri.pow_bits,
        p.trace_log_size == trace_log_size,
        p.cairo_trace_log_size == cairo_trace_log_size,
        p.security.stated_bits == fri.pow_bits + fri.log_blowup * fri.queries,
        p.security.basis@ == "conjectured: pow_bits + log_blowup * queries"@,
        p.security.source@ == "stwo/src/core/fri.rs, FriConfig::security_bits"@,
{
}

} // verus!
