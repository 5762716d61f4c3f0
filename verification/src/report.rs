//! The report of all gadgets' gate counts.

use vstd::prelude::*;

use crate::blake2s;
use crate::field;
use crate::gadget;
use crate::gadget::{Gadget, MeasureError};
use crate::groth16;
use crate::plan::Outcome;
use crate::poseidon2;
use crate::qm31;

verus! {

/// The name under which the BLAKE3 gadget is recorded.
pub const BLAKE3: &'static str = "blake3_compression_64b";

/// What the BLAKE3 gadget's output is checked against.
pub const BLAKE3_REFERENCE: &'static str = "blake3 crate";

/// The BLAKE3 digest of a message, as the `blake3` crate computes it.
pub uninterp spec fn blake3_digest(m: Seq<u8>) -> Seq<u8>;

/// `blake3::hash`: the 32-byte digest of the message, a function of its bytes
/// alone.
#[verifier::external_body]
fn native_blake3(message: &Vec<u8>) -> (r: [u8; 32])
    ensures
        r@ == blake3_digest(message@),
{
    *blake3::hash(message).as_bytes()
}

/// Which outcomes carry the BLAKE3 digest of their message.
pub open spec fn matches(outcomes: Seq<Outcome>) -> Seq<bool> {
    Seq::new(outcomes.len(), |k: int| outcomes[k].output@ == blake3_digest(blake2s::filled(k)))
}

/// The BLAKE3 gadget from its outcomes, one for each message of
/// [`blake2s::input`].
pub fn blake3_64b(outcomes: &Vec<Outcome>) -> (r: Result<Gadget, MeasureError>)
    requires
        outcomes@.len() == 3,
    ensures
        gadget::checked(outcomes@, matches(outcomes@), BLAKE3, BLAKE3_REFERENCE, r),
{
    let mut expected: Vec<[u8; 32]> = Vec::new();
    while expected.len() < 3
        invariant
            expected@.len() <= 3,
            forall|k: int|
                0 <= k < expected@.len() ==> (#[trigger] expected@[k])@ == blake3_digest(
                    blake2s::filled(k),
                ),
        decreases 3 - expected@.len(),
    {
        let m = blake2s::input(expected.len());
        expected.push(native_blake3(&m));
    }
    assert(gadget::digests_match(outcomes@, expected@) =~= matches(outcomes@));
    gadget::check_digests(BLAKE3, BLAKE3_REFERENCE, outcomes, &expected)
}

/// Gate counts, and what they were measured with.
#[derive(Debug)]
pub struct Report {
    pub source: [(&'static str, &'static str); 3],
    pub cost_model: &'static str,
    /// The gadgets under their names, in the order in which they were recorded.
    pub gadgets: Vec<(&'static str, Gadget)>,
}

/// The repository of `g16ckt`, which counts gates.
pub const REPOSITORY: &'static str = "https://github.com/alpenlabs/g16";

/// The revision of `g16ckt`.
pub const REVISION: &'static str = "f78c01da1ec9138b6c3a1c872405c1eefbaca48e";

/// How gates are counted.
pub const COST_MODEL: &'static str =
    "free-XOR garbling; nonfree = AND-type gates, xor = XOR/XNOR gates";

/// The gadgets in the order in which they are recorded.
pub open spec fn recorded(
    blake3: Gadget,
    blake2s: Gadget,
    field: Seq<(&'static str, Gadget)>,
    poseidon2: Seq<(&'static str, Gadget)>,
    qm31: Seq<(&'static str, Gadget)>,
    groth16: Seq<(&'static str, Gadget)>,
) -> Seq<(&'static str, Gadget)> {
    seq![(BLAKE3, blake3), (blake2s::NAME, blake2s)] + field + poseidon2 + qm31 + groth16
}

/// Adds named gadgets behind those recorded so far.
fn record(gadgets: &mut Vec<(&'static str, Gadget)>, more: &[(&'static str, Gadget)])
    ensures
        final(gadgets)@ == old(gadgets)@ + more@,
{
    let ghost before = gadgets@;
    let mut i: usize = 0;
    while i < more.len()
        invariant
            i <= more@.len(),
            gadgets@ =~= before + more@.take(i as int),
        decreases more@.len() - i,
    {
        gadgets.push(more[i]);
        i += 1;
    }
    assert(more@.take(i as int) =~= more@);
}

impl Report {
    /// The report on the gadgets that the hashes, the field operations, the
    /// permutations, the extension-field operations and the Groth16 verifiers
    /// were measured as.
    pub fn new(
        blake3: Gadget,
        blake2s: Gadget,
        field: &Vec<(&'static str, Gadget)>,
        poseidon2: &[(&'static str, Gadget); 2],
        qm31: &Vec<(&'static str, Gadget)>,
        groth16: &[(&'static str, Gadget); 2],
    ) -> (r: Report)
        ensures
            r.source@ == seq![("repository", REPOSITORY), ("crate", "g16ckt"), ("rev", REVISION)],
            r.cost_model == COST_MODEL,
            r.gadgets@ == recorded(blake3, blake2s, field@, poseidon2@, qm31@, groth16@),
    {
        let mut gadgets: Vec<(&'static str, Gadget)> = vec![
            (BLAKE3, blake3),
            (blake2s::NAME, blake2s),
        ];
        assert(gadgets@ =~= seq![(BLAKE3, blake3), (blake2s::NAME, blake2s)]);
        record(&mut gadgets, field.as_slice());
        record(&mut gadgets, poseidon2);
        record(&mut gadgets, qm31.as_slice());
        record(&mut gadgets, groth16);
        let source = [("repository", REPOSITORY), ("crate", "g16ckt"), ("rev", REVISION)];
        assert(source@ =~= seq![
            ("repository", REPOSITORY),
            ("crate", "g16ckt"),
            ("rev", REVISION),
        ]);
        Report { source, cost_model: COST_MODEL, gadgets }
    }
}

/// The names of all gadgets, in the order in which they are recorded.
pub open spec fn names() -> Seq<&'static str> {
    seq![BLAKE3, blake2s::NAME] + field::all_ops().map_values(|op: field::FieldOp| op.label())
        + seq![poseidon2::Perm::BabyBear.label(), poseidon2::Perm::KoalaBear.label()]
        + qm31::all_ops().map_values(|op: qm31::QmOp| op.label()) + seq![
        groth16::FULL,
        groth16::COMPRESSED,
    ]
}

/// The length of a name, and its last character: together they tell the
/// names apart.
spec fn mark(s: Seq<char>) -> (nat, char) {
    (s.len(), s.last())
}

/// No two gadgets share a name, so that none displaces another in a report
/// that is keyed by name.
pub proof fn law_names_distinct(i: int, j: int)
    requires
        0 <= i < j < names().len(),
    ensures
        names().len() == 21,
        names()[i]@ != names()[j]@,
{
    reveal_strlit("blake3_compression_64b");
    reveal_strlit("blake2s_compression_64b");
    reveal_strlit("babybear_add");
    reveal_strlit("babybear_mul");
    reveal_strlit("babybear_sub");
    reveal_strlit("karatsuba_31x31");
    reveal_strlit("koalabear_add");
    reveal_strlit("koalabear_mul");
    reveal_strlit("koalabear_sub");
    reveal_strlit("m31_add");
    reveal_strlit("m31_mul");
    reveal_strlit("m31_sub");
    reveal_strlit("poseidon2_babybear_w24_permutation");
    reveal_strlit("poseidon2_koalabear_w16_permutation");
    reveal_strlit("qm31_add");
    reveal_strlit("qm31_mul_karatsuba");
    reveal_strlit("qm31_mul_schoolbook");
    reveal_strlit("qm31_pointwise_mul");
    reveal_strlit("qm31_sub");
    reveal_strlit("groth16_bn254_verify_1_input");
    reveal_strlit("groth16_bn254_verify_compressed_1_input");
    let marks = seq![
        (22nat, 'b'),
        (23nat, 'b'),
        (12nat, 'd'),
        (12nat, 'l'),
        (12nat, 'b'),
        (15nat, '1'),
        (13nat, 'd'),
        (13nat, 'l'),
        (13nat, 'b'),
        (7nat, 'd'),
        (7nat, 'l'),
        (7nat, 'b'),
        (34nat, 'n'),
        (35nat, 'n'),
        (8nat, 'd'),
        (18nat, 'a'),
        (19nat, 'k'),
        (18nat, 'l'),
        (8nat, 'b'),
        (28nat, 't'),
        (39nat, 't'),
    ];
    assert(mark(names()[i]@) == marks[i]);
    assert(mark(names()[j]@) == marks[j]);
    assert(marks[i] != marks[j]);
}

/// The report holds every gadget it was given under the name it came with:
/// the two hashes first, and the others in the order of their groups.
pub proof fn law_recorded(
    blake3: Gadget,
    blake2s: Gadget,
    field: Seq<(&'static str, Gadget)>,
    poseidon2: Seq<(&'static str, Gadget)>,
    qm31: Seq<(&'static str, Gadget)>,
    groth16: Seq<(&'static str, Gadget)>,
)
    ensures
        ({
            let r = recorded(blake3, blake2s, field, poseidon2, qm31, groth16);
            let (a, b, c) = (
                2 + field.len(),
                2 + field.len() + poseidon2.len(),
                2 + field.len() + poseidon2.len() + qm31.len(),
            );
            &&& r.len() == c + groth16.len()
            &&& r[0].0@ == "blake3_compression_64b"@ && r[0].1 == blake3
            &&& r[1].0@ == "blake2s_compression_64b"@ && r[1].1 == blake2s
            &&& r.subrange(2, a as int) == field
            &&& r.subrange(a as int, b as int) == poseidon2
            &&& r.subrange(b as int, c as int) == qm31
            &&& r.skip(c as int) == groth16
        }),
{
    let r = recorded(blake3, blake2s, field, poseidon2, qm31, groth16);
    let (a, b, c) = (
        2 + field.len(),
        2 + field.len() + poseidon2.len(),
        2 + field.len() + poseidon2.len() + qm31.len(),
    );
    assert(r.subrange(2, a as int) =~= field);
    assert(r.subrange(a as int, b as int) =~= poseidon2);
    assert(r.subrange(b as int, c as int) =~= qm31);
    assert(r.skip(c as int) =~= groth16);
}

/// An outcome passes exactly where its output is the digest of its message.
pub proof fn law_outcomes_are_compared(outcomes: Seq<Outcome>, k: int)
    requires
        0 <= k < outcomes.len(),
    ensures
        matches(outcomes).len() == outcomes.len(),
        matches(outcomes)[k] <==> outcomes[k].output@ == blake3_digest(blake2s::filled(k)),
{
}

/// The report says where its counts come from.
pub proof fn law_sources()
    ensures
        REPOSITORY@ == "https://github.com/alpenlabs/g16"@,
        REVISION@ == "f78c01da1ec9138b6c3a1c872405c1eefbaca48e"@,
        COST_MODEL@ == "free-XOR garbling; nonfree = AND-type gates, xor = XOR/XNOR gates"@,
        BLAKE3_REFERENCE@ == "blake3 crate"@,
{
}

} // verus!
