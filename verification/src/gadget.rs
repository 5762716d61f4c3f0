//! Gate counts of a gadget, and the checks a gadget passes before its count
//! is recorded.

use vstd::prelude::*;

use crate::plan::Outcome;

verus! {

/// A gadget's gate counts under free-XOR garbling, and what its output was
/// checked against.
#[derive(Clone, Copy, Debug, PartialEq, Eq)]
pub struct Gadget {
    pub nonfree: u64,
    pub xor: u64,
    pub total: u64,
    pub validated_against: &'static str,
}

impl Gadget {
    /// A gadget with `nonfree` AND-type gates among `total` gates; the rest
    /// are XOR-type gates.
    pub fn new(nonfree: u64, total: u64, validated_against: &'static str) -> (g: Gadget)
        requires
            nonfree <= total,
        ensures
            g == Gadget::of(nonfree, total, validated_against),
    {
        Gadget { nonfree, xor: total - nonfree, total, validated_against }
    }

    /// The gadget with these counts.
    pub open spec fn of(nonfree: u64, total: u64, validated_against: &'static str) -> Gadget {
        Gadget { nonfree, xor: (total - nonfree) as u64, total, validated_against }
    }
}

/// Why a gadget's count is not recorded.
#[derive(Clone, Copy, Debug, PartialEq, Eq, Structural)]
pub enum Fault {
    /// The output differs from the native reference.
    Mismatch,
    /// More AND-type gates than gates.
    GateCount,
    /// The counts differ from those of an earlier input.
    DataDependent,
}

/// The fault of a gadget's measurement and the input it was found on.
#[derive(Clone, Copy, Debug, PartialEq, Eq)]
pub struct MeasureError {
    pub name: &'static str,
    pub input: usize,
    pub fault: Fault,
}

/// What is wrong with outcome `k`, where `ok[k]` says whether its output is
/// the expected one.
pub open spec fn fault_at(outcomes: Seq<Outcome>, ok: Seq<bool>, k: int) -> Option<Fault> {
    let o = outcomes[k];
    if !ok[k] {
        Some(Fault::Mismatch)
    } else if o.nonfree > o.total {
        Some(Fault::GateCount)
    } else if k > 0 && (o.nonfree != outcomes[k - 1].nonfree || o.total != outcomes[k - 1].total) {
        Some(Fault::DataDependent)
    } else {
        None
    }
}

/// The result of checking outcomes in order: the gadget with the counts they
/// share, or the first fault.
pub open spec fn checked(
    outcomes: Seq<Outcome>,
    ok: Seq<bool>,
    name: &'static str,
    validated_against: &'static str,
    r: Result<Gadget, MeasureError>,
) -> bool {
    match r {
        Ok(g) => {
            &&& forall|k: int| 0 <= k < outcomes.len() ==> fault_at(outcomes, ok, k) is None
            &&& g == Gadget::of(outcomes.last().nonfree, outcomes.last().total, validated_against)
        },
        Err(e) => {
            &&& e.name == name
            &&& e.input < outcomes.len()
            &&& fault_at(outcomes, ok, e.input as int) == Some(e.fault)
            &&& forall|k: int| 0 <= k < e.input ==> fault_at(outcomes, ok, k) is None
        },
    }
}

/// Checks outcomes in order. `ok` says of each whether its output is the
/// expected one.
pub fn check(
    name: &'static str,
    validated_against: &'static str,
    outcomes: &Vec<Outcome>,
    ok: &Vec<bool>,
) -> (r: Result<Gadget, MeasureError>)
    requires
        outcomes@.len() == ok@.len() > 0,
    ensures
        checked(outcomes@, ok@, name, validated_against, r),
{
    let mut k: usize = 0;
    while k < outcomes.len()
        invariant
            k <= outcomes@.len() == ok@.len(),
            forall|i: int| 0 <= i < k ==> fault_at(outcomes@, ok@, i) is None,
        decreases outcomes@.len() - k,
    {
        let o = outcomes[k];
        if !ok[k] {
            return Err(MeasureError { name, input: k, fault: Fault::Mismatch });
        }
        if o.nonfree > o.total {
            return Err(MeasureError { name, input: k, fault: Fault::GateCount });
        }
        if k > 0 && (o.nonfree != outcomes[k - 1].nonfree || o.total != outcomes[k - 1].total) {
            return Err(MeasureError { name, input: k, fault: Fault::DataDependent });
        }
        k += 1;
    }
    let last = outcomes[outcomes.len() - 1];
    assert(fault_at(outcomes@, ok@, outcomes@.len() - 1) is None);
    Ok(Gadget::new(last.nonfree, last.total, validated_against))
}

/// A gadget is recorded only with counts that every outcome shares.
pub proof fn law_counts_shared(
    outcomes: Seq<Outcome>,
    ok: Seq<bool>,
    name: &'static str,
    validated_against: &'static str,
    r: Result<Gadget, MeasureError>,
)
    requires
        outcomes.len() == ok.len() > 0,
        checked(outcomes, ok, name, validated_against, r),
        r is Ok,
    ensures
        forall|k: int|
            0 <= k < outcomes.len() ==> (#[trigger] outcomes[k]).nonfree == r->Ok_0.nonfree
                && outcomes[k].total == r->Ok_0.total && ok[k],
        r->Ok_0.xor + r->Ok_0.nonfree == r->Ok_0.total,
{
    assert(fault_at(outcomes, ok, outcomes.len() - 1) is None);
    assert forall|k: int| 0 <= k < outcomes.len() implies (#[trigger] outcomes[k]).nonfree
        == r->Ok_0.nonfree && outcomes[k].total == r->Ok_0.total && ok[k] by {
        lemma_counts_chain(outcomes, ok, k);
        assert(fault_at(outcomes, ok, k) is None);
    }
}

proof fn lemma_counts_chain(outcomes: Seq<Outcome>, ok: Seq<bool>, k: int)
    requires
        0 <= k < outcomes.len(),
        forall|i: int| 0 <= i < outcomes.len() ==> fault_at(outcomes, ok, i) is None,
    ensures
        outcomes[k].nonfree == outcomes.last().nonfree,
        outcomes[k].total == outcomes.last().total,
    decreases outcomes.len() - k,
{
    if k + 1 < outcomes.len() {
        lemma_counts_chain(outcomes, ok, k + 1);
        assert(fault_at(outcomes, ok, k + 1) is None);
    }
}

/// Which outcomes carry the expected digests.
pub open spec fn digests_match(outcomes: Seq<Outcome>, expected: Seq<[u8; 32]>) -> Seq<bool> {
    Seq::new(outcomes.len(), |k: int| outcomes[k].output@ == expected[k]@)
}

/// Whether two digests are equal.
fn same_digest(a: &[u8; 32], b: &[u8; 32]) -> (r: bool)
    ensures
        r == (a@ == b@),
{
    let mut i: usize = 0;
    while i < 32
        invariant
            i <= 32,
            forall|k: int| 0 <= k < i ==> a@[k] == b@[k],
        decreases 32 - i,
    {
        if a[i] != b[i] {
            return false;
        }
        i += 1;
    }
    assert(a@ =~= b@);
    true
}

/// Checks the outcomes of a hash gadget against the expected digests.
pub fn check_digests(
    name: &'static str,
    validated_against: &'static str,
    outcomes: &Vec<Outcome>,
    expected: &Vec<[u8; 32]>,
) -> (r: Result<Gadget, MeasureError>)
    requires
        outcomes@.len() == expected@.len() > 0,
    ensures
        checked(
            outcomes@,
            digests_match(outcomes@, expected@),
            name,
            validated_against,
            r,
        ),
{
    let mut ok: Vec<bool> = Vec::new();
    let mut k: usize = 0;
    while k < outcomes.len()
        invariant
            k <= outcomes@.len() == expected@.len(),
            ok@ =~= digests_match(outcomes@, expected@).take(k as int),
        decreases outcomes@.len() - k,
    {
        ok.push(same_digest(&outcomes[k].output, &expected[k]));
        k += 1;
    }
    assert(ok@ =~= digests_match(outcomes@, expected@));
    check(name, validated_against, outcomes, &ok)
}

/// A gadget has the counts it was given, and what is not of AND type is of
/// XOR type.
pub proof fn law_gadget_counts(nonfree: u64, total: u64, validated_against: &'static str)
    requires
        nonfree <= total,
    ensures
        ({
            let g = Gadget::of(nonfree, total, validated_against);
            &&& g.nonfree == nonfree
            &&& g.total == total
            &&& g.nonfree + g.xor == g.total
            &&& g.validated_against == validated_against
        }),
{
}

/// Run `k` gave the expected output, within its gates, and took what the first
/// run took.
pub open spec fn is_sound(outcomes: Seq<Outcome>, ok: Seq<bool>, k: int) -> bool {
    &&& ok[k]
    &&& outcomes[k].nonfree <= outcomes[k].total
    &&& outcomes[k].nonfree == outcomes[0].nonfree
    &&& outcomes[k].total == outcomes[0].total
}

/// A gadget is recorded exactly where every output is the expected one, no
/// run took more AND-type gates than gates, and all runs took the same; what
/// is recorded are the counts of the first run.
pub proof fn law_check_decides(
    outcomes: Seq<Outcome>,
    ok: Seq<bool>,
    name: &'static str,
    validated_against: &'static str,
    r: Result<Gadget, MeasureError>,
)
    requires
        outcomes.len() == ok.len() > 0,
        checked(outcomes, ok, name, validated_against, r),
    ensures
        r is Ok <==> forall|k: int| 0 <= k < outcomes.len() ==> #[trigger] is_sound(outcomes, ok, k),
        r matches Ok(g) ==> g.nonfree == outcomes[0].nonfree && g.total == outcomes[0].total
            && g.validated_against == validated_against && g.xor == outcomes[0].total
            - outcomes[0].nonfree,
{
    if r is Ok {
        assert forall|k: int| 0 <= k < outcomes.len() implies #[trigger] is_sound(
            outcomes,
            ok,
            k,
        ) by {
            lemma_sound(outcomes, ok, k);
        }
        lemma_sound(outcomes, ok, outcomes.len() - 1);
    } else {
        let k = r->Err_0.input as int;
        assert(fault_at(outcomes, ok, k) is Some);
        assert(is_sound(outcomes, ok, k) && k > 0 ==> !is_sound(outcomes, ok, k - 1));
        assert(is_sound(outcomes, ok, k) ==> k > 0);
    }
}

/// The fault that is reported is that of the first faulty run: a wrong output
/// before a wrong count, and a wrong count before one that differs from the
/// run before. The runs before it had none.
pub proof fn law_first_fault(
    outcomes: Seq<Outcome>,
    ok: Seq<bool>,
    name: &'static str,
    validated_against: &'static str,
    e: MeasureError,
)
    requires
        outcomes.len() == ok.len() > 0,
        checked(outcomes, ok, name, validated_against, Err(e)),
    ensures
        e.name == name,
        e.input < outcomes.len(),
        ({
            let (k, o) = (e.input as int, outcomes[e.input as int]);
            &&& e.fault == Fault::Mismatch <==> !ok[k]
            &&& e.fault == Fault::GateCount <==> ok[k] && o.nonfree > o.total
            &&& e.fault == Fault::DataDependent ==> k > 0 && ok[k] && (o.nonfree != outcomes[k
                - 1].nonfree || o.total != outcomes[k - 1].total)
        }),
        forall|k: int| 0 <= k < e.input ==> #[trigger] is_sound(outcomes, ok, k),
{
    assert forall|k: int| 0 <= k < e.input implies #[trigger] is_sound(outcomes, ok, k) by {
        lemma_sound(outcomes, ok, k);
    }
}

proof fn lemma_sound(outcomes: Seq<Outcome>, ok: Seq<bool>, k: int)
    requires
        0 <= k < outcomes.len(),
        forall|i: int| 0 <= i <= k ==> fault_at(outcomes, ok, i) is None,
    ensures
        is_sound(outcomes, ok, k),
    decreases k,
{
    assert(fault_at(outcomes, ok, k) is None);
    if k > 0 {
        lemma_sound(outcomes, ok, k - 1);
    }
}

/// A digest is the expected one exactly where every byte is.
pub proof fn law_digests_are_compared(outcomes: Seq<Outcome>, expected: Seq<[u8; 32]>, k: int)
    requires
        0 <= k < outcomes.len(),
    ensures
        digests_match(outcomes, expected).len() == outcomes.len(),
        digests_match(outcomes, expected)[k] <==> forall|i: int|
            0 <= i < 32 ==> #[trigger] outcomes[k].output@[i] == expected[k]@[i],
{
    if forall|i: int| 0 <= i < 32 ==> #[trigger] outcomes[k].output@[i] == expected[k]@[i] {
        assert(outcomes[k].output@ =~= expected[k]@);
    }
}

} // verus!
