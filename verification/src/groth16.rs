//! The Groth16 (BN254) verifier gadget, the baseline that the STARK verifiers
//! are compared with. The in-circuit verifier is run on real proofs, whose
//! acceptance is the validation. The verifier has one public input; each
//! further input adds one G1 scalar multiplication.

use vstd::prelude::*;

use crate::gadget;
use crate::gadget::{Fault, Gadget, MeasureError};
use crate::plan::Outcome;

verus! {

/// What running an in-circuit verifier gave: whether it accepted the proof,
/// and how many gates the run took.
#[derive(Clone, Copy, Debug)]
pub struct Verdict {
    pub accepted: bool,
    pub nonfree: u64,
    pub total: u64,
}

/// What the outputs are checked against.
pub const REFERENCE: &'static str = "arkworks Groth16 proof accepted by the in-circuit verifier";

/// The name of the verifier of uncompressed proofs.
pub const FULL: &'static str = "groth16_bn254_verify_1_input";

/// The name of the verifier of compressed proofs.
pub const COMPRESSED: &'static str = "groth16_bn254_verify_compressed_1_input";

/// What is wrong with the run on proof `k`.
pub open spec fn fault_at(verdicts: Seq<Verdict>, k: int) -> Option<Fault> {
    let v = verdicts[k];
    if !v.accepted {
        Some(Fault::Mismatch)
    } else if v.nonfree > v.total {
        Some(Fault::GateCount)
    } else if k > 0 && (v.nonfree != verdicts[k - 1].nonfree || v.total != verdicts[k - 1].total) {
        Some(Fault::DataDependent)
    } else {
        None
    }
}

/// Whether `r` is the check of a verifier's runs in order: the gadget with the
/// counts they share, or the first fault.
pub open spec fn checked(
    verdicts: Seq<Verdict>,
    name: &'static str,
    r: Result<Gadget, MeasureError>,
) -> bool {
    match r {
        Ok(g) => {
            &&& forall|k: int| 0 <= k < verdicts.len() ==> fault_at(verdicts, k) is None
            &&& g == Gadget::of(verdicts.last().nonfree, verdicts.last().total, REFERENCE)
        },
        Err(e) => {
            &&& e.name == name
            &&& e.input < verdicts.len()
            &&& fault_at(verdicts, e.input as int) == Some(e.fault)
            &&& forall|k: int| 0 <= k < e.input ==> fault_at(verdicts, k) is None
        },
    }
}

/// The gadget of a verifier from its runs on several valid proofs.
pub fn measure_verifier(name: &'static str, verdicts: &Vec<Verdict>) -> (r: Result<
    Gadget,
    MeasureError,
>)
    requires
        verdicts@.len() > 1,
    ensures
        checked(verdicts@, name, r),
{
    let mut outcomes: Vec<Outcome> = Vec::new();
    let mut ok: Vec<bool> = Vec::new();
    let mut i: usize = 0;
    while i < verdicts.len()
        invariant
            i <= verdicts@.len(),
            outcomes@.len() == i,
            ok@.len() == i,
            forall|k: int|
                0 <= k < i ==> (#[trigger] outcomes@[k]).nonfree == verdicts@[k].nonfree
                    && outcomes@[k].total == verdicts@[k].total && ok@[k] == verdicts@[k].accepted,
        decreases verdicts@.len() - i,
    {
        let v = verdicts[i];
        outcomes.push(Outcome { output: [0; 32], nonfree: v.nonfree, total: v.total });
        ok.push(v.accepted);
        i += 1;
    }
    assert forall|k: int| 0 <= k < outcomes@.len() implies gadget::fault_at(outcomes@, ok@, k)
        == #[trigger] fault_at(verdicts@, k) by {
        assert(outcomes@[k].nonfree == verdicts@[k].nonfree);
        if k > 0 {
            assert(outcomes@[k - 1].nonfree == verdicts@[k - 1].nonfree);
        }
    }
    assert(outcomes@[i - 1].nonfree == verdicts@[i - 1].nonfree);
    gadget::check(name, REFERENCE, &outcomes, &ok)
}

/// The named gadgets of the verifiers of uncompressed and of compressed proofs
/// from their runs on several valid proofs, or the first fault.
pub fn measure(full: &Vec<Verdict>, compressed: &Vec<Verdict>) -> (r: Result<
    [(&'static str, Gadget); 2],
    MeasureError,
>)
    requires
        full@.len() > 1,
        compressed@.len() > 1,
    ensures
        match r {
            Ok(v) => {
                &&& v@[0].0 == FULL
                &&& v@[1].0 == COMPRESSED
                &&& checked(full@, FULL, Ok(v@[0].1))
                &&& checked(compressed@, COMPRESSED, Ok(v@[1].1))
            },
            Err(e) => checked(full@, FULL, Err(e)) || ((exists|g: Gadget| #[trigger]
                checked(full@, FULL, Ok(g))) && checked(compressed@, COMPRESSED, Err(e))),
        },
{
    let first = match measure_verifier(FULL, full) {
        Ok(g) => g,
        Err(e) => {
            return Err(e);
        },
    };
    assert(checked(full@, FULL, Ok(first)));
    let second = match measure_verifier(COMPRESSED, compressed) {
        Ok(g) => g,
        Err(e) => {
            return Err(e);
        },
    };
    Ok([(FULL, first), (COMPRESSED, second)])
}

/// A verifier is recorded exactly where it accepted every proof, no run took
/// more AND-type gates than gates, and all runs took the same; what is
/// recorded are the counts of the first run.
pub proof fn law_verifier_check_decides(
    verdicts: Seq<Verdict>,
    name: &'static str,
    r: Result<Gadget, MeasureError>,
)
    requires
        verdicts.len() > 0,
        checked(verdicts, name, r),
    ensures
        r is Ok <==> forall|k: int|
            0 <= k < verdicts.len() ==> (#[trigger] verdicts[k]).accepted && verdicts[k].nonfree
                <= verdicts[k].total && verdicts[k].nonfree == verdicts[0].nonfree
                && verdicts[k].total == verdicts[0].total,
        r matches Ok(g) ==> g.nonfree == verdicts[0].nonfree && g.total == verdicts[0].total
            && g.nonfree + g.xor == g.total && g.validated_against@
            == "arkworks Groth16 proof accepted by the in-circuit verifier"@,
        r matches Err(e) ==> ({
            let (k, v) = (e.input as int, verdicts[e.input as int]);
            &&& e.name == name
            &&& e.input < verdicts.len()
            &&& e.fault == Fault::Mismatch <==> !v.accepted
            &&& e.fault == Fault::GateCount <==> v.accepted && v.nonfree > v.total
            &&& e.fault == Fault::DataDependent ==> k > 0 && (v.nonfree != verdicts[k - 1].nonfree
                || v.total != verdicts[k - 1].total)
            &&& forall|j: int| 0 <= j < k ==> (#[trigger] verdicts[j]).accepted
        }),
{
    if r is Ok {
        assert forall|k: int| 0 <= k < verdicts.len() implies (#[trigger] verdicts[k]).accepted
            && verdicts[k].nonfree <= verdicts[k].total && verdicts[k].nonfree
            == verdicts[0].nonfree && verdicts[k].total == verdicts[0].total by {
            assert(fault_at(verdicts, k) is None);
            lemma_verdicts_chain(verdicts, k);
        }
        lemma_verdicts_chain(verdicts, verdicts.len() - 1);
        assert(fault_at(verdicts, 0) is None);
    } else {
        let k = r->Err_0.input as int;
        assert(fault_at(verdicts, k) is Some);
        assert forall|j: int| 0 <= j < k implies (#[trigger] verdicts[j]).accepted by {
            assert(fault_at(verdicts, j) is None);
        }
        if k > 0 {
            assert(verdicts[k - 1].accepted);
        }
    }
}

proof fn lemma_verdicts_chain(verdicts: Seq<Verdict>, k: int)
    requires
        0 <= k < verdicts.len(),
        forall|i: int| 0 <= i <= k ==> fault_at(verdicts, i) is None,
    ensures
        verdicts[k].nonfree == verdicts[0].nonfree,
        verdicts[k].total == verdicts[0].total,
    decreases k,
{
    if k > 0 {
        lemma_verdicts_chain(verdicts, k - 1);
        assert(fault_at(verdicts, k) is None);
    }
}

/// The two verifiers are named apart.
pub proof fn law_verifier_names()
    ensures
        FULL@ == "groth16_bn254_verify_1_input"@,
        COMPRESSED@ == "groth16_bn254_verify_compressed_1_input"@,
{
}

} // verus!
