use blake2::Digest;
use risc0_core::field::baby_bear::Elem;
use stark_boolean_verifier::blake2s;
use stark_boolean_verifier::gadget::{Fault, Gadget};
use stark_boolean_verifier::groth16;
use stark_boolean_verifier::groth16::Verdict;
use stark_boolean_verifier::plan::Outcome;
use stark_boolean_verifier::poseidon2;
use stark_boolean_verifier::poseidon2::Perm;
use stark_boolean_verifier::report;
use stark_boolean_verifier::report::Report;

fn native_blake2s(m: &[u8]) -> [u8; 32] {
    blake2::Blake2s256::digest(m).into()
}

#[test]
fn blake2s_circuit_hashes_one_block() {
    for k in 0..3 {
        let m = blake2s::input(k);
        assert_eq!(m.len(), 64);
        assert_eq!(blake2s::run(&m), native_blake2s(&m));
    }
}

#[test]
fn blake2s_circuit_hashes_other_lengths() {
    for n in [0usize, 1, 63, 65, 128] {
        let m: Vec<u8> = (0..n).map(|i| (7 * i + 3) as u8).collect();
        assert_eq!(blake2s::run(&m), native_blake2s(&m), "{n} bytes");
    }
}

#[test]
fn blake2s_of_the_empty_message_is_exact() {
    let d = blake2s::run(&Vec::new());
    assert_eq!(&d[..4], &[0x69, 0x21, 0x7a, 0x30]);
}

fn blake2s_outcomes() -> Vec<Outcome> {
    (0..3)
        .map(|k| Outcome { output: native_blake2s(&blake2s::input(k)), nonfree: 4, total: 6 })
        .collect()
}

#[test]
fn blake2s_gadget_is_checked_against_the_crate() {
    let g = blake2s::measure(&blake2s_outcomes()).unwrap();
    assert_eq!(g, Gadget { nonfree: 4, xor: 2, total: 6, validated_against: "blake2 crate" });
    let mut wrong = blake2s_outcomes();
    wrong[1].output[31] ^= 0x80;
    let e = blake2s::measure(&wrong).unwrap_err();
    assert_eq!((e.name, e.input, e.fault), ("blake2s_compression_64b", 1, Fault::Mismatch));
}

fn blake3_outcomes() -> Vec<Outcome> {
    (0..3)
        .map(|k| {
            let output = *blake3::hash(&blake2s::input(k)).as_bytes();
            Outcome { output, nonfree: 1, total: 3 }
        })
        .collect()
}

#[test]
fn blake3_gadget_is_checked_against_the_crate() {
    let g = report::blake3_64b(&blake3_outcomes()).unwrap();
    assert_eq!(g, Gadget { nonfree: 1, xor: 2, total: 3, validated_against: "blake3 crate" });
    let mut wrong = blake3_outcomes();
    wrong[2].output[0] ^= 1;
    let e = report::blake3_64b(&wrong).unwrap_err();
    assert_eq!((e.name, e.input, e.fault), ("blake3_compression_64b", 2, Fault::Mismatch));
    let mut odd = blake3_outcomes();
    odd[0].nonfree = 4;
    let e = report::blake3_64b(&odd).unwrap_err();
    assert_eq!((e.input, e.fault), (0, Fault::GateCount));
    let mut varying = blake3_outcomes();
    varying[1].total = 5;
    let e = report::blake3_64b(&varying).unwrap_err();
    assert_eq!((e.input, e.fault), (1, Fault::DataDependent));
}

fn native_babybear(state: &[u32]) -> Vec<u32> {
    let mut cells = [Elem::new(0); 24];
    for i in 0..24 {
        cells[i] = Elem::new_raw(state[i]);
    }
    risc0_zkp::core::hash::poseidon2::poseidon2_mix(&mut cells);
    cells[..8].iter().map(|e| e.as_u32_montgomery()).collect()
}

#[test]
fn babybear_permutation_circuit_is_the_native_one() {
    for state in Perm::BabyBear.inputs() {
        assert_eq!(state.len(), 24);
        assert_eq!(poseidon2::run(Perm::BabyBear, &state), native_babybear(&state));
    }
}

#[test]
fn babybear_inputs_are_in_montgomery_form() {
    let s = Perm::BabyBear.inputs();
    assert_eq!(s[0], vec![0; 24]);
    for i in 0..24 {
        assert_eq!(s[1][i], Elem::new(i as u32).as_u32_montgomery());
    }
}

fn koala(words: &[u32]) -> [slop_koala_bear::KoalaBear; 16] {
    // Montgomery words hold x * 2^32; dividing gives the element.
    let p = 0x7f00_0001u64;
    let mut inv = 1u64;
    let (mut b, mut e) = ((1u64 << 32) % p, p - 2);
    while e > 0 {
        if e & 1 == 1 {
            inv = inv * b % p;
        }
        b = b * b % p;
        e >>= 1;
    }
    let mut r = [slop_koala_bear::KoalaBear::default(); 16];
    for i in 0..16 {
        let canonical = (words[i] as u64 * inv % p) as u32;
        r[i] = <slop_koala_bear::KoalaBear as p3_field::AbstractField>::from_canonical_u32(canonical);
    }
    r
}

fn native_koalabear(words: &[u32]) -> Vec<u32> {
    let perm = slop_koala_bear::my_kb_16_perm();
    let out = p3_symmetric::Permutation::permute(&perm, koala(words));
    let p = 0x7f00_0001u64;
    out[..8]
        .iter()
        .map(|e| {
            let v = p3_field::PrimeField32::as_canonical_u32(e) as u64;
            ((v << 32) % p) as u32
        })
        .collect()
}

#[test]
fn koalabear_permutation_circuit_is_the_native_one() {
    for state in Perm::KoalaBear.inputs() {
        assert_eq!(state.len(), 16);
        assert_eq!(poseidon2::run(Perm::KoalaBear, &state), native_koalabear(&state));
    }
}

#[test]
fn koalabear_inputs_are_in_montgomery_form() {
    let s = Perm::KoalaBear.inputs();
    for i in 0..16 {
        assert_eq!(s[1][i], (((i as u64) << 32) % 0x7f00_0001) as u32);
    }
}

fn perm_outcomes(perm: Perm) -> Vec<Outcome> {
    perm.inputs()
        .iter()
        .map(|state| {
            let words = match perm {
                Perm::BabyBear => native_babybear(state),
                Perm::KoalaBear => native_koalabear(state),
            };
            let mut output = [0u8; 32];
            for i in 0..8 {
                output[4 * i..4 * i + 4].copy_from_slice(&words[i].to_le_bytes());
            }
            Outcome { output, nonfree: 100, total: 300 }
        })
        .collect()
}

#[test]
fn permutation_gadgets_are_recorded() {
    let v = poseidon2::measure(&perm_outcomes(Perm::BabyBear), &perm_outcomes(Perm::KoalaBear)).unwrap();
    assert_eq!(v[0].0, "poseidon2_babybear_w24_permutation");
    assert_eq!(v[0].1.validated_against, "risc0-zkp poseidon2_mix");
    assert_eq!(v[1].0, "poseidon2_koalabear_w16_permutation");
    assert_eq!((v[1].1.nonfree, v[1].1.xor, v[1].1.total), (100, 200, 300));
}

#[test]
fn a_wrong_permutation_output_is_a_mismatch() {
    let mut wrong = perm_outcomes(Perm::KoalaBear);
    wrong[2].output[28] ^= 1;
    let e = poseidon2::measure(&perm_outcomes(Perm::BabyBear), &wrong).unwrap_err();
    assert_eq!(
        (e.name, e.input, e.fault),
        ("poseidon2_koalabear_w16_permutation", 2, Fault::Mismatch)
    );
    let mut wrong = perm_outcomes(Perm::BabyBear);
    wrong[0].output[0] ^= 1;
    let e = poseidon2::measure_perm(Perm::BabyBear, &wrong).unwrap_err();
    assert_eq!((e.input, e.fault), (0, Fault::Mismatch));
}

#[test]
fn groth16_verifiers_are_recorded_when_they_accept() {
    let full = vec![Verdict { accepted: true, nonfree: 5, total: 8 }; 2];
    let compressed = vec![Verdict { accepted: true, nonfree: 6, total: 10 }; 3];
    let v = groth16::measure(&full, &compressed).unwrap();
    assert_eq!(v[0].0, "groth16_bn254_verify_1_input");
    assert_eq!((v[0].1.nonfree, v[0].1.xor, v[0].1.total), (5, 3, 8));
    assert_eq!(v[1].0, "groth16_bn254_verify_compressed_1_input");
    assert_eq!((v[1].1.nonfree, v[1].1.xor, v[1].1.total), (6, 4, 10));
    assert_eq!(
        v[0].1.validated_against,
        "arkworks Groth16 proof accepted by the in-circuit verifier"
    );
}

#[test]
fn groth16_verifiers_are_not_recorded_when_they_reject() {
    let ok = Verdict { accepted: true, nonfree: 5, total: 8 };
    let no = Verdict { accepted: false, nonfree: 5, total: 8 };
    let odd = Verdict { accepted: true, nonfree: 9, total: 8 };
    let more = Verdict { accepted: true, nonfree: 5, total: 9 };
    let fault = |full: [Verdict; 2], compressed: [Verdict; 2]| {
        let e = groth16::measure(&full.to_vec(), &compressed.to_vec()).unwrap_err();
        (e.name, e.input, e.fault)
    };
    assert_eq!(fault([ok, no], [no, ok]), (groth16::FULL, 1, Fault::Mismatch));
    assert_eq!(fault([ok, ok], [no, ok]), (groth16::COMPRESSED, 0, Fault::Mismatch));
    assert_eq!(fault([ok, ok], [odd, ok]), (groth16::COMPRESSED, 0, Fault::GateCount));
    assert_eq!(fault([ok, more], [ok, ok]), (groth16::FULL, 1, Fault::DataDependent));
}

#[test]
fn a_report_holds_every_gadget_once() {
    let g = Gadget::new(1, 2, "x");
    let field: Vec<(&'static str, Gadget)> =
        stark_boolean_verifier::field::operations().into_iter().map(|op| (op.name(), g)).collect();
    let qm31: Vec<(&'static str, Gadget)> =
        stark_boolean_verifier::qm31::operations().into_iter().map(|op| (op.name(), g)).collect();
    let poseidon2 = [(Perm::BabyBear.name(), g), (Perm::KoalaBear.name(), g)];
    let groth16 = [(groth16::FULL, g), (groth16::COMPRESSED, g)];
    let r = Report::new(g, g, &field, &poseidon2, &qm31, &groth16);
    assert_eq!(r.gadgets.len(), 21);
    assert_eq!(r.gadgets[0].0, "blake3_compression_64b");
    assert_eq!(r.gadgets[1].0, "blake2s_compression_64b");
    let names: std::collections::BTreeSet<&str> = r.gadgets.iter().map(|g| g.0).collect();
    assert_eq!(names.len(), 21);
    assert_eq!(r.source[1], ("crate", "g16ckt"));
    assert_eq!(r.source[2].1, "f78c01da1ec9138b6c3a1c872405c1eefbaca48e");
    assert_eq!(
        r.cost_model,
        "free-XOR garbling; nonfree = AND-type gates, xor = XOR/XNOR gates"
    );
}
