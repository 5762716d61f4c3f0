use stark_boolean_verifier::compiled::ProgramError;
use stark_boolean_verifier::felt;
use stark_boolean_verifier::stwo;
use stark_boolean_verifier::stwo::{CountFault, FriParams, Gates, PreimageError, Program, Stats};

#[test]
fn stwo_artifacts_have_their_places() {
    assert_eq!(stwo::proof_path("fib"), "../artifacts/stwo/fib.bin");
    assert_eq!(stwo::program_path("fib"), "programs/fib/compiled.json");
    assert_eq!(stwo::leaf_path("fib"), "../artifacts/stwo/fib.leaf.json");
    assert_eq!(stwo::leaf_guest("fib.leaf").as_deref(), Some("fib"));
    assert_eq!(stwo::leaf_guest(".leaf").as_deref(), Some(""));
    assert_eq!(stwo::leaf_guest("fib"), None);
    assert_eq!(stwo::leaf_guest("leaf"), None);
}

#[test]
fn the_first_matching_registry_entry_is_selected() {
    let (a, b) = ([1u32; 8], [1, 1, 1, 1, 1, 1, 1, 2]);
    assert_eq!(stwo::select(&vec![a, b, b], &b), Some(1));
    assert_eq!(stwo::select(&vec![a, a], &b), None);
    assert_eq!(stwo::select(&Vec::new(), &b), None);
}

#[test]
fn the_trace_is_as_large_as_its_largest_column() {
    assert_eq!(stwo::trace_log_size(&vec![4, 19, 7]), Some(19));
    assert_eq!(stwo::trace_log_size(&Vec::new()), None);
    assert_eq!(stwo::total(&vec![1, 2, 3]), Some(6));
    assert_eq!(stwo::total(&vec![usize::MAX, 1]), None);
}

fn be(n: u64) -> [u8; 32] {
    let mut b = [0u8; 32];
    b[24..].copy_from_slice(&n.to_be_bytes());
    b
}

fn texts(v: &[&str]) -> Vec<String> {
    v.iter().map(|s| s.to_string()).collect()
}

#[test]
fn a_preimage_names_a_program_by_its_hash() {
    assert!(stwo::compare_program_hash(be(255), &texts(&["255", "9"])).is_ok());
    assert!(stwo::compare_program_hash(be(255), &texts(&["00255"])).is_ok());
    // Elements are compared, so that the prime may be added.
    let plus_prime = "3618502788666131213697322783095070105623107215331596699973092056135872020736";
    assert!(stwo::compare_program_hash(be(255), &texts(&[plus_prime])).is_ok());
    let negative = "-3618502788666131213697322783095070105623107215331596699973092056135872020226";
    assert!(stwo::compare_program_hash(be(255), &texts(&[negative])).is_ok());
}

#[test]
fn each_fault_of_a_preimage_is_told_apart() {
    let compare = |entries: &[&str]| stwo::compare_program_hash(be(255), &texts(entries)).unwrap_err();
    assert!(matches!(compare(&[]), PreimageError::Empty));
    assert!(matches!(compare(&["0xff"]), PreimageError::NotAFelt(_)));
    assert!(matches!(compare(&[""]), PreimageError::NotAFelt(_)));
    assert!(matches!(compare(&["-"]), PreimageError::NotAFelt(_)));
    let wide = "9".repeat(90);
    assert!(matches!(compare(&[&wide]), PreimageError::NotAFelt(_)));
    let edge = format!("{}7", felt::EDGE);
    assert!(matches!(compare(&[&edge]), PreimageError::Mismatch(_)));
    assert!(stwo::compare_program_hash(be(1), &texts(&[&edge])).is_ok());
    match compare(&["254"]) {
        PreimageError::Mismatch(h) => assert_eq!(h, be(255)),
        other => panic!("{other:?}"),
    }
}

fn program() -> Program {
    Program {
        main: 3,
        builtins: texts(&["output", "range_check"]),
        data: vec![be(0x480680017fff8000), be(42), be(0x208b7fff7fff7ffe)],
    }
}

fn native_hash(p: &Program) -> cairo_vm::Felt252 {
    let stripped = cairo_vm::vm::runners::cairo_pie::StrippedProgram {
        data: p.data.iter().map(|d| cairo_vm::Felt252::from_bytes_be(d).into()).collect(),
        builtins: vec![
            cairo_vm::types::builtin_name::BuiltinName::output,
            cairo_vm::types::builtin_name::BuiltinName::range_check,
        ],
        main: p.main,
        prime: (),
    };
    let blake = cairo_program_runner_lib::types::HashFunc::Blake;
    cairo_program_runner_lib::hints::compute_program_hash_chain(&stripped, 0, blake).unwrap()
}

#[test]
fn a_recorded_preimage_passes_the_check() {
    let p = program();
    let hash = native_hash(&p);
    let dump = vec![format!("{hash:#x}"), "0x2a".to_string()];
    let preimage = felt::output_preimage(&dump).unwrap();
    assert!(stwo::check_program_hash(&p, &preimage).is_ok());
    let other = Program { main: 4, ..program() };
    match stwo::check_program_hash(&other, &preimage) {
        Err(PreimageError::Mismatch(h)) => assert_eq!(h, native_hash(&other).to_bytes_be()),
        r => panic!("{r:?}"),
    }
    let mut other = program();
    other.data[1] = be(43);
    assert!(matches!(stwo::check_program_hash(&other, &preimage), Err(PreimageError::Mismatch(_))));
}

#[test]
fn a_preimage_names_the_program_in_a_compiled_text() {
    let text = "{\"prime\": \"0x800000000000011000000000000000000000000000000000000000000000001\", \"builtins\": [\"output\", \"range_check\"], \"data\": [\"0x480680017fff8000\", \"0x2a\", \"0x208b7fff7fff7ffe\"], \"identifiers\": {\"__main__.main\": {\"pc\": 3}}, \"hints\": {}, \"reference_manager\": {\"references\": []}}";
    let bytes = text.as_bytes().to_vec();
    let dump = format!("[\"{:#x}\", \"0x2a\"]", native_hash(&program()));
    let preimage = felt::recorded_preimage(&dump).unwrap();
    assert!(stwo::check_compiled_program(&bytes, &preimage).is_ok());
    let other = text.replace("0x2a", "0x2b").into_bytes();
    match stwo::check_compiled_program(&other, &preimage) {
        Err(PreimageError::Mismatch(h)) => {
            let mut p = program();
            p.data[1] = be(43);
            assert_eq!(h, native_hash(&p).to_bytes_be());
        }
        r => panic!("{r:?}"),
    }
    let empty = stwo::check_compiled_program(&bytes, &Vec::new());
    assert!(matches!(empty, Err(PreimageError::Empty)));
    let cut = stwo::check_compiled_program(&bytes[1..].to_vec(), &preimage);
    assert!(matches!(cut, Err(PreimageError::Text(ProgramError::Rejected(_)))));
    let short = text.replace("0x2a", "2").into_bytes();
    let short = stwo::check_compiled_program(&short, &preimage);
    assert!(matches!(short, Err(PreimageError::Text(ProgramError::Unreadable))));
}

#[test]
fn an_unknown_builtin_has_no_hash() {
    for (name, known) in [
        ("output", true),
        ("range_check", true),
        ("pedersen", true),
        ("ecdsa", true),
        ("keccak", true),
        ("bitwise", true),
        ("ec_op", true),
        ("poseidon", true),
        ("segment_arena", true),
        ("range_check96", true),
        ("add_mod", true),
        ("mul_mod", true),
        ("output_builtin", false),
        ("", false),
    ] {
        let p = Program { main: 0, builtins: texts(&[name]), data: Vec::new() };
        let r = stwo::check_program_hash(&p, &Vec::new());
        if known {
            assert!(matches!(r, Err(PreimageError::Empty)), "{name}");
        } else {
            assert!(matches!(r, Err(PreimageError::Program)), "{name}");
        }
    }
}

fn gates() -> Gates {
    Gates {
        blake_g: 240,
        triple_xor: 24,
        m31_to_u32: 7,
        add: 1,
        sub: 2,
        mul: 3,
        pointwise_mul: 4,
        eq: 5,
        permutation: vec![6, 10],
        output: 8,
        n_vars: 99,
    }
}

fn stats() -> Stats {
    Stats {
        blake_updates: 3,
        permutation_inputs: 16,
        inv: 2,
        div: 3,
        simd_inv: 1,
        simd_inv_lanes: 9,
        simd_inv_vars: 4,
        guess: 30,
    }
}

#[test]
fn the_ledger_of_a_leaf_proof_adds_up() {
    let l = stwo::ledger("r@12345678".to_string(), &gates(), stats()).unwrap();
    assert_eq!((l.system, l.version.as_str(), l.artifact), ("stwo", "r@12345678", "leaf circuit proof"));
    assert_eq!((l.hash.function, l.hash.compressions), ("blake2s", 3));
    assert_eq!((l.hash.gates.blake_g, l.hash.gates.triple_xor, l.hash.gates.m31_to_u32), (240, 24, 7));
    let g = l.field.gates;
    assert_eq!((g.add, g.sub, g.mul, g.pointwise_mul, g.eq), (1, 2, 3, 4, 5));
    assert_eq!((g.permutation, g.permutation_inputs, g.output), (2, 16, 8));
    let o = l.field.ops;
    assert_eq!((o.inv, o.div, o.m31_inv_calls, o.m31_inv, o.m31_inv_vars), (2, 3, 1, 9, 4));
    assert_eq!((o.guess, o.guess_for_inversions, o.guess_other), (30, 9, 21));
    assert_eq!((l.field.base, l.n_vars), ("qm31", 99));
}

#[test]
fn circuit_counts_that_do_not_fit_are_noticed() {
    let fault = |g: Gates, s: Stats| stwo::ledger(String::new(), &g, s).unwrap_err();
    assert_eq!(fault(Gates { blake_g: 241, ..gates() }, stats()), CountFault::BlakeGates);
    assert_eq!(fault(gates(), Stats { permutation_inputs: 15, ..stats() }), CountFault::PermutationInputs);
    assert_eq!(
        fault(Gates { permutation: vec![usize::MAX, 17], ..gates() }, stats()),
        CountFault::PermutationInputs
    );
    assert_eq!(fault(gates(), Stats { guess: 8, ..stats() }), CountFault::Guesses);
    assert!(stwo::ledger(String::new(), &gates(), Stats { guess: 9, ..stats() }).is_ok());
}

#[test]
fn a_leaf_proof_is_sized_without_its_public_inputs() {
    let s = stwo::leaf_size(1000);
    assert_eq!(s.proof_bytes, 1064);
    assert_eq!(
        s.components,
        vec![("circuit_hash", 32), ("leaf_circuit_proof", 1000), ("preprocessed_root", 32)]
    );
}

#[test]
fn security_is_grinding_and_queries() {
    let fri = FriParams { log_blowup: 4, queries: 20, log_fold: 3, log_last_layer_degree_bound: 0, pow_bits: 26 };
    assert_eq!(fri.security_bits(), Some(106));
    let p = stwo::params("v".to_string(), fri, 20, 22).unwrap();
    assert_eq!(p.security.stated_bits, 106);
    assert_eq!((p.field.base, p.field.modulus, p.field.extension_degree), ("m31", 2147483647, 4));
    assert_eq!((p.trace_log_size, p.cairo_trace_log_size), (20, 22));
    assert_eq!(p.fri, fri);
    let wide = FriParams { log_blowup: u32::MAX, ..fri };
    assert_eq!(wide.security_bits(), None);
    assert!(stwo::params("v".to_string(), wide, 20, 22).is_none());
    let many = FriParams { queries: (1 << 32) + 20, ..fri };
    assert_eq!(many.security_bits(), None);
    let some = FriParams { queries: 1 << 29, ..fri };
    assert_eq!(some.security_bits(), Some((1 << 31) + 26));
}
