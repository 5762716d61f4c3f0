use stark_boolean_verifier::count::{Counters, Ops};
use stark_boolean_verifier::decimal;
use stark_boolean_verifier::gadget::Gadget;
use stark_boolean_verifier::lines;
use stark_boolean_verifier::risc0;
use stark_boolean_verifier::risc0::ReceiptBytes;
use stark_boolean_verifier::sp1;
use stark_boolean_verifier::sp1::{CompressedBytes, ShardBytes, ShrinkBytes, Snapshot};
use stark_boolean_verifier::stwo;
use stark_boolean_verifier::stwo::{FriParams, Gates, ProofBytes, Stats};

#[test]
fn numbers_are_written_in_decimal() {
    for n in [0u64, 7, 10, 99, 100, 1_000_000, u64::MAX] {
        assert_eq!(decimal::decimal(n), n.to_string());
    }
}

#[test]
fn table_rows_are_aligned() {
    for n in [0u64, 42, 12_345_678, 123_456_789] {
        assert_eq!(decimal::table_row(n, "x"), format!("{n:>8}  x"));
    }
    let mut s = String::from("|");
    decimal::put_left(&mut s, "h\u{e9}", 4);
    decimal::put_right(&mut s, "w", 3);
    decimal::put_right(&mut s, "wide", 3);
    assert_eq!(s, "|h\u{e9}    wwide");
    assert_eq!(decimal::table(&vec![("a", 1), ("b", 22)]), vec!["       1  a", "      22  b"]);
}

#[test]
fn gadgets_are_shown_in_columns() {
    let g = Gadget::new(1234, 5678, "x");
    assert_eq!(
        lines::gadget("m31_add", g),
        format!(
            "{:<40} nonfree {:>13}  xor {:>13}  total {:>13}",
            "m31_add", 1234, 4444, 5678
        )
    );
}

#[test]
fn sizes_are_shown_with_their_file() {
    assert_eq!(
        lines::written(934, "size.json"),
        "     934  proof without public inputs (written to size.json)"
    );
}

fn three(mul: u64, add: u64, sub: u64) -> sp1::Ops {
    sp1::Ops { mul, add, sub }
}

#[test]
fn counts_of_a_compressed_proof_are_shown() {
    let d = Snapshot {
        total: three(1000, 100, 200),
        in_pow: three(30, 1, 2),
        in_hash: three(600, 50, 40),
        perm_compress: 2,
        perm_sponge: 3,
        perm_duplex: 1,
        pow_calls: 10,
        inv_calls: 10,
    };
    assert_eq!(
        sp1::count_lines("compressed proof", d),
        vec![
            "compressed proof: poseidon2 permutations = 6",
            "       2  truncated_permutation_compress",
            "       3  padding_free_sponge",
            "       1  duplex_challenger",
            "koalabear mul: 1000 measured = 600 in hash suite + 370 residual",
            "koalabear add: 100 measured = 50 in hash suite + 50 residual",
            "koalabear sub: 200 measured = 40 in hash suite + 160 residual",
            "  (+ 30 mul inside 10 pow calls, exponent-dependent, recorded as pow.mul; 1 add, 2 sub inside pow stay in residual)",
        ]
    );
    assert_eq!(
        sp1::execution_line("fib", 5_000_000, 1 << 22),
        "fib: 5000000 cycles, shard size 4194304, 2 shards"
    );
}

#[test]
fn counts_of_a_receipt_are_shown() {
    let c = Counters {
        suite_mul: 700,
        suite_add: 50,
        suite_sub: 5,
        pair_calls: 3,
        elem_perms: 2,
        ext_perms: 1,
        rng_perms: 1,
        ..Counters::default()
    };
    let total = Ops { mul: 1000, add: 80, sub: 9, pow_calls: 2, pow_mul: 30, inv_calls: 1 };
    assert_eq!(
        risc0::count_lines("fib", &c, total),
        vec![
            "guest = fib, poseidon2 permutations = 7",
            "       3  hash_pair",
            "       2  hash_elem_slice",
            "       1  hash_ext_elem_slice",
            "       1  rng",
            "babybear mul: 1000 measured = 700 in hash suite + 270 residual",
            "babybear add: 80 measured = 50 in hash suite + 30 residual",
            "babybear sub: 9 measured = 5 in hash suite + 4 residual",
            "  (mul: + 30 inside 2 pow calls, exponent-dependent, not in the ledger)",
        ]
    );
    assert_eq!(risc0::execution_line("fib", 12, 3), "fib: 12 cycles, 3 segments");
    assert_eq!(
        risc0::receipt_line("fib", "poseidon2", 55),
        "guest = fib, hashfn = poseidon2, seal words = 55"
    );
}

#[test]
fn receipts_are_broken_down() {
    let rows = risc0::receipt_rows(ReceiptBytes {
        seal_words: 5,
        seal: 28,
        control_id: 3,
        control_inclusion_proof: 4,
        claim: 6,
        hashfn: 7,
        verifier_parameters: 8,
        inner: 9,
        journal: 10,
        metadata: 11,
        receipt: 12,
    });
    assert_eq!(rows.len(), 11);
    assert_eq!(rows[0], ("seal (u32 words * 4)", 20));
    assert_eq!(rows[1], ("seal, bincode (adds 8-byte length)", 28));
    assert_eq!(rows[10], ("receipt total", 12));
}

#[test]
fn sp1_proofs_are_broken_down() {
    let s = ShardBytes {
        public_values: 1,
        main_commitment: 2,
        logup_gkr_proof: 3,
        zerocheck_proof: 4,
        opened_values: 5,
        evaluation_proof: 6,
        pcs_proof: 7,
        fri_commitments: 8,
        component_openings: 9,
        fri_openings: 10,
        batch_evaluations: 11,
        sumcheck_proof: 12,
        jagged_eval_proof: 13,
        total: 14,
    };
    let b = CompressedBytes {
        recursion_vk: 15,
        vk_merkle_proof: 16,
        proof: 17,
        public_values: 18,
        sp1_version: 19,
        tee_proof: 20,
        file: 21,
        vk_file: 22,
    };
    let rows = sp1::compressed_rows(s, b);
    let sizes: Vec<usize> = rows.iter().map(|r| r.1).collect();
    assert_eq!(sizes, (1..=22).collect::<Vec<usize>>());
    assert_eq!(rows[9].0, "    FRI query openings + paths");
    assert_eq!(rows[16].0, "proof total (incl. enum tag)");
    let rows = sp1::shrink_rows(s, ShrinkBytes { shrink_vk: 15, vk_merkle_proof: 16, file: 17 });
    assert_eq!(rows.len(), 17);
    assert_eq!(rows[14], ("shrink vk (inside proof, constant)", 15));
    assert_eq!(rows[16], ("file total", 17));
}

#[test]
fn counts_of_a_leaf_proof_are_shown() {
    let gates = Gates {
        blake_g: 240,
        triple_xor: 24,
        m31_to_u32: 7,
        add: 1,
        sub: 2,
        mul: 3,
        pointwise_mul: 4,
        eq: 5,
        permutation: vec![6, 10],
        output: 8,
        n_vars: 99,
    };
    let stats = Stats {
        blake_updates: 3,
        permutation_inputs: 16,
        inv: 2,
        div: 3,
        simd_inv: 1,
        simd_inv_lanes: 9,
        simd_inv_vars: 4,
        guess: 30,
    };
    let l = stwo::ledger(String::new(), &gates, stats).unwrap();
    let shown = stwo::count_lines(&l);
    assert_eq!(shown.len(), 12);
    assert_eq!(shown[0], "blake2s compressions = 3");
    assert_eq!(shown[1], "     240  blake_g gates");
    assert_eq!(shown[7], "       4  qm31 pointwise_mul gates");
    assert_eq!(shown[10], "       8  output gates");
    assert_eq!(
        shown[11],
        "guesses = 30 = 9 inversion results (2 qm31 inv + 3 qm31 div + 4 qm31 vars holding 9 m31 inversions in 1 Simd::inv calls) + 21 proof, public input and bit-decomposition wires"
    );
}

#[test]
fn stwo_proofs_are_described() {
    let fri = FriParams { log_blowup: 1, queries: 70, log_fold: 3, log_last_layer_degree_bound: 0, pow_bits: 26 };
    assert_eq!(
        stwo::proof_line("fib", fri, "CanonicalSmall", 4, 123).as_deref(),
        Some("guest = fib, pow_bits = 26, log_blowup = 1, n_queries = 70, security_bits = 96, preprocessed_trace = CanonicalSmall, commitment trees = 4, queried columns = 123")
    );
    assert_eq!(stwo::proof_line("fib", FriParams { log_blowup: u32::MAX, ..fri }, "", 0, 0), None);
    assert_eq!(
        stwo::leaf_line("fib", 20, "[1, 2]", 17, fri),
        "guest = fib.leaf, leaf verifier for Cairo trace log size 20, circuit hash [1, 2], circuit trace log size 17, pow_bits = 26, n_queries = 70, fold_step = 3"
    );
    let rows = stwo::proof_rows(ProofBytes {
        oods_samples: 1,
        queried_values: 2,
        fri_samples: 3,
        fri_decommitments: 4,
        trace_decommitments: 5,
        estimate: 6,
        file: 7,
    });
    assert_eq!(rows[2], ("FRI witness + last layer", 3));
    assert_eq!(rows[6], ("file (bincode + bzip2)", 7));
}
