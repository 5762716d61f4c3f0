use risc0_core::field::baby_bear::Elem;
use stark_boolean_verifier::count;
use stark_boolean_verifier::count::{Counters, CountingRng, Ops};
use stark_boolean_verifier::risc0;
use stark_boolean_verifier::risc0::ParamsError;
use stark_boolean_verifier::sp1;
use stark_boolean_verifier::sp1::Snapshot;

fn native_hash(words: &[u32]) -> [u32; 8] {
    let elems: Vec<Elem> = words.iter().map(|w| Elem::new_raw(*w)).collect();
    risc0_zkp::core::hash::poseidon2::unpadded_hash(elems.iter()).map(|e| e.as_u32_montgomery())
}

#[test]
fn hashing_takes_a_permutation_for_each_block() {
    let perms: Vec<usize> = [0, 1, 15, 16, 17, 32, 33].iter().map(|n| count::unpadded_hash_perms(*n)).collect();
    assert_eq!(perms, vec![1, 1, 1, 1, 2, 2, 3]);
    assert_eq!(count::CELLS_RATE, risc0_zkp::core::hash::poseidon2::CELLS_RATE);
}

#[test]
fn digests_are_the_native_ones_and_are_counted() {
    let mut c = Counters::default();
    let a: [u32; 8] = [1, 2, 3, 4, 5, 6, 7, 8];
    let b: [u32; 8] = [9, 10, 11, 12, 13, 14, 15, 0x7800_0000];
    let mut both = a.to_vec();
    both.extend_from_slice(&b);
    assert_eq!(c.hash_pair(&a, &b), native_hash(&both));
    assert_eq!(c.pair_calls, 1);
    let elems: Vec<u32> = (0..20).collect();
    assert_eq!(c.hash_elem_slice(&elems), native_hash(&elems));
    c.hash_elem_slice(&elems);
    c.hash_elem_slice(&Vec::new());
    assert_eq!((c.elem_calls, c.elem_perms), (3, 5));
    assert_eq!(c.elem_hist.get(&20), Some(&2));
    assert_eq!(c.elem_hist.get(&0), Some(&1));
    let ext: Vec<[u32; 4]> = vec![[1, 2, 3, 4], [5, 6, 7, 8], [9, 10, 11, 12], [0; 4], [13, 14, 15, 16]];
    let flat: Vec<u32> = ext.iter().flat_map(|e| e.iter().copied()).collect();
    assert_eq!(c.hash_ext_elem_slice(&ext), native_hash(&flat));
    assert_eq!((c.ext_calls, c.ext_perms), (1, 2));
    assert_eq!(c.ext_hist.get(&5), Some(&1));
}

#[test]
fn a_digest_is_valid_when_its_words_are_reduced() {
    assert!(count::is_digest_valid(&[0, 1, 2, 3, 4, 5, 6, 0x7800_0000]));
    assert!(!count::is_digest_valid(&[0, 1, 2, 3, 4, 5, 6, 0x7800_0001]));
}

#[test]
fn the_generator_permutes_when_its_pool_is_empty() {
    let mut c = Counters::default();
    let mut rng = CountingRng::new();
    rng.mix(&mut c);
    assert_eq!((c.rng_mixes, c.rng_perms, rng.pool_used), (1, 1, 0));
    rng.squeeze(&mut c, 16);
    assert_eq!((c.rng_perms, rng.pool_used), (1, 16));
    rng.random_elem(&mut c);
    assert_eq!((c.rng_perms, rng.pool_used), (2, 1));
    rng.random_bits(&mut c);
    rng.random_ext_elem(&mut c);
    assert_eq!((c.rng_perms, rng.pool_used, c.rng_squeezed), (2, 9, 25));
    rng.mix(&mut c);
    assert_eq!((c.rng_mixes, c.rng_perms, rng.pool_used), (2, 4, 0));
}

#[test]
fn drawing_in_two_steps_costs_what_one_costs() {
    for m in 0..40 {
        for n in 0..40 {
            let (mut c, mut d) = (Counters::default(), Counters::default());
            let (mut a, mut b) = (CountingRng::new(), CountingRng::new());
            a.squeeze(&mut c, m);
            a.squeeze(&mut c, n);
            b.squeeze(&mut d, m + n);
            assert_eq!((c.rng_perms, a.pool_used), (d.rng_perms, b.pool_used));
        }
    }
}

fn ops(mul: u64, add: u64, sub: u64) -> Ops {
    Ops { mul, add, sub, pow_calls: 2, pow_mul: 30, inv_calls: 1 }
}

#[test]
fn operations_are_counted_between_snapshots() {
    let (a, b) = (ops(10, 20, 30), Ops { pow_calls: 5, pow_mul: 40, inv_calls: 4, ..ops(15, 27, 39) });
    assert!(b.is_after(a));
    assert!(!a.is_after(b));
    assert_eq!(b.since(a), Ops { mul: 5, add: 7, sub: 9, pow_calls: 3, pow_mul: 10, inv_calls: 3 });
    assert_eq!(Ops::default().mul, 0);
    let mut c = Counters::default();
    c.charge(a, b);
    c.charge(a, b);
    assert_eq!((c.suite_mul, c.suite_add, c.suite_sub), (10, 14, 18));
}

fn counted() -> Counters {
    Counters { suite_mul: 700, suite_add: 50, suite_sub: 5, pair_calls: 3, elem_perms: 2, ext_perms: 1, rng_perms: 1, ..Counters::default() }
}

#[test]
fn the_ledger_of_a_receipt_adds_up() {
    let (c, total) = (counted(), ops(1000, 80, 9));
    assert!(c.fits(total));
    let l = risc0::ledger("1.0".to_string(), &c, total);
    assert_eq!((l.system, l.version.as_str(), l.artifact), ("risc0", "1.0", "succinct receipt"));
    assert_eq!(l.hash.function, "poseidon2-babybear");
    assert_eq!((l.hash.state_cells, l.hash.rate, l.hash.rounds_full, l.hash.rounds_partial), (24, 16, 8, 21));
    assert_eq!(l.hash.permutations.total, 7);
    assert_eq!(l.field.in_hash_suite.mul, 700);
    assert_eq!((l.field.residual.mul, l.field.residual.add, l.field.residual.sub), (270, 30, 4));
    assert_eq!((l.field.pow.calls, l.field.pow.inv_calls, l.field.pow.mul), (2, 1, 30));
    assert_eq!(l.field.mul_per_permutation, 100);
    assert_eq!(l.field.base, "babybear");
}

#[test]
fn counts_that_do_not_fit_are_noticed() {
    let c = counted();
    assert!(!c.fits(ops(729, 80, 9)));
    assert!(!c.fits(ops(1000, 49, 9)));
    assert!(!Counters { suite_mul: 701, ..counted() }.fits(ops(1000, 80, 9)));
    assert!(!Counters::default().fits(ops(1000, 80, 9)));
    assert!(!Counters { pair_calls: usize::MAX, ..counted() }.fits(ops(1000, 80, 9)));
}

#[test]
fn a_receipt_is_sized_without_its_public_inputs() {
    let s = risc0::receipt_size(1000, 40, 300);
    assert_eq!(s.proof_bytes, 4340);
    assert_eq!(s.components, vec![("control_id", 40), ("control_inclusion_proof", 300), ("seal", 4000)]);
    assert_eq!(risc0::receipt_path("fib"), "../artifacts/risc0/fib.bin");
}

#[test]
fn the_trace_size_is_read_off_the_seal() {
    let seal: Vec<u32> = vec![7, 8, 18, 25];
    let p = risc0::params("2".to_string(), &seal, 2).unwrap();
    assert_eq!(p.trace_log_size, 18);
    assert_eq!((p.field.base, p.field.modulus, p.field.extension_degree), ("babybear", 2013265921, 4));
    assert_eq!((p.fri.log_blowup, p.fri.queries, p.fri.log_fold, p.fri.pow_bits), (2, 50, 4, 0));
    assert_eq!(p.security.stated_bits, 97);
    assert_eq!(risc0::params("2".to_string(), &seal, 3).unwrap_err(), ParamsError::TraceTooLarge);
    assert_eq!(risc0::params("2".to_string(), &seal, 4).unwrap_err(), ParamsError::ShortSeal);
    assert_eq!(p.fri.queries, risc0_zkp::QUERIES);
    assert_eq!(p.fri.log_blowup, risc0_zkp::INV_RATE.trailing_zeros());
    assert_eq!(p.fri.log_fold, risc0_zkp::FRI_FOLD.trailing_zeros());
    assert_eq!(risc0_zkp::MAX_CYCLES_PO2, 24);
}

#[test]
fn trailing_zeros_are_counted() {
    for n in [1usize, 2, 3, 12, 1 << 40, usize::MAX, 1 << 63] {
        assert_eq!(risc0::trailing_zeros(n), n.trailing_zeros());
    }
}

fn three(mul: u64, add: u64, sub: u64) -> sp1::Ops {
    sp1::Ops { mul, add, sub }
}

fn before() -> Snapshot {
    Snapshot {
        total: three(400_000, 10, 20),
        in_pow: three(5, 0, 0),
        in_hash: three(100, 1, 2),
        perm_compress: 1,
        perm_sponge: 2,
        perm_duplex: 3,
        pow_calls: 4,
        inv_calls: 10_806,
    }
}

fn after() -> Snapshot {
    Snapshot {
        total: three(401_000, 110, 220),
        in_pow: three(35, 0, 0),
        in_hash: three(700, 51, 42),
        perm_compress: 3,
        perm_sponge: 5,
        perm_duplex: 4,
        pow_calls: 14,
        inv_calls: 10_816,
    }
}

#[test]
fn the_ledger_of_a_compressed_proof_adds_up() {
    assert!(after().is_after(before()));
    assert!(!before().is_after(after()));
    assert!(after().since(before()).fits());
    let l = sp1::ledger(sp1::COMPRESSED, "6.3.1".to_string(), before(), after());
    assert_eq!((l.system, l.version.as_str(), l.artifact), ("sp1", "6.3.1", "compressed proof"));
    let p = l.hash.permutations;
    assert_eq!((p.truncated_permutation_compress, p.padding_free_sponge, p.duplex_challenger, p.total), (2, 3, 1, 6));
    let f = l.field;
    assert_eq!(f.in_hash_suite, three(600, 50, 40));
    assert_eq!(f.residual, three(370, 50, 160));
    assert_eq!((f.pow.calls, f.pow.inv_calls, f.pow.mul), (10, 10, 30));
    assert_eq!(f.mul_per_permutation, 100);
    assert_eq!((l.hash.function, f.base), ("poseidon2-koalabear", "koalabear"));
}

#[test]
fn snapshots_that_do_not_fit_are_noticed() {
    let d = after().since(before());
    assert!(!Snapshot { perm_compress: 0, perm_sponge: 0, perm_duplex: 0, ..d }.fits());
    assert!(!Snapshot { perm_compress: 5, ..d }.fits());
    assert!(!Snapshot { in_pow: three(401, 0, 0), ..d }.fits());
    assert!(!Snapshot { total: three(1000, 49, 200), ..d }.fits());
}

#[test]
fn shards_cover_an_execution() {
    assert_eq!(sp1::shard_size("fib"), 1 << 22);
    assert_eq!(sp1::shard_size("journal"), 1 << 24);
    assert_eq!(sp1::shards(0, 1 << 22), 0);
    assert_eq!(sp1::shards(1 << 22, 1 << 22), 1);
    assert_eq!(sp1::shards((1 << 22) + 1, 1 << 22), 2);
    assert_eq!(sp1::shards(u64::MAX, 1), u64::MAX);
    assert_eq!(sp1::shards(u64::MAX, 2), u64::MAX.div_ceil(2));
}

#[test]
fn proofs_are_sized_without_their_public_values() {
    let s = sp1::compressed_size(1_000, 100, 30, 4);
    assert_eq!(s.proof_bytes, 934);
    assert_eq!(
        s.components,
        vec![("recursion_vk", 30), ("shard_proof_without_public_values", 900), ("vk_merkle_proof", 4)]
    );
    let s = sp1::shrink_size(1_000, 100, 30, 4);
    assert_eq!(s.proof_bytes, 934);
    assert_eq!(
        s.components,
        vec![("shard_proof_without_public_values", 900), ("shrink_vk", 30), ("vk_merkle_proof", 4)]
    );
}

#[test]
fn sp1_artifacts_have_their_places() {
    assert_eq!(
        sp1::paths("fib"),
        ("../artifacts/sp1/fib.bin".to_string(), "../artifacts/sp1/fib.vk".to_string())
    );
    assert_eq!(sp1::shrink_path("fib"), "../artifacts/sp1/fib.shrink.bin");
    assert_eq!(
        sp1::elf_path("journal").as_deref(),
        Some("../programs/journal/target/elf-compilation/riscv64im-succinct-zkvm-elf/release/journal")
    );
    assert_eq!(sp1::elf_path("other"), None);
}

// The least number of queries q with ((1 + rate) / 2)^q <= 2^-bits, where rate = 2^-log_blowup.
fn least_queries(log_blowup: u32, bits: usize) -> usize {
    let (n, d) = (
        num_bigint::BigUint::from((1u32 << log_blowup) + 1),
        num_bigint::BigUint::from(2u32 << log_blowup),
    );
    let mut left = num_bigint::BigUint::from(1u32) << bits;
    let mut right = num_bigint::BigUint::from(1u32);
    let mut q = 0;
    while left > right {
        left *= &n;
        right *= &d;
        q += 1;
    }
    q
}

#[test]
fn proof_system_parameters_are_those_of_the_verifier() {
    let p = sp1::params("6".to_string(), 21, 22);
    assert_eq!((p.fri.log_blowup, p.fri.queries, p.fri.log_fold, p.fri.pow_bits), (2, 124, 1, 16));
    assert_eq!((p.field.modulus, p.field.extension_degree), (2130706433, 4));
    assert_eq!((p.log_stacking_height, p.max_log_row_count, p.security.stated_bits), (21, 22, 100));
    assert_eq!(p.fri.queries, least_queries(2, 100 - 16));
    let s = sp1::shrink_params("6".to_string(), 18, 19);
    assert_eq!((s.fri.log_blowup, s.fri.queries, s.fri.log_fold, s.fri.pow_bits), (3, 94, 1, 22));
    assert_eq!(s.fri.queries, least_queries(3, 100 - 22));
    assert_eq!(s.fri.pow_bits, sp1_primitives::fri_params::SP1_SHRINK_WRAP_POW_BITS);
    assert_eq!(s.artifact, "shrink proof");
}

#[test]
fn counts_over_adjacent_stretches_add_up() {
    let (a, b, d) = (ops(10, 20, 30), ops(15, 27, 39), ops(100, 50, 41));
    let (x, y, z) = (b.since(a), d.since(b), d.since(a));
    assert_eq!((z.mul, z.add, z.sub), (x.mul + y.mul, x.add + y.add, x.sub + y.sub));
    let (a, b) = (before(), after());
    let d = Snapshot { total: three(500_000, 300, 300), perm_duplex: 9, ..b };
    let (x, y, z) = (b.since(a), d.since(b), d.since(a));
    assert_eq!(z.total.mul, x.total.mul + y.total.mul);
    assert_eq!(z.perm_duplex, x.perm_duplex + y.perm_duplex);
    assert_eq!(z.inv_calls, x.inv_calls + y.inv_calls);
}

#[test]
fn the_sponge_is_shaped_as_in_the_verifier() {
    assert_eq!(
        count::EXT_SIZE,
        <risc0_core::field::baby_bear::ExtElem as risc0_core::field::ExtElem>::EXT_SIZE
    );
    let h = counted().report();
    assert_eq!(h.state_cells, risc0_zkp::core::hash::poseidon2::CELLS);
    assert_eq!(h.rounds_full, 2 * risc0_zkp::core::hash::poseidon2::ROUNDS_HALF_FULL);
    assert_eq!(h.rounds_partial, risc0_zkp::core::hash::poseidon2::ROUNDS_PARTIAL);
}

#[test]
fn histograms_account_for_calls_and_permutations() {
    let mut c = Counters::default();
    let mut rng = CountingRng::new();
    for n in [0usize, 1, 16, 17, 17, 40, 0, 33] {
        c.hash_elem_slice(&vec![1; n]);
        c.hash_ext_elem_slice(&vec![[2; 4]; n]);
        c.hash_pair(&[3; 8], &[4; 8]);
        rng.squeeze(&mut c, n);
    }
    let h = c.report();
    let elem = &h.calls.hash_elem_slice_len_histogram;
    assert_eq!(elem.values().sum::<usize>(), h.calls.hash_elem_slice);
    let perms: usize = elem.iter().map(|(n, k)| k * count::unpadded_hash_perms(*n)).sum();
    assert_eq!(perms, h.permutations.hash_elem_slice);
    let ext = &h.calls.hash_ext_elem_slice_len_histogram;
    assert_eq!(ext.values().sum::<usize>(), h.calls.hash_ext_elem_slice);
    let perms: usize = ext.iter().map(|(n, k)| k * count::unpadded_hash_perms(4 * n)).sum();
    assert_eq!(perms, h.permutations.hash_ext_elem_slice);
}

#[test]
fn sizes_do_not_depend_on_public_values() {
    let (a, b) = (sp1::compressed_size(1000, 100, 30, 7), sp1::compressed_size(1640, 740, 30, 7));
    assert_eq!(a.proof_bytes, 937);
    assert_eq!(a.proof_bytes, b.proof_bytes);
    assert_eq!(a.components, b.components);
    let (a, b) = (sp1::shrink_size(1000, 100, 30, 7), sp1::shrink_size(900, 0, 30, 7));
    assert_eq!(a.components, b.components);
}

#[test]
fn words_that_are_not_reduced_are_hashed_too() {
    let mut c = Counters::default();
    let words: Vec<u32> = vec![0x7800_0001, 0xffff_fffe, 3];
    assert_eq!(c.hash_elem_slice(&words), native_hash(&words));
    let ext = vec![[0x8000_0000, 1, 2, 0xffff_fff0]];
    assert_eq!(c.hash_ext_elem_slice(&ext), native_hash(&ext[0]));
}

#[test]
fn only_exponentiations_set_ledgers_apart() {
    let c = counted();
    let (a, b) = (ops(1000, 100, 10), Ops { pow_mul: 37, ..ops(1007, 100, 10) });
    assert!(c.fits(a) && c.fits(b));
    let (f, g) = (c.field(a), c.field(b));
    assert_eq!((f.residual.mul, f.residual.add, f.residual.sub), (g.residual.mul, g.residual.add, g.residual.sub));
    assert_eq!((f.pow.mul, g.pow.mul), (30, 37));
    assert_eq!(f.mul_per_permutation, g.mul_per_permutation);
}
