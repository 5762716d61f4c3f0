use stark_boolean_verifier::blake2s;
use stark_boolean_verifier::circuit::{Op, WireId};
use stark_boolean_verifier::field;
use stark_boolean_verifier::field::{
    FieldOp, BABYBEAR_MU, BABYBEAR_P, KOALABEAR_MU, KOALABEAR_P, M31_P,
};
use stark_boolean_verifier::gadget::{Fault, Gadget};
use stark_boolean_verifier::plan::Outcome;
use stark_boolean_verifier::poseidon2;
use stark_boolean_verifier::poseidon2::Perm;
use stark_boolean_verifier::qm31;
use stark_boolean_verifier::qm31::QmOp;

const QP: u64 = M31_P as u64;

fn pow(mut b: u64, mut e: u64, p: u64) -> u64 {
    let mut r = 1;
    while e > 0 {
        if e & 1 == 1 {
            r = r * b % p;
        }
        b = b * b % p;
        e >>= 1;
    }
    r
}

fn r_inverse(p: u64) -> u64 {
    pow((1u64 << 32) % p, p - 2, p)
}

fn expected(op: FieldOp, a: u32, b: u32) -> u32 {
    let (p, x, y) = (op.modulus() as u64, a as u64, b as u64);
    let v = match op {
        FieldOp::BabyBearAdd | FieldOp::KoalaBearAdd | FieldOp::M31Add => (x + y) % p,
        FieldOp::BabyBearSub | FieldOp::KoalaBearSub | FieldOp::M31Sub => (x + p - y) % p,
        FieldOp::BabyBearMul | FieldOp::KoalaBearMul => x * y % p * r_inverse(p) % p,
        FieldOp::M31Mul => x * y % p,
        FieldOp::Karatsuba31x31 => (x * y) & 0xffff_ffff,
    };
    v as u32
}

fn word_output(w: u32) -> [u8; 32] {
    let mut out = [0u8; 32];
    out[..4].copy_from_slice(&w.to_le_bytes());
    out
}

fn field_outcomes(op: FieldOp) -> Vec<Outcome> {
    field::inputs(op.modulus())
        .into_iter()
        .map(|(a, b)| Outcome { output: word_output(op.native(a, b)), nonfree: 10, total: 25 })
        .collect()
}

#[test]
fn montgomery_constants_invert_the_primes() {
    assert_eq!(BABYBEAR_P.wrapping_mul(BABYBEAR_MU), 1);
    assert_eq!(KOALABEAR_P.wrapping_mul(KOALABEAR_MU), 1);
    assert_eq!(BABYBEAR_P, 15 * (1 << 27) + 1);
    assert_eq!(KOALABEAR_P, (1u32 << 31) - (1 << 24) + 1);
    assert_eq!(M31_P, (1u32 << 31) - 1);
    assert_eq!(BABYBEAR_P, risc0_core::field::baby_bear::P);
}

#[test]
fn field_circuits_compute_field_arithmetic() {
    for op in field::operations() {
        for (a, b) in field::inputs(op.modulus()) {
            assert_eq!(op.native(a, b), expected(op, a, b), "{} native {a} {b}", op.name());
            assert_eq!(field::run(op, a, b), expected(op, a, b), "{} circuit {a} {b}", op.name());
        }
    }
}

#[test]
fn field_circuits_agree_with_the_reference_on_more_operands() {
    let mut x = 0x2545_f491u64;
    for op in field::operations() {
        for _ in 0..20 {
            x = x.wrapping_mul(6364136223846793005).wrapping_add(1442695040888963407);
            let a = (x >> 33) as u32 % op.modulus();
            let b = (x >> 7) as u32 % op.modulus();
            assert_eq!(field::run(op, a, b), expected(op, a, b), "{} {a} {b}", op.name());
        }
    }
}

#[test]
fn montgomery_product_of_exact_values() {
    // One in Montgomery form is 2^32 mod p, and is neutral.
    let one = (1u64 << 32) as u128 % BABYBEAR_P as u128;
    assert_eq!(one, 268435454);
    assert_eq!(field::run(FieldOp::BabyBearMul, one as u32, 12345), 12345);
    assert_eq!(field::run(FieldOp::BabyBearMul, 1, 1), r_inverse(BABYBEAR_P as u64) as u32);
    assert_eq!(field::monty_mul_ref(1, 1, KOALABEAR_P, KOALABEAR_MU), r_inverse(KOALABEAR_P as u64) as u32);
    assert_eq!(field::run(FieldOp::M31Mul, 0x7fff_fffe, 0x7fff_fffe), 1);
    assert_eq!(field::run(FieldOp::Karatsuba31x31, 0x7fff_fffe, 0x7fff_fffe), 4);
    assert_eq!(field::run(FieldOp::BabyBearSub, 0, 1), 0x7800_0000);
    assert_eq!(field::run(FieldOp::KoalaBearAdd, 0x7f00_0000, 1), 0);
}

#[test]
fn field_operations_are_named_in_order() {
    let names: Vec<&str> = field::operations().into_iter().map(|op| op.name()).collect();
    assert_eq!(
        names,
        vec![
            "babybear_add",
            "babybear_mul",
            "babybear_sub",
            "karatsuba_31x31",
            "koalabear_add",
            "koalabear_mul",
            "koalabear_sub",
            "m31_add",
            "m31_mul",
            "m31_sub",
        ]
    );
}

#[test]
fn field_gadgets_are_recorded_with_shared_counts() {
    let rows: Vec<Vec<Outcome>> = field::operations().into_iter().map(field_outcomes).collect();
    let v = field::measure(&rows).unwrap();
    assert_eq!(v.len(), 10);
    assert_eq!(v[1].0, "babybear_mul");
    assert_eq!(v[1].1.nonfree, 10);
    assert_eq!(v[1].1.xor, 15);
    assert_eq!(v[1].1.total, 25);
    assert_eq!(v[3].1.validated_against, "low 32 bits of the native product");
}

#[test]
fn a_wrong_field_output_is_a_mismatch() {
    let mut outcomes = field_outcomes(FieldOp::M31Add);
    outcomes[4].output[0] ^= 1;
    let e = field::measure_op(FieldOp::M31Add, &outcomes).unwrap_err();
    assert_eq!((e.name, e.input, e.fault), ("m31_add", 4, Fault::Mismatch));
}

#[test]
fn more_nonfree_gates_than_gates_is_a_fault() {
    let mut outcomes = field_outcomes(FieldOp::KoalaBearSub);
    outcomes[0].nonfree = 26;
    let e = field::measure_op(FieldOp::KoalaBearSub, &outcomes).unwrap_err();
    assert_eq!((e.name, e.input, e.fault), ("koalabear_sub", 0, Fault::GateCount));
}

#[test]
fn counts_that_depend_on_data_are_a_fault() {
    let mut rows: Vec<Vec<Outcome>> = field::operations().into_iter().map(field_outcomes).collect();
    rows[2][3].total = 26;
    let e = field::measure(&rows).unwrap_err();
    assert_eq!((e.name, e.input, e.fault), ("babybear_sub", 3, Fault::DataDependent));
}

#[test]
fn a_gadget_splits_its_gates() {
    let g = Gadget::new(3, 10, "x");
    assert_eq!(g, Gadget { nonfree: 3, xor: 7, total: 10, validated_against: "x" });
}

fn m31(x: i128) -> u64 {
    x.rem_euclid(QP as i128) as u64
}

// (a + bi)(c + di), i^2 = -1.
fn cmul(x: (u64, u64), y: (u64, u64)) -> (u64, u64) {
    let (a, b, c, d) = (x.0 as i128, x.1 as i128, y.0 as i128, y.1 as i128);
    (m31(a * c - b * d), m31(a * d + b * c))
}

fn cadd(x: (u64, u64), y: (u64, u64)) -> (u64, u64) {
    (m31(x.0 as i128 + y.0 as i128), m31(x.1 as i128 + y.1 as i128))
}

// u^2 = 2 + i.
fn qmul(x: [u64; 4], y: [u64; 4]) -> [u64; 4] {
    let (a, b, c, d) = ((x[0], x[1]), (x[2], x[3]), (y[0], y[1]), (y[2], y[3]));
    let lo = cadd(cmul(a, c), cmul(cmul(b, d), (2, 1)));
    let hi = cadd(cmul(a, d), cmul(b, c));
    [lo.0, lo.1, hi.0, hi.1]
}

fn q_expected(op: QmOp, x: [u64; 4], y: [u64; 4]) -> [u64; 4] {
    let each = |f: &dyn Fn(i128, i128) -> i128| {
        let mut r = [0u64; 4];
        for i in 0..4 {
            r[i] = m31(f(x[i] as i128, y[i] as i128));
        }
        r
    };
    match op {
        QmOp::Add => each(&|a, b| a + b),
        QmOp::Sub => each(&|a, b| a - b),
        QmOp::PointwiseMul => each(&|a, b| a * b),
        QmOp::MulKaratsuba | QmOp::MulSchoolbook => qmul(x, y),
    }
}

#[test]
fn extension_circuits_compute_extension_arithmetic() {
    for op in qm31::operations() {
        for k in 0..4 {
            let (x, y) = qm31::input(k);
            assert_eq!(op.native(x, y), q_expected(op, x, y), "{} native {k}", op.name());
            assert_eq!(qm31::run(op, x, y), q_expected(op, x, y), "{} circuit {k}", op.name());
        }
    }
}

#[test]
fn both_multiplication_layouts_agree() {
    let mut s = 0x9e37_79b9_7f4a_7c15u64;
    for _ in 0..10 {
        let mut draw = || {
            s = s.wrapping_mul(6364136223846793005).wrapping_add(1442695040888963407);
            (s >> 20) % QP
        };
        let x = [draw(), draw(), draw(), draw()];
        let y = [draw(), draw(), draw(), draw()];
        let r = qmul(x, y);
        assert_eq!(qm31::run(QmOp::MulKaratsuba, x, y), r);
        assert_eq!(qm31::run(QmOp::MulSchoolbook, x, y), r);
        assert_eq!(qm31::nqm(x, y), r);
    }
}

#[test]
fn extension_product_of_exact_values() {
    // (1 + 2i + (3 + 4i)u)(5 + 6i + (7 + 8i)u)
    assert_eq!(
        qm31::run(QmOp::MulKaratsuba, [1, 2, 3, 4], [5, 6, 7, 8]),
        [QP - 81, 109, QP - 18, 60],
    );
}

fn q_outcomes(op: QmOp) -> Vec<Outcome> {
    (0..4)
        .map(|k| {
            let (x, y) = qm31::input(k);
            let r = op.native(x, y);
            let mut output = [0u8; 32];
            for i in 0..4 {
                output[4 * i..4 * i + 4].copy_from_slice(&(r[i] as u32).to_le_bytes());
            }
            Outcome { output, nonfree: 7, total: 9 }
        })
        .collect()
}

#[test]
fn extension_gadgets_are_recorded() {
    let rows: Vec<Vec<Outcome>> = qm31::operations().into_iter().map(q_outcomes).collect();
    let v = qm31::measure(&rows).unwrap();
    let names: Vec<&str> = v.iter().map(|g| g.0).collect();
    assert_eq!(
        names,
        vec![
            "qm31_add",
            "qm31_mul_karatsuba",
            "qm31_mul_schoolbook",
            "qm31_pointwise_mul",
            "qm31_sub",
        ]
    );
    assert_eq!((v[4].1.nonfree, v[4].1.xor, v[4].1.total), (7, 2, 9));
}

#[test]
fn a_wrong_extension_output_is_a_mismatch() {
    let mut rows: Vec<Vec<Outcome>> = qm31::operations().into_iter().map(q_outcomes).collect();
    rows[1][2].output[15] ^= 0x40;
    let e = qm31::measure(&rows).unwrap_err();
    assert_eq!((e.name, e.input, e.fault), ("qm31_mul_karatsuba", 2, Fault::Mismatch));
}

#[test]
fn montgomery_words_stand_for_distinct_elements() {
    // Multiplying by one takes the factor 2^32 out; no two words give the same element.
    let mut seen = std::collections::BTreeSet::new();
    for i in 0..1000u32 {
        let w = i.wrapping_mul(0x9e37_79b9) % BABYBEAR_P;
        let x = field::monty_mul_ref(w, 1, BABYBEAR_P, BABYBEAR_MU);
        assert!(x < BABYBEAR_P);
        assert_eq!((x as u64) * ((1u64 << 32) % BABYBEAR_P as u64) % BABYBEAR_P as u64, w as u64);
        seen.insert((w, x));
    }
    let words: std::collections::BTreeSet<u32> = seen.iter().map(|s| s.0).collect();
    let elems: std::collections::BTreeSet<u32> = seen.iter().map(|s| s.1).collect();
    assert_eq!(words.len(), elems.len());
}

#[test]
fn the_extension_is_a_commutative_ring() {
    let one = [1, 0, 0, 0];
    let u = [0, 0, 1, 0];
    assert_eq!(qm31::nqm(u, u), [2, 1, 0, 0]);
    assert_eq!(qm31::nqm([0, 1, 0, 0], [0, 1, 0, 0]), [0x7fff_fffe, 0, 0, 0]);
    let elements = [one, u, [0x7fff_fffe; 4], [1, 2, 3, 4], [5, 0, 0x1234_5678, 9]];
    let add = |x, y| QmOp::Add.native(x, y);
    for x in elements {
        assert_eq!(qm31::nqm(x, one), x);
        for y in elements {
            assert_eq!(qm31::nqm(x, y), qm31::nqm(y, x));
            assert_eq!(add(QmOp::Sub.native(x, y), y), x);
            assert_eq!(QmOp::Sub.native(x, y) == [0; 4], x == y);
            for z in elements {
                assert_eq!(qm31::nqm(qm31::nqm(x, y), z), qm31::nqm(x, qm31::nqm(y, z)));
                assert_eq!(qm31::nqm(x, add(y, z)), add(qm31::nqm(x, y), qm31::nqm(x, z)));
            }
        }
    }
}

#[test]
fn the_complex_extension_keeps_norms() {
    let p = qm31::P;
    let norm = |v: [u64; 2]| qm31::na(qm31::nm(v[0], v[0]), qm31::nm(v[1], v[1]));
    assert_eq!(qm31::ncm([0, 1], [0, 1]), [p - 1, 0]);
    for x in [[1, 0], [3, 4], [p - 1, p - 2], [0x1234_5678, 9]] {
        assert_eq!(qm31::ncm(x, [1, 0]), x);
        for y in [[0, 1], [7, p - 3]] {
            assert_eq!(norm(qm31::ncm(x, y)), qm31::nm(norm(x), norm(y)));
            assert_eq!(qm31::ncm(x, y), qm31::ncm(y, x));
        }
        assert_eq!(qm31::ns(qm31::na(x[0], x[1]), x[1]), x[0]);
    }
    assert_eq!(qm31::ns(5, 5), 0);
}

#[test]
fn koalabear_words_keep_products() {
    let p = field::KOALABEAR_P;
    assert_eq!(poseidon2::kb_monty(1), 0x01ff_fffe);
    for (a, b) in [(0, 5), (1, p - 1), (p - 1, p - 1), (0x1234_5678, 77)] {
        let product = (a as u64 * b as u64 % p as u64) as u32;
        let (x, y) = (poseidon2::kb_monty(a), poseidon2::kb_monty(b));
        assert_eq!(poseidon2::kb_monty(product), field::monty_mul_ref(x, y, p, field::KOALABEAR_MU));
        assert_eq!(field::monty_mul_ref(x, 1, p, field::KOALABEAR_MU), a);
    }
}

fn shape(op: &Op) -> (&'static str, usize, u32) {
    match op {
        Op::Xor { .. } => ("xor", 1, 0),
        Op::FullAdder { .. } => ("full_adder", 1, 0),
        Op::Add { a, .. } => ("add", a.bits.len(), 0),
        Op::AddWithoutCarry { a, .. } => ("add_without_carry", a.bits.len(), 0),
        Op::Sub { a, .. } => ("sub", a.bits.len(), 0),
        Op::MulKaratsuba { a, .. } => ("mul_karatsuba", a.bits.len(), 0),
        Op::MulByConstant { a, c } => ("mul_by_constant", a.bits.len(), *c),
        Op::MulByConstantModuloPowerTwo { a, c, power } => {
            assert_eq!(*power, 32);
            ("mul_by_constant_modulo_power_two", a.bits.len(), *c)
        }
        Op::SelfOrZero { a, .. } => ("self_or_zero", a.bits.len(), 0),
    }
}

#[test]
fn a_montgomery_product_takes_these_operations() {
    let shapes: Vec<_> = FieldOp::BabyBearMul.plan().circuit.ops.iter().map(shape).collect();
    assert_eq!(
        shapes,
        vec![
            ("mul_karatsuba", 32, 0),
            ("mul_by_constant_modulo_power_two", 32, field::BABYBEAR_MU),
            ("mul_by_constant", 32, field::BABYBEAR_P),
            ("sub", 64, 0),
            ("self_or_zero", 32, 0),
            ("add_without_carry", 32, 0),
        ]
    );
}

#[test]
fn coordinatewise_operations_repeat_those_of_one_coordinate() {
    for (four, one) in [
        (QmOp::Add, FieldOp::M31Add),
        (QmOp::Sub, FieldOp::M31Sub),
        (QmOp::PointwiseMul, FieldOp::M31Mul),
    ] {
        let four: Vec<_> = four.plan().circuit.ops.iter().map(shape).collect();
        let one: Vec<_> = one.plan().circuit.ops.iter().map(shape).collect();
        assert_eq!(four, one.repeat(4));
    }
}

#[test]
fn hash_circuits_take_these_operations() {
    let ops = blake2s::plan(64).circuit.ops;
    assert_eq!(ops.len(), 26112);
    assert_eq!(ops.iter().filter(|op| matches!(op, Op::Xor { .. })).count(), 10752);
    assert_eq!(ops.iter().filter(|op| matches!(op, Op::FullAdder { .. })).count(), 15360);
    for (perm, n, products) in [(Perm::BabyBear, 17544, 852), (Perm::KoalaBear, 7200, 296)] {
        let ops = perm.plan().circuit.ops;
        assert_eq!(ops.len(), n);
        assert_eq!(ops.iter().filter(|op| matches!(op, Op::MulKaratsuba { .. })).count(), products);
    }
}

#[test]
fn a_rotation_is_undone_by_the_rest_of_the_word() {
    let mut w = blake2s::U32([WireId::False; 32]);
    for i in 0..32 {
        w.0[i] = WireId::Input(i);
    }
    for n in [0u32, 1, 7, 31, 32, 45, u32::MAX] {
        let r = blake2s::U32::rotate_right(w, n);
        for i in 0..32usize {
            assert_eq!(r.0[i], WireId::Input((i + n as usize) % 32));
        }
        assert_eq!(blake2s::U32::rotate_right(r, 32 - n % 32).0, w.0);
    }
}
