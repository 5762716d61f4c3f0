use stark_boolean_verifier::compiled;
use stark_boolean_verifier::compiled::ProgramError;
use stark_boolean_verifier::felt;
use stark_boolean_verifier::felt::DumpError;
use stark_boolean_verifier::guests;
use stark_boolean_verifier::guests::Guest;
use stark_boolean_verifier::lockfile;
use stark_boolean_verifier::lockfile::LockError;
use stark_boolean_verifier::manifest;
use stark_boolean_verifier::manifest::{ImageIdError, KeyError, UpdateError};

const LOCK: &str = "version = 4\n\n[[package]]\nname = \"alpha\"\nversion = \"1.2.3\"\nsource = \"registry+https://github.com/rust-lang/crates.io-index\"\n\n[[package]]\nname = \"beta\"\nversion = \"0.4.0\"\nsource = \"git+https://github.com/some/repo?rev=0123456789abcdef#0123456789abcdef0123\"\n\n[[package]]\nname = \"gamma\"\nversion = \"0.5.0\"\ndependencies = [\n \"alpha\",\n]\n";

#[test]
fn a_registry_package_is_known_by_its_version() {
    assert_eq!(lockfile::lock_version(LOCK, "alpha").unwrap(), "1.2.3");
    assert_eq!(lockfile::lock_version(LOCK, "gamma").unwrap(), "0.5.0");
}

#[test]
fn a_git_package_is_known_by_repository_and_revision() {
    assert_eq!(lockfile::lock_version(LOCK, "beta").unwrap(), "some/repo@01234567");
    let e = lockfile::entry(LOCK, "beta").unwrap();
    assert_eq!(e.version, "0.4.0");
    assert_eq!(e.git.as_deref(), Some("some/repo@01234567"));
}

#[test]
fn a_git_source_needs_no_query() {
    let lock = "name = \"x\"\r\nversion = \"1\"\r\nsource = \"git+ssh://host/x#abcdefgh9\"\r\n";
    assert_eq!(lockfile::lock_version(lock, "x").unwrap(), "ssh://host/x#abcdefgh9\"@abcdefgh");
}

#[test]
fn an_absent_package_is_not_found() {
    assert_eq!(lockfile::lock_version(LOCK, "delta").unwrap_err(), LockError::NotFound);
    assert_eq!(lockfile::lock_version(LOCK, "alph").unwrap_err(), LockError::NotFound);
    assert_eq!(lockfile::lock_version("", "alpha").unwrap_err(), LockError::NotFound);
}

#[test]
fn a_lock_file_may_end_too_early() {
    assert_eq!(lockfile::lock_version("name = \"x\"\n", "x").unwrap_err(), LockError::NoVersion);
    assert_eq!(lockfile::lock_version("name = \"x\"", "x").unwrap_err(), LockError::NoVersion);
    assert_eq!(lockfile::lock_version("name = \"x\"\nversion = \"2\"", "x").unwrap(), "2");
}

#[test]
fn a_short_revision_is_refused() {
    let lock = "name = \"x\"\nversion = \"1\"\nsource = \"git+https://github.com/a/b#123\n";
    assert_eq!(lockfile::lock_version(lock, "x").unwrap_err(), LockError::ShortRevision);
    let lock = "name = \"x\"\nversion = \"1\"\nsource = \"git+https://github.com/a/b#1234567\u{e9}\n";
    assert_eq!(lockfile::lock_version(lock, "x").unwrap_err(), LockError::ShortRevision);
}

#[test]
fn a_manifest_pins_the_proving_crates() {
    let toml = "[dependencies]\nother = \"1\"\nstwo-cairo = { git = \"https://github.com/starkware-libs/proving\", rev = \"49f8e037aa\" }\n";
    assert_eq!(
        lockfile::manifest_git_rev(toml).unwrap().as_deref(),
        Some("starkware-libs/proving@49f8e037")
    );
    assert_eq!(lockfile::manifest_git_rev("[dependencies]\n").unwrap(), None);
    let unpinned = "x = { git = \"https://github.com/starkware-libs/proving\" }\n";
    assert_eq!(lockfile::manifest_git_rev(unpinned).unwrap(), None);
    let short = "x = { git = \"https://github.com/starkware-libs/proving\", rev = \"49f\" }\n";
    assert_eq!(lockfile::manifest_git_rev(short).unwrap_err(), LockError::ShortRevision);
}

#[test]
fn a_package_without_a_git_source_is_known_by_the_pinned_revision() {
    let toml = "x = { git = \"https://github.com/starkware-libs/proving\", rev = \"49f8e037aa\" }\n";
    let of = |name: &str, toml: &str| lockfile::lock_version_with_manifest(LOCK, toml, name);
    assert_eq!(of("alpha", toml).unwrap(), "starkware-libs/proving@49f8e037");
    assert_eq!(of("alpha", "").unwrap(), "1.2.3");
    assert_eq!(of("beta", toml).unwrap(), "some/repo@01234567");
    assert_eq!(of("delta", toml).unwrap_err(), LockError::NotFound);
}

const ID: &str = "00ff102030405060708090a0b0c0d0e0f0112233445566778899aabbccddeeFF";

#[test]
fn an_image_id_is_read_from_the_manifest() {
    let json = format!("{{\"risc0\": {{\"fib\": {{\"image_id\": \"{ID}\"}}}}}}");
    let id = manifest::expected_image_id(&json, "fib").unwrap();
    assert_eq!(id[0], 0);
    assert_eq!(id[1], 0xff);
    assert_eq!(id[2], 0x10);
    assert_eq!(id[31], 0xff);
    assert!(matches!(manifest::expected_image_id(&json, "trivial"), Err(ImageIdError::Missing)));
    assert!(matches!(manifest::expected_image_id("{", "fib"), Err(ImageIdError::Json(_))));
}

#[test]
fn an_image_id_is_32_bytes_of_hex() {
    assert!(matches!(manifest::image_id("00f"), Err(ImageIdError::Uneven)));
    assert!(matches!(manifest::image_id("0g"), Err(ImageIdError::NotHex)));
    assert!(matches!(manifest::image_id("00ff"), Err(ImageIdError::WrongLength)));
    assert!(matches!(manifest::image_id("0\u{e9}"), Err(ImageIdError::Uneven)));
    assert_eq!(manifest::decode_hex("").unwrap(), Vec::<u8>::new());
    assert_eq!(manifest::decode_hex("+f7F").unwrap(), vec![0x0f, 0x7f]);
}

#[test]
fn a_vk_hash_is_compared_with_the_manifest() {
    let json = "{\"sp1\": {\"fib\": {\"vk_hash\": \"0xabc\"}, \"journal\": {\"vk_hash\": 3}}}";
    assert!(manifest::check_manifest_hash(json, "fib", "0xabc").is_ok());
    match manifest::check_manifest_hash(json, "fib", "0xabd") {
        Err(KeyError::Mismatch(expected)) => assert_eq!(expected, "0xabc"),
        other => panic!("{other:?}"),
    }
    assert!(matches!(manifest::check_manifest_hash(json, "journal", "3"), Err(KeyError::Missing)));
    assert!(matches!(manifest::check_manifest_hash(json, "shrink", "3"), Err(KeyError::Missing)));
    assert!(matches!(manifest::check_manifest_hash("[", "fib", "3"), Err(KeyError::Json(_))));
}

#[test]
fn what_is_recorded_is_what_is_checked() {
    let json = "{\"sp1\": {\"fib\": {\"vk_hash\": \"old\", \"note\": 1}}, \"risc0\": null}";
    let updated = manifest::update_manifest(json, "sp1", "fib", "vk_hash", "0x1234").unwrap();
    assert!(manifest::check_manifest_hash(&updated, "fib", "0x1234").is_ok());
    assert!(updated.contains("\"note\": 1"));
    let updated = manifest::update_manifest(&updated, "risc0", "fib", "image_id", ID).unwrap();
    assert_eq!(manifest::expected_image_id(&updated, "fib").unwrap(), manifest::image_id(ID).unwrap());
    assert_eq!(
        manifest::update_manifest("null", "a", "b", "c", "d").unwrap(),
        "{\n  \"a\": {\n    \"b\": {\n      \"c\": \"d\"\n    }\n  }\n}"
    );
}

#[test]
fn a_manifest_of_another_shape_is_not_updated() {
    let update = |json: &str| manifest::update_manifest(json, "sp1", "fib", "vk_hash", "x");
    assert!(matches!(update("{"), Err(UpdateError::Json(_))));
    assert!(matches!(update("[]"), Err(UpdateError::NotAnObject)));
    assert!(matches!(update("{\"sp1\": 3}"), Err(UpdateError::NotAnObject)));
    assert!(matches!(update("{\"sp1\": {\"fib\": \"x\"}}"), Err(UpdateError::NotAnObject)));
}

#[test]
fn guests_are_known_by_name() {
    for g in [Guest::Trivial, Guest::Fib, Guest::Journal] {
        assert_eq!(Guest::parse(g.name()), Some(g));
    }
    assert_eq!(Guest::parse("fibo"), None);
    assert_eq!(Guest::parse(""), None);
}

#[test]
fn guests_commit_what_they_compute() {
    assert_eq!(guests::TRIVIAL_OUTPUT, 42);
    let (mut a, mut b) = (0u64, 1u64);
    for _ in 0..guests::FIB_STEPS {
        (a, b) = (b, a.wrapping_add(b));
    }
    assert_eq!(guests::fibonacci(guests::FIB_STEPS), a);
    assert_eq!(guests::fibonacci(93), 12200160415121876738);
    assert_eq!(guests::fibonacci(94), 1293530146158671551);
    let data: Vec<u8> = (0..4096u32).map(|i| i as u8).collect();
    assert_eq!(guests::counting_bytes(guests::JOURNAL_BYTES), data);
}

#[test]
fn dumped_felts_are_recorded_in_decimal() {
    let dump: Vec<String> = ["0x0", "0xff", "0x0x10", "1_0", "+A"].iter().map(|s| s.to_string()).collect();
    assert_eq!(felt::output_preimage(&dump).unwrap(), vec!["0", "255", "16", "16", "10"]);
    let big = vec!["0x800000000000011000000000000000000000000000000000000000000000000".to_string()];
    assert_eq!(
        felt::output_preimage(&big).unwrap(),
        vec!["3618502788666131213697322783095070105623107215331596699973092056135872020480"]
    );
    assert_eq!(felt::output_preimage(&Vec::new()).unwrap(), Vec::<String>::new());
}

#[test]
fn a_bad_dump_entry_is_pointed_out() {
    for bad in ["", "0x", "_1", "0xg", "++1", "-1", "1 "] {
        let dump = vec!["0x1".to_string(), bad.to_string(), "zz".to_string()];
        assert_eq!(felt::output_preimage(&dump).unwrap_err(), 1, "{bad:?}");
    }
}

#[test]
fn a_dump_is_read_from_its_text() {
    assert_eq!(felt::recorded_preimage("[\"0xff\", \"0x2a\"]").unwrap(), vec!["255", "42"]);
    assert_eq!(felt::recorded_preimage(" [ ] ").unwrap(), Vec::<String>::new());
    assert_eq!(felt::recorded_preimage("[\"\\u0030x10\"]").unwrap(), vec!["16"]);
    for bad in ["", "{}", "[1]", "[\"0x1\",]", "\"0x1\"", "null"] {
        assert!(matches!(felt::recorded_preimage(bad), Err(DumpError::Json(_))), "{bad}");
    }
    match felt::recorded_preimage("[\"0x1\", \"zz\", \"yy\"]") {
        Err(DumpError::NotAFelt(1, entry)) => assert_eq!(entry, "zz"),
        r => panic!("{r:?}"),
    }
}

fn read(text: &str) -> String {
    cairo_vm::Felt252::from_bytes_be(&felt::read_felt(text).unwrap()).to_string()
}

#[test]
fn a_number_wraps_around_at_the_edge_of_256_bits() {
    let edge = "115792089237316195423570985008687907853269984665640564039457584007913129639936";
    assert_eq!(edge, format!("{}6", felt::EDGE));
    assert_eq!(read(edge), "0");
    assert_eq!(read(&format!("{}9", felt::EDGE)), "3");
    assert_eq!(read(&format!("-000{edge}12")), cairo_vm::Felt252::from(-12).to_string());
    assert_eq!(read(&format!("{edge}{edge}")), "0");
    let below = "115792089237316195423570985008687907853269984665640564039457584007913129639935";
    assert_eq!(read(below), cairo_vm::Felt252::from_dec_str(below).unwrap().to_string());
    assert_eq!(read(felt::EDGE), cairo_vm::Felt252::from_dec_str(felt::EDGE).unwrap().to_string());
    assert!(felt::read_felt(&format!("1{edge}")).is_err());
    assert!(felt::read_felt(&format!("{edge}x")).is_err());
    assert!(felt::read_felt("").is_err());
}

#[test]
fn the_reserved_key_is_not_read_back() {
    assert!(manifest::will_read_back("{\"a\": 1}", "risc0", "fib", "image_id"));
    assert!(!manifest::will_read_back("{}", manifest::RESERVED, "fib", "image_id"));
    assert!(!manifest::will_read_back("{}", "risc0", "fib", manifest::RESERVED));
    assert!(!manifest::will_read_back("{\"$\": 1}", "risc0", "fib", "image_id"));
}

const COMPILED: &str = r#"{
    "prime": "0x800000000000011000000000000000000000000000000000000000000000001",
    "builtins": ["output", "range_check"],
    "data": ["0x480680017fff8000", "0x2a", "0x208b7fff7fff7ffe"],
    "identifiers": {"__main__.main": {"pc": 2, "type": "function"}},
    "hints": {},
    "reference_manager": {"references": []},
    "attributes": [],
    "debug_info": null
}"#;

fn parse(text: &str) -> Result<stark_boolean_verifier::stwo::Program, ProgramError> {
    compiled::parse_program(&text.as_bytes().to_vec(), "main")
}

#[test]
fn a_compiled_program_is_read_from_its_text() {
    let p = parse(COMPILED).unwrap();
    assert_eq!(p.main, 2);
    assert_eq!(p.builtins, vec!["output", "range_check"]);
    assert_eq!(p.data.len(), 3);
    assert_eq!(p.data[1][31], 42);
    assert_eq!(p.data[0][24..], [0x48, 0x06, 0x80, 0x01, 0x7f, 0xff, 0x80, 0x00]);
}

#[test]
fn another_text_is_rejected_as_a_program() {
    let rejected = |text: &str| matches!(parse(text), Err(ProgramError::Rejected(_)));
    assert!(rejected(""));
    assert!(rejected("{}"));
    assert!(rejected(&COMPILED.replace("0x2a", "0xzz")));
    assert!(rejected(&COMPILED.replace("output", "input")));
    assert!(rejected(&COMPILED.replace("__main__.main", "__main__.start")));
    assert!(rejected(&COMPILED.replace("\"pc\": 2, ", "")));
    assert!(rejected(&COMPILED.replace("0x80000000000001", "0x90000000000001")));
}

fn with_reference(value: &str) -> String {
    let reference =
        format!("{{\"ap_tracking_data\": {{\"group\": 0, \"offset\": 0}}, \"pc\": 0, \"value\": \"{value}\"}}");
    COMPILED.replace("\"references\": []", &format!("\"references\": [{reference}]"))
}

fn with_value(value: &str) -> String {
    COMPILED.replace("2, ", &format!("2, \"value\": {value}, "))
}

#[test]
fn a_text_that_the_parser_would_give_up_on_is_not_handed_to_it() {
    let unreadable = |text: &str| matches!(parse(text), Err(ProgramError::Unreadable));
    assert!(unreadable(&COMPILED.replace("0x2a", "x")));
    assert!(unreadable(&COMPILED.replace("0x2a", "\\u0078")));
    assert!(unreadable(&COMPILED.replace("0x2a", "0\u{e9}")));
    assert!(unreadable(&COMPILED.replace("0x2a", "\\n")));
    assert!(unreadable(&COMPILED.replace("\"0x2a\",", "\"x\":")));
    assert!(unreadable(&COMPILED.replace("\"data\": [\"0", "\"\\u0064ata\": [\"x\", \"0")));
    assert!(unreadable("[\"\", [], [\"x\"]]"));
    assert!(unreadable(&with_value(&format!("{}8", felt::EDGE))));
    let hidden = format!("{{\"{}\": \"\\u0031{}8\"}}", compiled::NUMBER, &felt::EDGE[1..]);
    assert!(unreadable(&with_value(&hidden)));
    assert!(unreadable(&with_reference("cast(fp - (-002147483648), felt)")));
    assert!(unreadable(&with_reference("cast(fp - (-\\u0032147483648), felt)")));
}

#[test]
fn a_text_is_read_whatever_its_other_strings_hold() {
    let edge = format!("{}8", felt::EDGE);
    let least = "(-2147483648)";
    assert!(parse(&COMPILED.replace("function", "x")).is_ok());
    assert!(parse(&COMPILED.replace("function", "\\u0066unction")).is_ok());
    assert!(parse(&COMPILED.replace("function", &format!("{edge}{least}"))).is_ok());
    let p = parse(&COMPILED.replace("0x2a", "\\u0030x2\\u0061")).unwrap();
    assert_eq!(p.data[1][31], 42);
    let notes = format!("\"notes\": [\"x\", \"\u{e9}\", \"{least}\", {edge}], \"hints\"");
    assert!(parse(&COMPILED.replace("\"hints\"", &notes)).is_ok());
    let hint = format!(
        "{{\"0\": [{{\"code\": \"x = {edge} - {least}\\n\", \"accessible_scopes\": [\"m\"], \"flow_tracking_data\": {{\"ap_tracking\": {{\"group\": 0, \"offset\": 0}}, \"reference_ids\": {{}}}}}}]}}"
    );
    assert!(parse(&COMPILED.replace("\"hints\": {}", &format!("\"hints\": {hint}"))).is_ok());
    assert!(parse(&with_value(&format!("{}5", felt::EDGE))).is_ok());
    assert!(parse(&with_reference("cast(fp - (-2147483647), felt)")).is_ok());
    assert!(parse(&with_reference("cast(fp + 2147483648, felt*)")).is_ok());
}

#[test]
fn bytes_survive_their_hexadecimal_text() {
    let bytes: Vec<u8> = (0..=255).collect();
    let hex: String = bytes.iter().map(|b| format!("{b:02x}")).collect();
    assert_eq!(manifest::decode_hex(&hex).unwrap(), bytes);
}
