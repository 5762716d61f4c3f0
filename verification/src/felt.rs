//! Field elements as text: the numbers that a program's output dump holds in
//! hexadecimal and a recorded preimage in decimal.

use vstd::arithmetic::power2::*;
use vstd::prelude::*;
use vstd::string::StrSliceExecFns;

use crate::decimal;
use crate::text;

verus! {

/// The value of a hexadecimal digit.
pub open spec fn hex_digit(c: char) -> Option<nat> {
    if '0' <= c <= '9' {
        Some((c as int - '0' as int) as nat)
    } else if 'a' <= c <= 'f' {
        Some((c as int - 'a' as int + 10) as nat)
    } else if 'A' <= c <= 'F' {
        Some((c as int - 'A' as int + 10) as nat)
    } else {
        None
    }
}

/// The number that hexadecimal digits denote, underscores between them aside.
pub open spec fn hex_digits(s: Seq<char>) -> Option<nat>
    decreases s.len(),
{
    if s.len() == 0 {
        Some(0)
    } else {
        match (hex_digits(s.drop_last()), hex_digit(s.last())) {
            (Some(n), Some(d)) => Some(16 * n + d),
            (Some(n), None) => if s.last() == '_' {
                Some(n)
            } else {
                None
            },
            _ => None,
        }
    }
}

/// The number that a hexadecimal text denotes: digits behind at most one plus
/// sign, the first of them not an underscore.
pub open spec fn hex_number(s: Seq<char>) -> Option<nat> {
    let t = if s.len() > 0 && s[0] == '+' {
        s.skip(1)
    } else {
        s
    };
    if t.len() == 0 || t[0] == '_' {
        None
    } else {
        hex_digits(t)
    }
}

/// `num_bigint::BigUint::parse_bytes` with radix 16, and the number's
/// `to_string`: the decimal text of the number that the text denotes, if it
/// denotes one.
#[verifier::external_body]
fn decimal_of_hex(hex: &str) -> (r: Option<String>)
    ensures
        match r {
            Some(d) => hex_number(hex@) is Some && d@ == decimal::dec_text(hex_number(hex@)->0),
            None => hex_number(hex@) is None,
        },
{
    num_bigint::BigUint::parse_bytes(hex.as_bytes(), 16).map(|n| n.to_string())
}

/// The number in an output dump's entry: hexadecimal behind `0x`.
pub open spec fn dumped_number(entry: Seq<char>) -> Option<nat> {
    hex_number(text::trim_start(entry, "0x"@))
}

/// The strings of a JSON text that is an array of strings: an error where it
/// is none.
pub uninterp spec fn json_strings(text: Seq<char>) -> Result<Seq<Seq<char>>, ()>;

/// `serde_json::from_str` at an array of strings: a function of the text. What
/// the parser's error says is left open.
#[verifier::external_body]
fn read_json_strings(text: &str) -> (r: Result<Vec<String>, serde_json::Error>)
    ensures
        match (r, json_strings(text@)) {
            (Ok(v), Ok(s)) => v@.map_values(|t: String| t@) == s,
            (Err(_), Err(_)) => true,
            _ => false,
        },
{
    serde_json::from_str(text)
}

/// Why a dump gives no preimage.
#[derive(Debug)]
pub enum DumpError {
    /// The dump is not an array of strings.
    Json(serde_json::Error),
    /// The entry at this index, with this text, is no number.
    NotAFelt(usize, String),
}

/// The decimal texts of the numbers in the text of an output dump.
pub fn recorded_preimage(dump: &str) -> (r: Result<Vec<String>, DumpError>)
    ensures
        match (r, json_strings(dump@)) {
            (Err(DumpError::Json(_)), Err(_)) => true,
            (Ok(v), Ok(s)) => {
                &&& v@.len() == s.len()
                &&& forall|i: int| 0 <= i < s.len() ==> dumped_number(#[trigger] s[i]) is Some
                &&& forall|i: int|
                    0 <= i < s.len() ==> (#[trigger] v@[i])@ == decimal::dec_text(
                        dumped_number(s[i])->0,
                    )
            },
            (Err(DumpError::NotAFelt(k, entry)), Ok(s)) => {
                &&& k < s.len()
                &&& entry@ == s[k as int]
                &&& dumped_number(s[k as int]) is None
                &&& forall|i: int| 0 <= i < k ==> dumped_number(#[trigger] s[i]) is Some
            },
            _ => false,
        },
{
    let dumped = match read_json_strings(dump) {
        Ok(v) => v,
        Err(e) => {
            return Err(DumpError::Json(e));
        },
    };
    let ghost s = dumped@.map_values(|t: String| t@);
    assert forall|i: int| 0 <= i < s.len() implies #[trigger] s[i] == dumped@[i]@ by {}
    match output_preimage(&dumped) {
        Ok(v) => Ok(v),
        Err(k) => {
            assert(s[k as int] == dumped@[k as int]@);
            Err(DumpError::NotAFelt(k, dumped[k].as_str().to_owned()))
        },
    }
}

/// The decimal texts of the numbers in an output dump; otherwise the index of
/// the first entry that is none.
pub fn output_preimage(dumped: &Vec<String>) -> (r: Result<Vec<String>, usize>)
    ensures
        match r {
            Ok(v) => {
                &&& v@.len() == dumped@.len()
                &&& forall|i: int|
                    0 <= i < v@.len() ==> dumped_number((#[trigger] dumped@[i])@) is Some
                &&& forall|i: int|
                    0 <= i < v@.len() ==> (#[trigger] v@[i])@ == decimal::dec_text(
                        dumped_number(dumped@[i]@)->0,
                    )
            },
            Err(k) => {
                &&& k < dumped@.len()
                &&& dumped_number(dumped@[k as int]@) is None
                &&& forall|i: int| 0 <= i < k ==> dumped_number((#[trigger] dumped@[i])@) is Some
            },
        },
{
    let prefix = text::chars("0x");
    proof {
        reveal_strlit("0x");
    }
    let mut v: Vec<String> = Vec::new();
    while v.len() < dumped.len()
        invariant
            v@.len() <= dumped@.len(),
            prefix@ == "0x"@,
            prefix@.len() > 0,
            forall|i: int|
                0 <= i < v@.len() ==> dumped_number((#[trigger] dumped@[i])@) is Some,
            forall|i: int|
                0 <= i < v@.len() ==> (#[trigger] v@[i])@ == decimal::dec_text(
                    dumped_number(dumped@[i]@)->0,
                ),
        decreases dumped@.len() - v@.len(),
    {
        let k = v.len();
        let entry = text::chars(dumped[k].as_str());
        let from = text::skip_prefix(&entry, 0, entry.len(), &prefix);
        assert(entry@.subrange(0, entry@.len() as int) =~= entry@);
        let hex = dumped[k].as_str().substring_char(from, entry.len());
        assert(hex@ == text::trim_start(dumped@[k as int]@, "0x"@));
        match decimal_of_hex(hex) {
            Some(d) => {
                v.push(d);
            },
            None => {
                return Err(k);
            },
        }
    }
    Ok(v)
}

/// The prime of the field: `2^251 + 17 * 2^192 + 1`.
pub open spec fn prime() -> nat {
    pow2(251) + 17 * pow2(192) + 1
}

/// The digits of a decimal text behind its sign.
pub open spec fn unsigned(s: Seq<char>) -> Seq<char> {
    if s.len() > 0 && s[0] == '-' {
        s.skip(1)
    } else {
        s
    }
}

/// The number that decimal digits are read as in 256 bits, digit by digit: the
/// sum with the next digit wraps around, and there is no number where ten
/// times what came before does not fit.
pub open spec fn read_digits(d: Seq<char>) -> Option<nat>
    decreases d.len(),
{
    if d.len() == 0 {
        Some(0)
    } else {
        match read_digits(d.drop_last()) {
            Some(n) if decimal::is_digit(d.last()) && 10 * n < pow2(256) => Some(
                ((10 * n + (d.last() as int - '0' as int)) as nat) % pow2(256),
            ),
            _ => None,
        }
    }
}

/// The element that a decimal text denotes: at least one digit behind at most
/// one minus sign, read in 256 bits and reduced modulo the prime.
pub open spec fn dec_felt(s: Seq<char>) -> Option<nat> {
    let d = unsigned(s);
    match read_digits(d) {
        Some(v) if d.len() > 0 => {
            let n = v % prime();
            if s[0] == '-' && n != 0 {
                Some((prime() - n) as nat)
            } else {
                Some(n)
            }
        },
        _ => None,
    }
}

/// The digits of `2^256` but for the last, which is 6.
pub const EDGE: &'static str =
    "11579208923731619542357098500868790785326998466564056403945758400791312963993";

/// Whether digits begin with a number from `2^256` to `2^256 + 3`: reading
/// them, the sum with the last digit passes `2^256` while ten times what came
/// before does not.
pub open spec fn at_edge(d: Seq<char>) -> bool {
    d.len() > 77 && d.take(77) == EDGE@ && '6' <= d[77] <= '9'
}

/// Whether a decimal text runs over the edge of 256 bits, leading zeros aside.
pub open spec fn overflows(s: Seq<char>) -> bool {
    at_edge(text::trim_start(unsigned(s), seq!['0']))
}

/// The number that bytes denote, most significant byte first.
pub open spec fn be_value(b: Seq<u8>) -> nat
    decreases b.len(),
{
    if b.len() == 0 {
        0
    } else {
        256 * be_value(b.drop_last()) + (b.last() as nat)
    }
}

/// `Felt::from_dec_str` of `starknet-types-core`, which `cairo-vm` exports as
/// `Felt252`, and the element's `to_bytes_be`: the element that the text
/// denotes in 32 bytes, most significant first. On a text that runs over the
/// edge of 256 bits a debug assertion of the outside code fails. The text of
/// an error is left open.
#[verifier::external_body]
fn felt_of_dec(s: &str) -> (r: Result<[u8; 32], String>)
    requires
        !overflows(s@),
    ensures
        match r {
            Ok(b) => dec_felt(s@) == Some(be_value(b@)),
            Err(_) => dec_felt(s@) is None,
        },
{
    cairo_vm::Felt252::from_dec_str(s).map(|f| f.to_bytes_be()).map_err(|e| format!("{e}"))
}

/// Where the digits begin that run over the edge of 256 bits, leading zeros
/// aside.
fn edge_position(s: &str) -> (r: Option<usize>)
    ensures
        match r {
            Some(k) => overflows(s@) && k <= s@.len() && s@.skip(k as int) == text::trim_start(
                unsigned(s@),
                seq!['0'],
            ),
            None => !overflows(s@),
        },
{
    let d = text::chars(s);
    let start: usize = if d.len() > 0 && d[0] == '-' {
        1
    } else {
        0
    };
    let zero: Vec<char> = vec!['0'];
    let from = text::skip_prefix(&d, start, d.len(), &zero);
    let edge = text::chars(EDGE);
    proof {
        reveal_strlit(
            "11579208923731619542357098500868790785326998466564056403945758400791312963993",
        );
        assert(zero@ =~= seq!['0']);
        assert(d@.subrange(start as int, d@.len() as int) =~= unsigned(s@));
    }
    let ghost rest = d@.subrange(from as int, d@.len() as int);
    if d.len() - from <= 77 || !text::begins_at(&d, from, d.len(), &edge) {
        return None;
    }
    assert(rest[77] == d@[from + 77]);
    if '6' <= d[from + 77] && d[from + 77] <= '9' {
        assert(s@.skip(from as int) =~= rest);
        Some(from)
    } else {
        None
    }
}

/// The element that a decimal text denotes, in 32 bytes, most significant
/// first.
pub fn read_felt(s: &str) -> (r: Result<[u8; 32], String>)
    ensures
        match r {
            Ok(b) => dec_felt(s@) == Some(be_value(b@)),
            Err(_) => dec_felt(s@) is None,
        },
{
    let mut t = s.to_owned();
    loop
        invariant
            dec_felt(t@) == dec_felt(s@),
        decreases t@.len(),
    {
        match edge_position(t.as_str()) {
            None => {
                return felt_of_dec(t.as_str());
            },
            Some(k) => {
                let d = text::chars(t.as_str());
                assert(t@.skip(k as int).len() > 77);
                assert(k + 77 < d@.len());
                assert(d@[k + 77] == t@.skip(k as int)[77]);
                let digit = decimal::decimal((d[k + 77] as u32 - '6' as u32) as u64);
                let len = d.len();
                let tail = t.as_str().substring_char(k + 78, len);
                let sign = if d[0] == '-' {
                    "-"
                } else {
                    ""
                };
                let next = text::join3(sign, digit.as_str(), tail);
                proof {
                    reveal_strlit("-");
                    reveal_strlit("");
                    assert(sign@ =~= (if t@[0] == '-' {
                        seq!['-']
                    } else {
                        Seq::empty()
                    }));
                    assert(tail@ =~= t@.skip(k + 78));
                    lemma_over_the_edge(t@, k as int, next@);
                }
                t = next;
            },
        }
    }
}

/// Equal digits read equal numbers, also with more digits behind them.
proof fn lemma_read_suffix(a: Seq<char>, b: Seq<char>, x: Seq<char>)
    requires
        read_digits(a) == read_digits(b),
    ensures
        read_digits(a + x) == read_digits(b + x),
    decreases x.len(),
{
    if x.len() == 0 {
        assert(a + x =~= a && b + x =~= b);
    } else {
        lemma_read_suffix(a, b, x.drop_last());
        assert((a + x).drop_last() =~= a + x.drop_last());
        assert((b + x).drop_last() =~= b + x.drop_last());
    }
}

/// Digits of a number that fits are read as that number.
proof fn lemma_read_value(d: Seq<char>)
    requires
        forall|i: int| 0 <= i < d.len() ==> decimal::is_digit(#[trigger] d[i]),
        decimal::dec_value(d) < pow2(256),
    ensures
        read_digits(d) == Some(decimal::dec_value(d)),
    decreases d.len(),
{
    if d.len() > 0 {
        lemma_read_value(d.drop_last());
        vstd::arithmetic::div_mod::lemma_small_mod(decimal::dec_value(d), pow2(256));
    } else {
        lemma_pow2_pos(256);
    }
}

/// What is trimmed off is zeros.
proof fn lemma_trim_zeros(s: Seq<char>)
    ensures
        read_digits(text::trim_start(s, seq!['0'])) == read_digits(s),
        forall|x: Seq<char>| #[trigger]
            read_digits(text::trim_start(s, seq!['0']) + x) == read_digits(s + x),
    decreases s.len(),
{
    let zero = seq!['0'];
    let t = text::trim_start(s, zero);
    if text::begins(s, zero) {
        let rest = s.skip(1);
        assert(s.take(1)[0] == '0');
        lemma_trim_zeros(rest);
        lemma_pow2_pos(256);
        assert(zero.drop_last() =~= Seq::<char>::empty());
        reveal_with_fuel(read_digits, 2);
        vstd::arithmetic::div_mod::lemma_small_mod(0, pow2(256));
        lemma_read_suffix(zero, Seq::empty(), rest);
        assert(zero + rest =~= s);
        assert(Seq::<char>::empty() + rest =~= rest);
        assert forall|x: Seq<char>| #[trigger] read_digits(t + x) == read_digits(s + x) by {
            assert(read_digits(text::trim_start(rest, zero) + x) == read_digits(rest + x));
            lemma_read_suffix(s, rest, x);
        }
    }
}

/// The number of the digits in front of the edge.
pub(crate) proof fn lemma_edge_len()
    ensures
        EDGE@.len() == 77,
{
    reveal_strlit("11579208923731619542357098500868790785326998466564056403945758400791312963993");
}

/// A tenth of `2^256`, rounded down.
spec fn tenth() -> nat {
    11579208923731619542357098500868790785326998466564056403945758400791312963993nat
}

/// The digits in front of the edge are those of a tenth of `2^256`.
proof fn lemma_edge_digits()
    ensures
        decimal::dec_text(tenth()) == EDGE@,
        pow2(256) == 10 * tenth() + 6,
{
    lemma2_to64();
    lemma2_to64_rest();
    lemma_pow2_adds(64, 64);
    lemma_pow2_adds(128, 128);
    let low = pow2(64);
    let high = pow2(128);
    assert(high == 340282366920938463463374607431768211456nat) by (nonlinear_arith)
        requires
            low == 0x1_0000_0000_0000_0000nat,
            high == low * low,
    ;
    assert(high * high == 10 * tenth() + 6) by (nonlinear_arith)
        requires
            high == 340282366920938463463374607431768211456nat,
    ;
    reveal_strlit("11579208923731619542357098500868790785326998466564056403945758400791312963993");
    reveal_with_fuel(decimal::dec_text, 78);
    assert(decimal::dec_text(tenth()) =~= EDGE@);
}

/// A text that runs over the edge denotes what the text denotes that goes on
/// from the number of the wrapped sum.
proof fn lemma_over_the_edge(s: Seq<char>, k: int, next: Seq<char>)
    requires
        overflows(s),
        0 <= k <= s.len(),
        s.skip(k) == text::trim_start(unsigned(s), seq!['0']),
        next == (if s[0] == '-' {
            seq!['-']
        } else {
            Seq::empty()
        }) + decimal::dec_text((s[k + 77] as int - '6' as int) as nat) + s.skip(k + 78),
    ensures
        dec_felt(next) == dec_felt(s),
        next.len() < s.len(),
{
    let d = unsigned(s);
    let t = text::trim_start(d, seq!['0']);
    let c = s[k + 77];
    let digit = decimal::dec_text((c as int - '6' as int) as nat);
    let x = s.skip(k + 78);
    let edge = EDGE@;
    lemma_trim_shrinks(d, seq!['0']);
    lemma_edge_digits();
    decimal::law_dec_text(tenth());
    lemma_read_value(edge);
    assert(t[77] == c);
    // The wrapped sum.
    assert((edge.push(c)).drop_last() =~= edge);
    vstd::arithmetic::div_mod::lemma_mod_add_multiples_vanish(
        c as int - '6' as int,
        pow2(256) as int,
    );
    vstd::arithmetic::div_mod::lemma_small_mod((c as int - '6' as int) as nat, pow2(256));
    assert(read_digits(edge.push(c)) == Some((c as int - '6' as int) as nat));
    assert(digit.drop_last() =~= Seq::<char>::empty());
    reveal_with_fuel(read_digits, 2);
    assert(read_digits(digit) == Some((c as int - '6' as int) as nat));
    lemma_read_suffix(edge.push(c), digit, x);
    assert(t =~= edge.push(c) + x) by {
        assert(t.take(77) == edge);
        assert forall|i: int| 0 <= i < t.len() implies t[i] == (edge.push(c) + x)[i] by {
            if i < 77 {
                assert(t[i] == t.take(77)[i]);
            } else if i > 77 {
                assert(x[i - 78] == s[k + i]);
                assert(t[i] == s.skip(k)[i]);
            }
        }
    }
    lemma_trim_zeros(d);
    assert(read_digits(digit + x) == read_digits(d));
    assert(decimal::is_digit(digit[0]));
    assert(unsigned(next) =~= digit + x);
}

/// Equal numbers of equal width have equal bytes.
pub proof fn lemma_be_injective(a: Seq<u8>, b: Seq<u8>)
    requires
        a.len() == b.len(),
        be_value(a) == be_value(b),
    ensures
        a == b,
    decreases a.len(),
{
    if a.len() > 0 {
        lemma_be_injective(a.drop_last(), b.drop_last());
        assert(a =~= a.drop_last().push(a.last()));
        assert(b =~= b.drop_last().push(b.last()));
    } else {
        assert(a =~= b);
    }
}

/// The prime fits 256 bits.
proof fn lemma_prime_fits()
    ensures
        prime() < pow2(256),
{
    lemma_pow2_unfold(252);
    lemma_pow2_strictly_increases(198, 251);
    lemma_pow2_strictly_increases(252, 256);
    lemma_pow2_adds(6, 192);
    lemma2_to64();
    lemma_pow2_pos(192);
    assert(pow2(198) == 64 * pow2(192));
}

/// What is recorded of a dumped element is read back as that element.
pub proof fn law_recorded_felt_is_read_back(entry: Seq<char>, n: nat)
    requires
        dumped_number(entry) == Some(n),
        n < prime(),
    ensures
        dec_felt(decimal::dec_text(n)) == Some(n),
{
    let s = decimal::dec_text(n);
    decimal::law_dec_text(n);
    lemma_prime_fits();
    lemma_read_value(s);
    assert(decimal::is_digit(s[0]));
    assert(unsigned(s) == s);
    vstd::arithmetic::div_mod::lemma_small_mod(n, prime());
}

proof fn lemma_trim_shrinks(s: Seq<char>, prefix: Seq<char>)
    ensures
        text::trim_start(s, prefix).len() <= s.len(),
    decreases s.len(),
{
    if prefix.len() > 0 && text::begins(s, prefix) {
        lemma_trim_shrinks(s.skip(prefix.len() as int), prefix);
    }
}

/// A hexadecimal digit goes by its place in the alphabet, in either case.
pub proof fn law_hex_digit(c: char)
    ensures
        48 <= c as int <= 57 ==> hex_digit(c) == Some((c as int - 48) as nat),
        97 <= c as int <= 102 ==> hex_digit(c) == Some((c as int - 87) as nat),
        65 <= c as int <= 70 ==> hex_digit(c) == Some((c as int - 55) as nat),
        hex_digit(c) is Some ==> hex_digit(c)->0 < 16 && ({
            ||| 48 <= c as int <= 57
            ||| 97 <= c as int <= 102
            ||| 65 <= c as int <= 70
        }),
{
}

/// A further hexadecimal digit makes sixteen times the number and the digit
/// more; an underscore changes nothing, and anything else is no number.
pub proof fn law_hex_digits_grow(s: Seq<char>, c: char)
    ensures
        hex_digits(s.push(c)) == match (hex_digits(s), hex_digit(c)) {
            (Some(n), Some(d)) => Some(n * 16 + d),
            (Some(n), None) => if c == '_' {
                Some(n)
            } else {
                None
            },
            _ => None,
        },
        hex_digits(Seq::<char>::empty()) == Some(0nat),
{
    assert(s.push(c).drop_last() =~= s);
}

/// A dumped entry is the number of its hexadecimal digits, with `0x` in front
/// of them or without.
pub proof fn law_dumped_number(hex: Seq<char>)
    requires
        text::find_text(hex, "0x"@) != Some(0nat),
    ensures
        dumped_number("0x"@ + hex) == dumped_number(hex),
        dumped_number(hex) == hex_number(hex),
        hex.len() > 0 && hex[0] != '+' && hex[0] != '_' ==> dumped_number(hex) == hex_digits(hex),
        hex.len() == 0 ==> dumped_number(hex) is None,
{
    reveal_strlit("0x");
    text::law_trim_start("0x"@, hex);
    text::law_find_text(hex, "0x"@);
    if hex.len() >= 2 {
        assert(hex.subrange(0, 0int + 2) =~= hex.take(2));
    }
}

/// The prime of the field.
pub proof fn law_prime()
    ensures
        prime() == 0x800000000000011000000000000000000000000000000000000000000000001nat,
{
    lemma2_to64();
    lemma2_to64_rest();
    lemma_pow2_adds(64, 64);
    lemma_pow2_adds(128, 64);
    lemma_pow2_adds(192, 59);
    let (a, b, c, d) = (pow2(64), pow2(128), pow2(192), pow2(59));
    assert(b == 0x1_00000000_00000000_00000000_00000000nat) by (nonlinear_arith)
        requires
            b == a * a,
            a == 0x1_0000_0000_0000_0000nat,
    ;
    assert(c == 0x1_00000000_00000000_00000000_00000000_00000000_00000000nat) by (nonlinear_arith)
        requires
            c == b * a,
            a == 0x1_0000_0000_0000_0000nat,
            b == 0x1_00000000_00000000_00000000_00000000nat,
    ;
    assert(c * d
        == 0x800000000000000000000000000000000000000000000000000000000000000nat)
        by (nonlinear_arith)
        requires
            c == 0x1_00000000_00000000_00000000_00000000_00000000_00000000nat,
            d == 0x800_0000_0000_0000nat,
    ;
}

/// Digits are read one by one: a further digit makes ten times the number and
/// the digit more, within 256 bits.
pub proof fn law_digits_are_read(d: Seq<char>, c: char)
    ensures
        read_digits(Seq::<char>::empty()) == Some(0nat),
        read_digits(d.push(c)) is Some <==> read_digits(d) is Some && '0' <= c <= '9' && 10
            * read_digits(d)->0 < pow2(256),
        read_digits(d.push(c)) is Some ==> read_digits(d.push(c))->0 == (10 * read_digits(d)->0 + (
        c as int - 48)) % (pow2(256) as int),
{
    assert(d.push(c).drop_last() =~= d);
}

/// The decimal text of a number that fits 256 bits is read as the number
/// modulo the prime, and with a minus sign in front as its negative; a text
/// without digits, or with anything else in it, is none.
pub proof fn law_decimal_text_is_read(n: nat, s: Seq<char>)
    requires
        n < pow2(256),
    ensures
        dec_felt(decimal::dec_text(n)) == Some(n % prime()),
        dec_felt(seq!['-'] + decimal::dec_text(n)) == Some(((prime() - n % prime()) % (
        prime() as int)) as nat),
        dec_felt(s) is Some ==> dec_felt(s)->0 < prime() && unsigned(s).len() > 0 && forall|i: int|
            0 <= i < unsigned(s).len() ==> 48 <= (#[trigger] unsigned(s)[i]) as int <= 57,
        dec_felt(Seq::<char>::empty()) is None,
        dec_felt(seq!['-']) is None,
{
    let t = decimal::dec_text(n);
    decimal::law_dec_text(n);
    law_prime();
    lemma_read_value(t);
    assert(decimal::is_digit(t[0]));
    assert(unsigned(t) == t);
    let m = seq!['-'] + t;
    assert(unsigned(m) =~= t);
    let r = n % prime();
    vstd::arithmetic::div_mod::lemma_mod_bound(n as int, prime() as int);
    if r == 0 {
        vstd::arithmetic::div_mod::lemma_mod_self_0(prime() as int);
    } else {
        vstd::arithmetic::div_mod::lemma_small_mod((prime() - r) as nat, prime());
    }
    if dec_felt(s) is Some {
        lemma_digits_only(unsigned(s));
        vstd::arithmetic::div_mod::lemma_mod_bound(
            read_digits(unsigned(s))->0 as int,
            prime() as int,
        );
    }
    assert(unsigned(seq!['-']) =~= Seq::<char>::empty());
}

proof fn lemma_digits_only(d: Seq<char>)
    requires
        read_digits(d) is Some,
    ensures
        forall|i: int| 0 <= i < d.len() ==> 48 <= (#[trigger] d[i]) as int <= 57,
    decreases d.len(),
{
    if d.len() > 0 {
        lemma_digits_only(d.drop_last());
        assert forall|i: int| 0 <= i < d.len() implies 48 <= (#[trigger] d[i]) as int <= 57 by {
            if i < d.len() - 1 {
                assert(d.drop_last()[i] == d[i]);
            }
        }
    }
}

/// A further byte makes 256 times the number and the byte more.
pub proof fn law_be_value_grows(b: Seq<u8>, x: u8)
    ensures
        be_value(b.push(x)) == 256 * be_value(b) + x,
        be_value(Seq::<u8>::empty()) == 0,
{
    assert(b.push(x).drop_last() =~= b);
}

proof fn lemma_digits_injective(a: Seq<char>, b: Seq<char>)
    requires
        a.len() == b.len(),
        forall|i: int| 0 <= i < a.len() ==> decimal::is_digit(#[trigger] a[i]),
        forall|i: int| 0 <= i < b.len() ==> decimal::is_digit(#[trigger] b[i]),
        decimal::dec_value(a) == decimal::dec_value(b),
    ensures
        a == b,
    decreases a.len(),
{
    if a.len() > 0 {
        assert(decimal::is_digit(a.last()) && decimal::is_digit(b.last()));
        assert forall|i: int| 0 <= i < a.len() - 1 implies decimal::is_digit(
            #[trigger] a.drop_last()[i],
        ) && decimal::is_digit(b.drop_last()[i]) by {
            assert(decimal::is_digit(a[i]) && decimal::is_digit(b[i]));
        }
        lemma_digits_injective(a.drop_last(), b.drop_last());
        assert(a =~= a.drop_last().push(a.last()));
        assert(b =~= b.drop_last().push(b.last()));
    } else {
        assert(a =~= b);
    }
}

/// Digits run over the edge exactly where the first 78 of them are those of a
/// number from `2^256` to `2^256 + 3`.
pub proof fn law_edge(d: Seq<char>)
    requires
        d.len() > 77,
        forall|i: int| 0 <= i < d.len() ==> decimal::is_digit(#[trigger] d[i]),
    ensures
        at_edge(d) <==> pow2(256) <= decimal::dec_value(d.take(78)) <= pow2(256) + 3,
{
    lemma_edge_digits();
    decimal::law_dec_text(tenth());
    lemma_edge_len();
    let (f, c) = (d.take(77), d[77]);
    assert(d.take(78) =~= f.push(c));
    assert(decimal::is_digit(c));
    decimal::law_dec_value_grows(f, c);
    assert forall|i: int| 0 <= i < 77 implies decimal::is_digit(#[trigger] f[i]) by {
        assert(f[i] == d[i]);
    }
    if decimal::dec_value(f) == tenth() {
        lemma_digits_injective(f, EDGE@);
    }
}

/// Neither a sign nor leading zeros count towards the edge.
pub proof fn law_overflows(s: Seq<char>)
    requires
        s.len() > 0,
        decimal::is_digit(s[0]),
    ensures
        overflows(seq!['-'] + s) == overflows(s),
        overflows(seq!['0'] + s) == overflows(s),
        s[0] != '0' ==> overflows(s) == at_edge(s),
{
    let zero = seq!['0'];
    assert(unsigned(seq!['-'] + s) =~= s);
    assert(unsigned(s) == s);
    assert((zero + s)[0] == '0');
    assert(unsigned(zero + s) == zero + s);
    text::law_trim_start(zero, s);
    assert(s.take(1)[0] == s[0] && zero[0] == '0');
}

} // verus!
