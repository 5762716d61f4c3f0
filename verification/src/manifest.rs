//! The artifact manifest, a JSON file that names for each proof what it must
//! be bound to.

use vstd::prelude::*;

use crate::text;

verus! {

/// An error of the JSON parser.
#[verifier::external_type_specification]
#[verifier::external_body]
pub struct ExJsonError(serde_json::Error);

/// The string under three nested keys of a JSON text: an error where the text
/// is not JSON, none where there is no string.
pub uninterp spec fn json_string(
    manifest: Seq<char>,
    system: Seq<char>,
    entry: Seq<char>,
    key: Seq<char>,
) -> Result<Option<Seq<char>>, ()>;

/// `serde_json::from_str`, indexed by three keys and read with
/// `Value::as_str`: a function of the text and the keys. What the parser's
/// error says is left open.
#[verifier::external_body]
fn read_json_string(manifest: &str, system: &str, entry: &str, key: &str) -> (r: Result<
    Option<String>,
    serde_json::Error,
>)
    ensures
        match (r, json_string(manifest@, system@, entry@, key@)) {
            (Ok(Some(a)), Ok(Some(b))) => a@ == b,
            (Ok(None), Ok(None)) => true,
            (Err(_), Err(_)) => true,
            _ => false,
        },
{
    let value: serde_json::Value = serde_json::from_str(manifest)?;
    Ok(value[system][entry][key].as_str().map(|s| s.to_owned()))
}

/// Why a manifest entry does not name an image.
#[derive(Debug)]
pub enum ImageIdError {
    /// The manifest is not JSON.
    Json(serde_json::Error),
    /// The guest has no entry.
    Missing,
    /// The entry cannot be cut into pairs of bytes at character boundaries.
    Uneven,
    /// A pair is not a hexadecimal byte.
    NotHex,
    /// The entry is not 32 bytes long.
    WrongLength,
}

/// The plus sign.
pub const PLUS: u8 = 0x2b;

/// The value of a hexadecimal digit `0-9`, `a-f` or `A-F`.
pub open spec fn digit_value(b: u8) -> Option<u8> {
    if 0x30 <= b <= 0x39 {
        Some((b - 0x30) as u8)
    } else if 0x61 <= b <= 0x66 {
        Some((b - 0x61 + 10) as u8)
    } else if 0x41 <= b <= 0x46 {
        Some((b - 0x41 + 10) as u8)
    } else {
        None
    }
}

/// The byte that two characters spell: two digits, or a plus sign and a digit.
pub open spec fn pair_value(a: u8, b: u8) -> Option<u8> {
    match (digit_value(a), digit_value(b)) {
        (Some(x), Some(y)) => Some((16 * x + y) as u8),
        (None, Some(y)) => if a == PLUS {
            Some(y)
        } else {
            None
        },
        _ => None,
    }
}

/// The bytes that a hexadecimal text spells, or why it spells none.
pub enum Decoded {
    Bytes(Seq<u8>),
    Uneven,
    NotHex,
}

/// What the bytes of a hexadecimal text decode to from `i` on, pair by pair,
/// up to the first pair that is none.
pub open spec fn decode_from(b: Seq<u8>, i: nat) -> Decoded
    decreases b.len() - i,
{
    if i >= b.len() {
        Decoded::Bytes(Seq::empty())
    } else if i + 2 > b.len() || !vstd::utf8::is_char_boundary(b, i + 2int) {
        Decoded::Uneven
    } else {
        match pair_value(b[i as int], b[i + 1int]) {
            None => Decoded::NotHex,
            Some(v) => match decode_from(b, i + 2) {
                Decoded::Bytes(rest) => Decoded::Bytes(seq![v] + rest),
                fault => fault,
            },
        }
    }
}

/// The bytes `done` in front of what follows them.
spec fn after(done: Seq<u8>, rest: Decoded) -> Decoded {
    match rest {
        Decoded::Bytes(b) => Decoded::Bytes(done + b),
        fault => fault,
    }
}

/// The value of a hexadecimal digit.
fn digit(b: u8) -> (r: Option<u8>)
    ensures
        r == digit_value(b),
{
    if b >= 0x30 && b <= 0x39 {
        Some(b - 0x30)
    } else if b >= 0x61 && b <= 0x66 {
        Some(b - 0x61 + 10)
    } else if b >= 0x41 && b <= 0x46 {
        Some(b - 0x41 + 10)
    } else {
        None
    }
}

/// The byte that two characters spell.
fn pair(a: u8, b: u8) -> (r: Option<u8>)
    ensures
        r == pair_value(a, b),
{
    match (digit(a), digit(b)) {
        (Some(x), Some(y)) => Some(16 * x + y),
        (None, Some(y)) => if a == PLUS {
            Some(y)
        } else {
            None
        },
        _ => None,
    }
}

/// The bytes that a hexadecimal text spells.
pub fn decode_hex(hex: &str) -> (r: Result<Vec<u8>, ImageIdError>)
    ensures
        match (r, decode_from(vstd::utf8::encode_utf8(hex@), 0)) {
            (Ok(v), Decoded::Bytes(b)) => v@ == b,
            (Err(ImageIdError::Uneven), Decoded::Uneven) => true,
            (Err(ImageIdError::NotHex), Decoded::NotHex) => true,
            _ => false,
        },
{
    let bytes = hex.as_bytes();
    let mut out: Vec<u8> = Vec::new();
    let mut i: usize = 0;
    let ghost all = bytes@;
    proof {
        match decode_from(all, 0) {
            Decoded::Bytes(b) => {
                assert(out@ + b =~= b);
            },
            _ => {},
        }
    }
    while i < bytes.len()
        invariant
            i <= bytes@.len(),
            bytes@ == all,
            all == vstd::utf8::encode_utf8(hex@),
            decode_from(all, 0) == after(out@, decode_from(all, i as nat)),
        decreases bytes@.len() - i,
    {
        if bytes.len() - i < 2 || !hex.is_char_boundary(i + 2) {
            return Err(ImageIdError::Uneven);
        }
        let ghost before = out@;
        match pair(bytes[i], bytes[i + 1]) {
            None => {
                return Err(ImageIdError::NotHex);
            },
            Some(v) => {
                out.push(v);
                proof {
                    match decode_from(all, (i + 2) as nat) {
                        Decoded::Bytes(rest) => {
                            assert(before + (seq![v] + rest) =~= out@ + rest);
                        },
                        _ => {},
                    }
                }
            },
        }
        i += 2;
    }
    assert(out@ + Seq::<u8>::empty() =~= out@);
    Ok(out)
}

/// The digest of 32 bytes that a hexadecimal text spells.
pub fn image_id(hex: &str) -> (r: Result<[u8; 32], ImageIdError>)
    ensures
        match (r, decode_from(vstd::utf8::encode_utf8(hex@), 0)) {
            (Ok(v), Decoded::Bytes(b)) => v@ == b,
            (Err(ImageIdError::WrongLength), Decoded::Bytes(b)) => b.len() != 32,
            (Err(ImageIdError::Uneven), Decoded::Uneven) => true,
            (Err(ImageIdError::NotHex), Decoded::NotHex) => true,
            _ => false,
        },
{
    let bytes = match decode_hex(hex) {
        Ok(b) => b,
        Err(e) => {
            return Err(e);
        },
    };
    if bytes.len() != 32 {
        return Err(ImageIdError::WrongLength);
    }
    let mut r: [u8; 32] = [0u8; 32];
    let mut i: usize = 0;
    while i < 32
        invariant
            i <= 32,
            bytes@.len() == 32,
            forall|k: int| 0 <= k < i ==> r@[k] == bytes@[k],
        decreases 32 - i,
    {
        r[i] = bytes[i];
        i += 1;
    }
    assert(r@ =~= bytes@);
    Ok(r)
}

/// Whether `r` is the image that a manifest entry spells.
pub open spec fn is_image_of(
    r: Result<[u8; 32], ImageIdError>,
    entry: Result<Option<Seq<char>>, ()>,
) -> bool {
    match entry {
        Err(_) => r matches Err(ImageIdError::Json(_)),
        Ok(None) => r matches Err(ImageIdError::Missing),
        Ok(Some(hex)) => match (r, decode_from(vstd::utf8::encode_utf8(hex), 0)) {
            (Ok(v), Decoded::Bytes(b)) => v@ == b,
            (Err(ImageIdError::WrongLength), Decoded::Bytes(b)) => b.len() != 32,
            (Err(ImageIdError::Uneven), Decoded::Uneven) => true,
            (Err(ImageIdError::NotHex), Decoded::NotHex) => true,
            _ => false,
        },
    }
}

/// The image that the committed receipt of a guest must be bound to, from the
/// text of the manifest.
pub fn expected_image_id(manifest: &str, name: &str) -> (r: Result<[u8; 32], ImageIdError>)
    ensures
        is_image_of(r, json_string(manifest@, "risc0"@, name@, "image_id"@)),
{
    match read_json_string(manifest, "risc0", name, "image_id") {
        Err(e) => Err(ImageIdError::Json(e)),
        Ok(None) => Err(ImageIdError::Missing),
        Ok(Some(hex)) => image_id(&hex),
    }
}

/// Why a verifying key is not the one in the manifest.
#[derive(Debug)]
pub enum KeyError {
    /// The manifest is not JSON.
    Json(serde_json::Error),
    /// The key has no entry.
    Missing,
    /// The manifest names another hash.
    Mismatch(String),
}

/// Compares a verifying key's hash with the manifest's entry for it.
pub fn compare_hash(hash: &str, expected: Option<String>) -> (r: Result<(), KeyError>)
    ensures
        is_comparison(
            r,
            hash@,
            match expected {
                Some(e) => Ok::<_, ()>(Some(e@)),
                None => Ok::<_, ()>(None),
            },
        ),
        match expected {
            None => r matches Err(KeyError::Missing),
            Some(e) => if hash@ == e@ {
                r is Ok
            } else {
                r matches Err(KeyError::Mismatch(m)) && m@ == e@
            },
        },
{
    match expected {
        None => Err(KeyError::Missing),
        Some(e) => if text::same(hash, &e) {
            Ok(())
        } else {
            Err(KeyError::Mismatch(e))
        },
    }
}

/// Whether `r` is the comparison of a hash with what a manifest holds.
pub open spec fn is_comparison(
    r: Result<(), KeyError>,
    hash: Seq<char>,
    held: Result<Option<Seq<char>>, ()>,
) -> bool {
    match held {
        Err(_) => r matches Err(KeyError::Json(_)),
        Ok(None) => r matches Err(KeyError::Missing),
        Ok(Some(e)) => if hash == e {
            r is Ok
        } else {
            r matches Err(KeyError::Mismatch(m)) && m@ == e
        },
    }
}

/// Checks a verifying key's hash against the `sp1/<key>/vk_hash` entry of a
/// manifest.
pub fn check_manifest_hash(manifest: &str, key: &str, hash: &str) -> (r: Result<(), KeyError>)
    ensures
        is_comparison(r, hash@, json_string(manifest@, "sp1"@, key@, "vk_hash"@)),
{
    match read_json_string(manifest, "sp1", key, "vk_hash") {
        Err(e) => Err(KeyError::Json(e)),
        Ok(expected) => compare_hash(hash, expected),
    }
}

/// The lower-case hexadecimal digit of a number below 16.
pub open spec fn hex_digit(n: u8) -> char {
    if n < 10 {
        (0x30 + n) as char
    } else {
        (0x61 + n - 10) as char
    }
}

/// The lower-case hexadecimal text of bytes.
pub open spec fn hex_text(b: Seq<u8>) -> Seq<char> {
    Seq::new(
        2 * b.len(),
        |i: int|
            if i % 2 == 0 {
                hex_digit(b[i / 2] / 16)
            } else {
                hex_digit(b[i / 2] % 16)
            },
    )
}

/// A digest that was written as lower-case hexadecimal text is read back.
pub proof fn law_hex_round_trip(b: Seq<u8>)
    ensures
        decode_from(vstd::utf8::encode_utf8(hex_text(b)), 0) == Decoded::Bytes(b),
{
    let t = hex_text(b);
    assert(vstd::utf8::is_ascii_chars(t)) by {
        assert forall|i: int| 0 <= i < t.len() implies (#[trigger] t[i]) as u32 <= 0x66 by {}
    }
    vstd::utf8::is_ascii_chars_encode_utf8(t);
    vstd::utf8::encode_utf8_valid_utf8(t);
    lemma_decode_tail(b, 0);
    assert(b.skip(0) =~= b);
}

proof fn lemma_decode_tail(b: Seq<u8>, k: nat)
    requires
        k <= b.len(),
        vstd::utf8::is_ascii_chars(hex_text(b)),
    ensures
        decode_from(vstd::utf8::encode_utf8(hex_text(b)), 2 * k) == Decoded::Bytes(
            b.skip(k as int),
        ),
    decreases b.len() - k,
{
    let t = hex_text(b);
    let e = vstd::utf8::encode_utf8(t);
    vstd::utf8::is_ascii_chars_encode_utf8(t);
    vstd::utf8::encode_utf8_valid_utf8(t);
    if k == b.len() {
        assert(b.skip(k as int) =~= Seq::<u8>::empty());
    } else {
        lemma_decode_tail(b, k + 1);
        let i = 2 * k as int;
        assert(vstd::utf8::is_char_boundary(e, i + 2)) by {
            if i + 2 < e.len() {
                assert(e[i + 2] == t[i + 2] as u8);
                vstd::utf8::is_char_boundary_iff_not_is_continuation_byte(e, i + 2);
                vstd::utf8::utf8_byte_ranges_bitwise(e[i + 2]);
            } else {
                vstd::utf8::is_char_boundary_start_end_of_seq(e);
            }
        }
        assert(i / 2 == k && (i + 1) / 2 == k);
        assert(e[i] == t[i] as u8 && e[i + 1] == t[i + 1] as u8);
        assert(t[i] == hex_digit(b[k as int] / 16) && t[i + 1] == hex_digit(b[k as int] % 16));
        assert(pair_value(e[i], e[i + 1]) == Some(b[k as int]));
        assert(seq![b[k as int]] + b.skip(k + 1int) =~= b.skip(k as int));
    }
}

/// The kinds of JSON value.
#[derive(Clone, Copy, Debug, PartialEq, Eq, Structural)]
pub enum Shape {
    Null,
    Bool,
    Number,
    String,
    Array,
    Object,
}

impl Shape {
    /// Whether a member can be set: null turns into an object.
    pub open spec fn takes_members(self) -> bool {
        self == Shape::Null || self == Shape::Object
    }

    fn can_take_members(self) -> (r: bool)
        ensures
            r == self.takes_members(),
    {
        self == Shape::Null || self == Shape::Object
    }
}

/// The kinds of a JSON text's value, of its member `system` and of that
/// member's member `entry`, null where there is none; an error where the text
/// is not JSON.
pub uninterp spec fn json_shapes(
    manifest: Seq<char>,
    system: Seq<char>,
    entry: Seq<char>,
) -> Result<(Shape, Shape, Shape), ()>;

/// `serde_json::from_str` and the variants of the `Value` it gives, of
/// `value[system]` and of `value[system][entry]`: a function of the text and
/// the keys.
#[verifier::external_body]
fn read_json_shapes(manifest: &str, system: &str, entry: &str) -> (r: Result<
    (Shape, Shape, Shape),
    serde_json::Error,
>)
    ensures
        match (r, json_shapes(manifest@, system@, entry@)) {
            (Ok(a), Ok(b)) => a == b,
            (Err(_), Err(_)) => true,
            _ => false,
        },
{
    let value: serde_json::Value = serde_json::from_str(manifest)?;
    let shape = |v: &serde_json::Value| match v {
        serde_json::Value::Null => Shape::Null,
        serde_json::Value::Bool(_) => Shape::Bool,
        serde_json::Value::Number(_) => Shape::Number,
        serde_json::Value::String(_) => Shape::String,
        serde_json::Value::Array(_) => Shape::Array,
        serde_json::Value::Object(_) => Shape::Object,
    };
    Ok((shape(&value), shape(&value[system]), shape(&value[system][entry])))
}

/// Whether members can be added down to the entry.
pub open spec fn can_update(shapes: (Shape, Shape, Shape)) -> bool {
    shapes.0.takes_members() && shapes.1.takes_members() && shapes.2.takes_members()
}

/// A JSON text with the string under three nested keys set, pretty-printed.
pub uninterp spec fn json_updated(
    manifest: Seq<char>,
    system: Seq<char>,
    entry: Seq<char>,
    key: Seq<char>,
    value: Seq<char>,
) -> Seq<char>;

/// The key that `serde_json` reserves: an object whose first key this is is
/// read as a number.
pub const RESERVED: &'static str = "$serde_json::private::Number";

/// Whether a string that is set under three keys of a manifest is found again
/// in the printed text: no key is the reserved one, and no key of the
/// manifest can be, for the text holds neither a dollar sign nor an escape.
pub open spec fn reads_back(
    manifest: Seq<char>,
    system: Seq<char>,
    entry: Seq<char>,
    key: Seq<char>,
) -> bool {
    &&& system != RESERVED@ && entry != RESERVED@ && key != RESERVED@
    &&& forall|i: int| 0 <= i < manifest.len() ==> #[trigger] manifest[i] != '$' && manifest[i]
        != '\\'
}

/// Whether a string that is set under three keys of a manifest is found again.
pub fn will_read_back(manifest: &str, system: &str, entry: &str, key: &str) -> (r: bool)
    ensures
        r == reads_back(manifest@, system@, entry@, key@),
{
    if text::same(system, RESERVED) || text::same(entry, RESERVED) || text::same(key, RESERVED) {
        return false;
    }
    let all = text::chars(manifest);
    let mut i: usize = 0;
    while i < all.len()
        invariant
            i <= all@.len(),
            all@ == manifest@,
            forall|k: int| 0 <= k < i ==> #[trigger] manifest@[k] != '$' && manifest@[k] != '\\',
        decreases all@.len() - i,
    {
        if all[i] == '$' || all[i] == '\\' {
            assert(manifest@[i as int] == all@[i as int]);
            return false;
        }
        i += 1;
    }
    true
}

/// `serde_json::from_str`, an assignment through `Value`'s `IndexMut` and
/// `serde_json::to_string_pretty`: a function of the arguments. Printing a
/// value into memory does not fail. Away from the key that the parser
/// reserves for numbers, the string that was set is found again; beside it,
/// nothing is said of what the printed text reads as.
#[verifier::external_body]
fn write_json_string(
    manifest: &str,
    system: &str,
    entry: &str,
    key: &str,
    value: &str,
) -> (r: Result<String, serde_json::Error>)
    requires
        json_shapes(manifest@, system@, entry@) matches Ok(shapes) && can_update(shapes),
    ensures
        r is Ok,
        r matches Ok(t) ==> {
            &&& t@ == json_updated(manifest@, system@, entry@, key@, value@)
            &&& reads_back(manifest@, system@, entry@, key@) ==> json_string(
                t@,
                system@,
                entry@,
                key@,
            ) == Ok::<Option<Seq<char>>, ()>(Some(value@))
        },
{
    let mut json: serde_json::Value = serde_json::from_str(manifest)?;
    json[system][entry][key] = value.into();
    serde_json::to_string_pretty(&json)
}

/// Why a manifest is not updated.
#[derive(Debug)]
pub enum UpdateError {
    /// The manifest is not JSON.
    Json(serde_json::Error),
    /// A value on the way to the entry is neither an object nor null.
    NotAnObject,
}

/// A manifest with the string under three nested keys set. The string is
/// found again under the same keys where [`will_read_back`] says so.
pub fn update_manifest(
    manifest: &str,
    system: &str,
    entry: &str,
    key: &str,
    value: &str,
) -> (r: Result<String, UpdateError>)
    ensures
        match json_shapes(manifest@, system@, entry@) {
            Err(_) => r matches Err(UpdateError::Json(_)),
            Ok(shapes) => if can_update(shapes) {
                r matches Ok(t) && t@ == json_updated(manifest@, system@, entry@, key@, value@) && (
                reads_back(manifest@, system@, entry@, key@) ==> json_string(
                    t@,
                    system@,
                    entry@,
                    key@,
                ) == Ok::<Option<Seq<char>>, ()>(Some(value@)))
            } else {
                r matches Err(UpdateError::NotAnObject)
            },
        },
{
    match read_json_shapes(manifest, system, entry) {
        Err(e) => Err(UpdateError::Json(e)),
        Ok((root, first, second)) => {
            if !root.can_take_members() || !first.can_take_members()
                || !second.can_take_members() {
                return Err(UpdateError::NotAnObject);
            }
            match write_json_string(manifest, system, entry, key, value) {
                Ok(t) => Ok(t),
                Err(e) => Err(UpdateError::Json(e)),
            }
        },
    }
}

/// The image that was recorded for a guest is the image that its receipt must
/// be bound to: reading the updated manifest gives the digest whose
/// hexadecimal text was written.
pub proof fn law_recorded_image_is_expected(
    updated: Seq<char>,
    name: Seq<char>,
    id: [u8; 32],
    r: Result<[u8; 32], ImageIdError>,
)
    requires
        json_string(updated, "risc0"@, name, "image_id"@) == Ok::<Option<Seq<char>>, ()>(
            Some(hex_text(id@)),
        ),
        is_image_of(r, json_string(updated, "risc0"@, name, "image_id"@)),
    ensures
        r matches Ok(v) && v@ == id@,
{
    law_hex_round_trip(id@);
}

/// A verifying key whose hash was recorded passes the check: comparing with
/// the updated manifest accepts the hash that was written, and no other.
pub proof fn law_recorded_hash_passes(
    updated: Seq<char>,
    key: Seq<char>,
    written: Seq<char>,
    hash: Seq<char>,
    r: Result<(), KeyError>,
)
    requires
        json_string(updated, "sp1"@, key, "vk_hash"@) == Ok::<Option<Seq<char>>, ()>(Some(written)),
        is_comparison(r, hash, json_string(updated, "sp1"@, key, "vk_hash"@)),
    ensures
        r is Ok <==> hash == written,
{
}

/// A hexadecimal digit goes by its place in the alphabet, in either case.
pub proof fn law_digit_value(b: u8)
    ensures
        48 <= b <= 57 ==> digit_value(b) == Some((b - 48) as u8),
        97 <= b <= 102 ==> digit_value(b) == Some((b - 87) as u8),
        65 <= b <= 70 ==> digit_value(b) == Some((b - 55) as u8),
        b < 48 || 57 < b < 65 || 70 < b < 97 || 102 < b ==> digit_value(b) is None,
{
}

/// Two digits spell the byte with the first as its high half; a plus sign may
/// stand in place of the first, for nothing.
pub proof fn law_pair_value(a: u8, b: u8)
    ensures
        digit_value(a) is Some && digit_value(b) is Some ==> pair_value(a, b) is Some
            && pair_value(a, b)->0 / 16 == digit_value(a)->0 && pair_value(a, b)->0 % 16
            == digit_value(b)->0,
        digit_value(b) is None ==> pair_value(a, b) is None,
        a == 43 ==> pair_value(a, b) == digit_value(b),
        a != 43 && digit_value(a) is None ==> pair_value(a, b) is None,
{
}

/// A text is decoded pair by pair: a pair that is none ends it, and so does a
/// pair that is cut short or cuts a character.
pub proof fn law_pairs_are_decoded(b: Seq<u8>, i: nat)
    ensures
        i >= b.len() ==> decode_from(b, i) == Decoded::Bytes(Seq::empty()),
        i + 1 == b.len() ==> decode_from(b, i) == Decoded::Uneven,
        i + 2 <= b.len() && !vstd::utf8::is_char_boundary(b, i + 2int) ==> decode_from(b, i)
            == Decoded::Uneven,
        i + 2 <= b.len() && vstd::utf8::is_char_boundary(b, i + 2int) ==> ({
            let v = pair_value(b[i as int], b[i + 1int]);
            &&& v is None ==> decode_from(b, i) == Decoded::NotHex
            &&& v is Some ==> ({
                let rest = decode_from(b, i + 2);
                &&& rest is Bytes ==> decode_from(b, i) == Decoded::Bytes(
                    seq![v->0] + rest->Bytes_0,
                )
                &&& !(rest is Bytes) ==> decode_from(b, i) == rest
            })
        }),
{
}

/// The hexadecimal text of bytes has two lower-case digits for each.
pub proof fn law_hex_text(b: Seq<u8>, k: int)
    requires
        0 <= k < b.len(),
    ensures
        hex_text(b).len() == 2 * b.len(),
        digit_value(hex_text(b)[2 * k] as u8) == Some((b[k] / 16) as u8),
        digit_value(hex_text(b)[2 * k + 1] as u8) == Some((b[k] % 16) as u8),
        48 <= hex_text(b)[2 * k] as int <= 57 || 97 <= hex_text(b)[2 * k] as int <= 102,
        48 <= hex_text(b)[2 * k + 1] as int <= 57 || 97 <= hex_text(b)[2 * k + 1] as int <= 102,
{
    assert((2 * k) / 2 == k && (2 * k) % 2 == 0 && (2 * k + 1) / 2 == k && (2 * k + 1) % 2 == 1);
}

/// An image is expected exactly where the manifest has an entry that spells
/// 32 bytes, and is those bytes; each fault has its own cause.
pub proof fn law_image_is_read(
    r: Result<[u8; 32], ImageIdError>,
    entry: Result<Option<Seq<char>>, ()>,
    hex: Seq<char>,
    bytes: Seq<u8>,
)
    requires
        is_image_of(r, entry),
    ensures
        entry is Err <==> (r matches Err(ImageIdError::Json(_))),
        entry == Ok::<Option<Seq<char>>, ()>(None) <==> (r matches Err(ImageIdError::Missing)),
        entry == Ok::<Option<Seq<char>>, ()>(Some(hex)) && decode_from(
            vstd::utf8::encode_utf8(hex),
            0,
        ) == Decoded::Bytes(bytes) ==> ({
            &&& bytes.len() == 32 ==> r is Ok && r->Ok_0@ == bytes
            &&& bytes.len() != 32 ==> (r matches Err(ImageIdError::WrongLength))
        }),
        entry == Ok::<Option<Seq<char>>, ()>(Some(hex)) && decode_from(
            vstd::utf8::encode_utf8(hex),
            0,
        ) == Decoded::Uneven ==> (r matches Err(ImageIdError::Uneven)),
        entry == Ok::<Option<Seq<char>>, ()>(Some(hex)) && decode_from(
            vstd::utf8::encode_utf8(hex),
            0,
        ) == Decoded::NotHex ==> (r matches Err(ImageIdError::NotHex)),
{
}

/// A hash passes exactly where the manifest holds it; each fault has its own
/// cause, and a mismatch tells what the manifest holds.
pub proof fn law_hash_is_compared(
    r: Result<(), KeyError>,
    hash: Seq<char>,
    held: Result<Option<Seq<char>>, ()>,
)
    requires
        is_comparison(r, hash, held),
    ensures
        r is Ok <==> held == Ok::<Option<Seq<char>>, ()>(Some(hash)),
        held is Err <==> (r matches Err(KeyError::Json(_))),
        held == Ok::<Option<Seq<char>>, ()>(None) <==> (r matches Err(KeyError::Missing)),
        r matches Err(KeyError::Mismatch(m)) ==> held == Ok::<Option<Seq<char>>, ()>(Some(m@))
            && m@ != hash,
{
}

/// Members are added exactly where every value down to the entry is an object
/// or null.
pub proof fn law_can_update(a: Shape, b: Shape, c: Shape)
    ensures
        can_update((a, b, c)) <==> (a is Null || a is Object) && (b is Null || b is Object) && (
        c is Null || c is Object),
{
}

/// A set string is found again unless a key is the reserved one, or the text
/// could hold it: it begins with a dollar sign, and could be escaped.
pub proof fn law_reads_back(
    manifest: Seq<char>,
    system: Seq<char>,
    entry: Seq<char>,
    key: Seq<char>,
)
    ensures
        reads_back(manifest, system, entry, key) <==> !manifest.contains('$') && !manifest.contains(
            '\\',
        ) && system != "$serde_json::private::Number"@ && entry
            != "$serde_json::private::Number"@ && key != "$serde_json::private::Number"@,
{
    if !manifest.contains('$') && !manifest.contains('\\') {
        assert forall|i: int| 0 <= i < manifest.len() implies #[trigger] manifest[i] != '$'
            && manifest[i] != '\\' by {
            assert(manifest.contains(manifest[i]));
        }
    }
}

} // verus!
