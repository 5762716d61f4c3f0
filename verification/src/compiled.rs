//! Reading compiled programs.
//!
//! The parser of compiled programs gives up on the whole process, not with an
//! error, where a word of the program is a single character or holds one
//! outside ASCII, where a constant runs over 256 bits at its last digit, or
//! where a reference subtracts the least 32-bit offset. A walk over the bytes
//! tells the texts on which it does not.
use vstd::prelude::*;

use crate::felt;
use crate::stwo;
use crate::text;

verus! {

/// The least 32-bit offset, as a reference writes it behind its sign and
/// leading zeros.
pub const LEAST: &'static str = "2147483648)";

/// The key under which the parser reads a number from a string.
pub const NUMBER: &'static str = "$serde_json::private::Number";

/// The key of the program's words.
pub const DATA: &'static str = "data";

/// The key of the program's identifiers, whose values are numbers.
pub const IDENTIFIERS: &'static str = "identifiers";

/// The key of the program's references.
pub const REFERENCES: &'static str = "reference_manager";

/// Where the bytes of a string literal that begin at `i` are over: behind the
/// closing quote, or at the end of the text.
pub open spec fn string_end(s: Seq<u8>, i: int) -> int
    decreases s.len() - i,
{
    if i >= s.len() {
        s.len() as int
    } else if s[i] == 34 {
        i + 1
    } else if s[i] == 92 && i + 1 < s.len() {
        string_end(s, i + 2)
    } else {
        string_end(s, i + 1)
    }
}

/// The value of a hexadecimal digit, or 16.
pub open spec fn nibble(b: u8) -> int {
    if 48 <= b <= 57 {
        b - 48
    } else if 65 <= b <= 70 {
        b - 55
    } else if 97 <= b <= 102 {
        b - 87
    } else {
        16
    }
}

/// The byte that the escape at `i` stands for where it is ASCII, else 128.
pub open spec fn escaped(s: Seq<u8>, i: int, k: int) -> u8 {
    if i + 1 >= k {
        128
    } else if s[i + 1] == 117 {
        if i + 5 < k && s[i + 2] == 48 && s[i + 3] == 48 && nibble(s[i + 4]) < 8 && nibble(s[i + 5])
            < 16 {
            (16 * nibble(s[i + 4]) + nibble(s[i + 5])) as u8
        } else {
            128
        }
    } else if s[i + 1] == 98 {
        8
    } else if s[i + 1] == 102 {
        12
    } else if s[i + 1] == 110 {
        10
    } else if s[i + 1] == 114 {
        13
    } else if s[i + 1] == 116 {
        9
    } else {
        s[i + 1]
    }
}

/// How many bytes the escape at `i` takes.
pub open spec fn escape_len(s: Seq<u8>, i: int, k: int) -> int {
    if i + 1 < k && s[i + 1] == 117 {
        6
    } else {
        2
    }
}

/// What the bytes from `i` to `k` of a string literal stand for; for a
/// character outside ASCII there is one byte or more from 128 on.
pub open spec fn decoded(s: Seq<u8>, i: int, k: int) -> Seq<u8>
    decreases k - i,
{
    if i >= k {
        Seq::empty()
    } else if s[i] == 92 {
        let next = i + escape_len(s, i, k);
        seq![escaped(s, i, k)] + decoded(
            s,
            if next < k {
                next
            } else {
                k
            },
            k,
        )
    } else {
        seq![s[i]] + decoded(s, i + 1, k)
    }
}

/// Whether `t` stands at `k`.
pub open spec fn stands_at(s: Seq<u8>, k: int, t: Seq<char>) -> bool {
    &&& k + t.len() <= s.len()
    &&& forall|j: int| 0 <= j < t.len() ==> s[k + j] as int == #[trigger] t[j] as int
}

/// Whether bytes are those of a text.
pub open spec fn spells(s: Seq<u8>, t: Seq<char>) -> bool {
    s.len() == t.len() && stands_at(s, 0, t)
}

/// Whether a word is not a single character and is ASCII.
pub open spec fn plain(d: Seq<u8>) -> bool {
    &&& d.len() != 1
    &&& forall|j: int| 0 <= j < d.len() ==> #[trigger] d[j] < 128
}

/// Whether the digits at `k` run over the edge of 256 bits.
pub open spec fn edge_at(s: Seq<u8>, k: int) -> bool {
    stands_at(s, k, felt::EDGE@) && k + 77 < s.len() && 54 <= s[k + 77] <= 57
}

/// Whether digits anywhere run over the edge of 256 bits.
pub open spec fn has_edge(d: Seq<u8>) -> bool {
    exists|k: int| 0 <= k < d.len() && #[trigger] edge_at(d, k)
}

/// Where the zeros that begin at `i` are over.
pub open spec fn zeros_end(s: Seq<u8>, i: int) -> int
    decreases s.len() - i,
{
    if i < s.len() && s[i] == 48 {
        zeros_end(s, i + 1)
    } else {
        i
    }
}

/// Whether the least offset stands at `k`.
pub open spec fn least_at(s: Seq<u8>, k: int) -> bool {
    k + 1 < s.len() && s[k] == 40 && s[k + 1] == 45 && stands_at(s, zeros_end(s, k + 2), LEAST@)
}

/// Whether the least offset stands anywhere.
pub open spec fn has_least(d: Seq<u8>) -> bool {
    exists|k: int| 0 <= k < d.len() && #[trigger] least_at(d, k)
}

/// Where a walk over a text stands: how many brackets are open, whether the
/// first is square, the last string directly behind it, which is the key of
/// what is open, whether the second bracket is that of the program's words,
/// and whether the last string was [`NUMBER`].
pub struct Place {
    pub depth: nat,
    pub list: bool,
    pub top: Seq<u8>,
    pub words: bool,
    pub number: bool,
}

impl Place {
    /// Whether what stands here is under a key of the program. In a list keys
    /// are left out, so that it may be under any.
    pub open spec fn under(self, key: Seq<char>) -> bool {
        self.depth >= 2 && (self.list || spells(self.top, key))
    }

    /// The place behind an opening bracket.
    pub open spec fn opened(self, square: bool) -> Place {
        Place {
            depth: self.depth + 1,
            list: if self.depth == 0 {
                square
            } else {
                self.list
            },
            words: if self.depth == 1 {
                square && (self.list || spells(self.top, DATA@))
            } else {
                self.words
            },
            ..self
        }
    }

    /// The place behind a closing bracket.
    pub open spec fn closed(self) -> Place {
        Place {
            depth: if self.depth > 0 {
                (self.depth - 1) as nat
            } else {
                0
            },
            ..self
        }
    }

    /// The place behind a string.
    pub open spec fn said(self, d: Seq<u8>) -> Place {
        Place {
            top: if self.depth == 1 {
                d
            } else {
                self.top
            },
            number: spells(d, NUMBER@),
            ..self
        }
    }

    /// Whether the parser gets along with a string here.
    pub open spec fn takes(self, d: Seq<u8>) -> bool {
        &&& self.depth == 2 && self.words ==> plain(d)
        &&& self.under(REFERENCES@) ==> !has_least(d)
        &&& self.under(IDENTIFIERS@) && self.number ==> !has_edge(d)
    }
}

/// Whether the parser gets along with what stands from `i` on: words of the
/// program are plain, no number among its identifiers runs over the edge, and
/// no reference holds the least offset.
pub open spec fn walks(s: Seq<u8>, i: int, at: Place) -> bool
    decreases s.len() - i,
{
    if i >= s.len() {
        true
    } else if s[i] == 34 {
        let end = string_end(s, i + 1);
        let d = decoded(s, i + 1, end - 1);
        at.takes(d) && i < end <= s.len() && walks(s, end, at.said(d))
    } else if s[i] == 91 || s[i] == 123 {
        walks(s, i + 1, at.opened(s[i] == 91))
    } else if s[i] == 93 || s[i] == 125 {
        walks(s, i + 1, at.closed())
    } else {
        (at.under(IDENTIFIERS@) ==> !edge_at(s, i)) && walks(s, i + 1, at)
    }
}

/// The place at the beginning of a text.
pub open spec fn start() -> Place {
    Place { depth: 0, list: false, top: Seq::empty(), words: false, number: false }
}

/// Whether the parser reads the text or rejects it. It counts brackets in 32
/// bits.
pub open spec fn readable(s: Seq<u8>) -> bool {
    s.len() <= i32::MAX && walks(s, 0, start())
}

/// A string literal ends behind where it begins.
proof fn lemma_string_end(s: Seq<u8>, i: int)
    requires
        0 <= i <= s.len(),
    ensures
        i <= string_end(s, i) <= s.len(),
    decreases s.len() - i,
{
    if i < s.len() && s[i] != 34 {
        if s[i] == 92 && i + 2 <= s.len() {
            lemma_string_end(s, i + 2);
        } else if s[i] == 92 {
            assert(string_end(s, i + 1) == s.len());
        } else {
            lemma_string_end(s, i + 1);
        }
    }
}

/// Where the bytes of a string literal are over.
fn skip_string(bytes: &Vec<u8>, i: usize) -> (r: usize)
    requires
        i <= bytes@.len(),
    ensures
        r == string_end(bytes@, i as int),
        i <= r <= bytes@.len(),
{
    proof {
        lemma_string_end(bytes@, i as int);
    }
    let mut k = i;
    while k < bytes.len()
        invariant
            k <= bytes@.len(),
            i <= string_end(bytes@, i as int) <= bytes@.len(),
            string_end(bytes@, k as int) == string_end(bytes@, i as int),
        decreases bytes@.len() - k,
    {
        if bytes[k] == 34 {
            return k + 1;
        }
        if bytes[k] == 92 {
            if bytes.len() - k < 2 {
                assert(string_end(bytes@, k + 1) == bytes@.len());
                return bytes.len();
            }
            k += 2;
        } else {
            k += 1;
        }
    }
    k
}

/// The value of a hexadecimal digit, or 16.
fn nibble_of(b: u8) -> (r: u8)
    ensures
        r == nibble(b),
{
    if 48 <= b && b <= 57 {
        b - 48
    } else if 65 <= b && b <= 70 {
        b - 55
    } else if 97 <= b && b <= 102 {
        b - 87
    } else {
        16
    }
}

/// The byte that the escape at `i` stands for where it is ASCII, else 128.
fn unescape(bytes: &Vec<u8>, i: usize, k: usize) -> (r: u8)
    requires
        i < k <= bytes@.len(),
    ensures
        r == escaped(bytes@, i as int, k as int),
{
    if k - i < 2 {
        return 128;
    }
    let e = bytes[i + 1];
    if e == 117 {
        if k - i > 5 && bytes[i + 2] == 48 && bytes[i + 3] == 48 {
            let (h, l) = (nibble_of(bytes[i + 4]), nibble_of(bytes[i + 5]));
            if h < 8 && l < 16 {
                return 16 * h + l;
            }
        }
        128
    } else if e == 98 {
        8
    } else if e == 102 {
        12
    } else if e == 110 {
        10
    } else if e == 114 {
        13
    } else if e == 116 {
        9
    } else {
        e
    }
}

/// What the bytes from `i` to `k` of a string literal stand for.
#[verifier::rlimit(30)]
fn decode(bytes: &Vec<u8>, i: usize, k: usize) -> (r: Vec<u8>)
    requires
        k <= bytes@.len(),
    ensures
        r@ == decoded(bytes@, i as int, k as int),
{
    let mut r: Vec<u8> = Vec::new();
    let mut j = i;
    while j < k
        invariant
            k <= bytes@.len(),
            r@ + decoded(bytes@, j as int, k as int) == decoded(bytes@, i as int, k as int),
        decreases k - j,
    {
        let ghost (r0, j0) = (r@, j as int);
        if bytes[j] == 92 {
            r.push(unescape(bytes, j, k));
            let n: usize = if k - j > 1 && bytes[j + 1] == 117 {
                6
            } else {
                2
            };
            j = if k - j < n {
                k
            } else {
                j + n
            };
        } else {
            r.push(bytes[j]);
            j += 1;
        }
        assert(r@ + decoded(bytes@, j as int, k as int) =~= r0 + decoded(bytes@, j0, k as int));
    }
    assert(r@ + Seq::<u8>::empty() =~= r@);
    r
}

/// Whether `t` stands at `k`.
fn does_stand_at(bytes: &Vec<u8>, k: usize, t: &Vec<char>) -> (r: bool)
    requires
        k <= bytes@.len(),
    ensures
        r == stands_at(bytes@, k as int, t@),
{
    let len = bytes.len();
    if len - k < t.len() {
        return false;
    }
    let mut j: usize = 0;
    while j < t.len()
        invariant
            j <= t@.len(),
            len == bytes@.len(),
            k + t@.len() <= bytes@.len(),
            forall|n: int| 0 <= n < j ==> bytes@[k + n] as int == #[trigger] t@[n] as int,
        decreases t@.len() - j,
    {
        if bytes[k + j] as char != t[j] {
            assert(bytes@[k + j] as int != t@[j as int] as int);
            return false;
        }
        j += 1;
    }
    true
}

/// Whether bytes are those of a text.
fn does_spell(bytes: &Vec<u8>, t: &str) -> (r: bool)
    ensures
        r == spells(bytes@, t@),
{
    let t = text::chars(t);
    bytes.len() == t.len() && does_stand_at(bytes, 0, &t)
}

/// Whether a word is not a single character and is ASCII.
fn is_plain(d: &Vec<u8>) -> (r: bool)
    ensures
        r == plain(d@),
{
    let mut j: usize = 0;
    while j < d.len()
        invariant
            j <= d@.len(),
            forall|n: int| 0 <= n < j ==> #[trigger] d@[n] < 128,
        decreases d@.len() - j,
    {
        if d[j] >= 128 {
            return false;
        }
        j += 1;
    }
    d.len() != 1
}

/// Whether the digits at `k` run over the edge of 256 bits.
fn is_edge_at(bytes: &Vec<u8>, k: usize, edge: &Vec<char>) -> (r: bool)
    requires
        k <= bytes@.len(),
        edge@ == felt::EDGE@,
    ensures
        r == edge_at(bytes@, k as int),
{
    proof {
        felt::lemma_edge_len();
    }
    let len = bytes.len();
    does_stand_at(bytes, k, edge) && len - k > 77 && 54 <= bytes[k + 77] && bytes[k + 77] <= 57
}

/// Whether digits anywhere run over the edge of 256 bits.
fn does_have_edge(d: &Vec<u8>, edge: &Vec<char>) -> (r: bool)
    requires
        edge@ == felt::EDGE@,
    ensures
        r == has_edge(d@),
{
    let mut k: usize = 0;
    while k < d.len()
        invariant
            k <= d@.len(),
            edge@ == felt::EDGE@,
            forall|n: int| 0 <= n < k ==> !#[trigger] edge_at(d@, n),
        decreases d@.len() - k,
    {
        if is_edge_at(d, k, edge) {
            return true;
        }
        k += 1;
    }
    false
}

/// Where the zeros that begin at `i` are over.
fn skip_zeros(bytes: &Vec<u8>, i: usize) -> (r: usize)
    requires
        i <= bytes@.len(),
    ensures
        r == zeros_end(bytes@, i as int),
        r <= bytes@.len(),
{
    let mut k = i;
    while k < bytes.len() && bytes[k] == 48
        invariant
            k <= bytes@.len(),
            zeros_end(bytes@, k as int) == zeros_end(bytes@, i as int),
        decreases bytes@.len() - k,
    {
        k += 1;
    }
    k
}

/// Whether the least offset stands anywhere.
fn does_have_least(d: &Vec<u8>) -> (r: bool)
    ensures
        r == has_least(d@),
{
    let least = text::chars(LEAST);
    let len = d.len();
    let mut k: usize = 0;
    while k < len
        invariant
            k <= len == d@.len(),
            least@ == LEAST@,
            forall|n: int| 0 <= n < k ==> !#[trigger] least_at(d@, n),
        decreases len - k,
    {
        if len - k > 1 && d[k] == 40 && d[k + 1] == 45 && does_stand_at(
            d,
            skip_zeros(d, k + 2),
            &least,
        ) {
            assert(least_at(d@, k as int));
            return true;
        }
        assert(!least_at(d@, k as int));
        k += 1;
    }
    false
}

/// Whether the parser of compiled programs reads the text or rejects it.
#[verifier::rlimit(30)]
pub fn is_readable(bytes: &Vec<u8>) -> (r: bool)
    ensures
        r == readable(bytes@),
{
    let len = bytes.len();
    if len > 0x7fff_ffff {
        return false;
    }
    let edge = text::chars(felt::EDGE);
    let mut i: usize = 0;
    let mut depth: usize = 0;
    let mut list = false;
    let mut top: Vec<u8> = Vec::new();
    let mut words = false;
    let mut number = false;
    // Whether the place is among the program's references or identifiers.
    let mut references = false;
    let mut identifiers = false;
    proof {
        reveal_strlit("reference_manager");
        reveal_strlit("identifiers");
        assert(top@ =~= start().top);
    }
    while i < len
        invariant
            len == bytes@.len() <= i32::MAX,
            depth <= i <= len,
            edge@ == felt::EDGE@,
            references == (list || spells(top@, REFERENCES@)),
            identifiers == (list || spells(top@, IDENTIFIERS@)),
            walks(
                bytes@,
                i as int,
                (Place { depth: depth as nat, list, top: top@, words, number }),
            ) == walks(bytes@, 0, start()),
        decreases len - i,
    {
        let ghost at = Place { depth: depth as nat, list, top: top@, words, number };
        let c = bytes[i];
        if c == 34 {
            let end = skip_string(bytes, i + 1);
            let d = decode(bytes, i + 1, end - 1);
            let ghost said = d@;
            if depth == 2 && words && !is_plain(&d) {
                return false;
            }
            if depth >= 2 && references && does_have_least(&d) {
                return false;
            }
            if depth >= 2 && identifiers && number && does_have_edge(&d, &edge) {
                return false;
            }
            number = does_spell(&d, NUMBER);
            if depth == 1 {
                references = list || does_spell(&d, REFERENCES);
                identifiers = list || does_spell(&d, IDENTIFIERS);
                top = d;
            }
            assert(at.said(said) == (Place { depth: depth as nat, list, top: top@, words, number }));
            i = end;
        } else {
            if c == 91 || c == 123 {
                if depth == 0 {
                    list = c == 91;
                    references = list || does_spell(&top, REFERENCES);
                    identifiers = list || does_spell(&top, IDENTIFIERS);
                }
                if depth == 1 {
                    words = c == 91 && (list || does_spell(&top, DATA));
                }
                depth += 1;
                assert(at.opened(c == 91) == (Place {
                    depth: depth as nat,
                    list,
                    top: top@,
                    words,
                    number,
                }));
            } else if c == 93 || c == 125 {
                if depth > 0 {
                    depth -= 1;
                }
                assert(at.closed() == (Place { depth: depth as nat, list, top: top@, words, number }));
            } else if depth >= 2 && identifiers && is_edge_at(bytes, i, &edge) {
                return false;
            }
            i += 1;
        }
    }
    true
}

/// Where the program in a text starts, the names of its builtins and its
/// words, if the text is that of a compiled program with this entry point.
pub uninterp spec fn compiled_program(bytes: Seq<u8>, entry: Seq<char>) -> Option<
    (usize, Seq<Seq<char>>, Seq<Seq<u8>>),
>;

/// `Program::from_bytes` of `cairo-vm` and then `get_stripped_program`: what
/// comes out is a function of the bytes and the entry point, for one width of
/// `usize`. The builtins are known ones, for the parser has no others. The
/// parser panics on texts that are not readable. What its error says is left
/// open.
#[verifier::external_body]
fn read_program(bytes: &Vec<u8>, entry: &str) -> (r: Result<stwo::Program, String>)
    requires
        readable(bytes@),
    ensures
        match (r, compiled_program(bytes@, entry@)) {
            (Ok(p), Some((main, builtins, words))) => {
                &&& p.main == main
                &&& p.builtin_names() == builtins
                &&& p.words() == words
            },
            (Err(_), None) => true,
            _ => false,
        },
        r matches Ok(p) ==> p.builtins_known(),
{
    let p = cairo_vm::types::program::Program::from_bytes(bytes, Some(entry))
        .and_then(|p| p.get_stripped_program()).map_err(|e| e.to_string())?;
    let words = p.data.iter().map(|w| w.get_int_ref().map(|n| n.to_bytes_be()));
    Ok(stwo::Program {
        main: p.main,
        builtins: p.builtins.iter().map(|b| b.to_str().to_string()).collect(),
        data: words.collect::<Option<_>>().ok_or_else(String::new)?,
    })
}

/// Why a text is not read as a program.
#[derive(Debug)]
pub enum ProgramError {
    /// The parser would give up on the text.
    Unreadable,
    /// The text is not that of a compiled program with the entry point.
    Rejected(String),
}

/// The program in the text of a compiled one.
pub fn parse_program(bytes: &Vec<u8>, entry: &str) -> (r: Result<stwo::Program, ProgramError>)
    ensures
        readable(bytes@) || r matches Err(ProgramError::Unreadable),
        readable(bytes@) ==> match (r, compiled_program(bytes@, entry@)) {
            (Ok(p), Some((main, builtins, words))) => {
                &&& p.main == main
                &&& p.builtin_names() == builtins
                &&& p.words() == words
                &&& p.builtins_known()
            },
            (Err(ProgramError::Rejected(_)), None) => true,
            _ => false,
        },
{
    if !is_readable(bytes) {
        return Err(ProgramError::Unreadable);
    }
    match read_program(bytes, entry) {
        Ok(p) => Ok(p),
        Err(e) => Err(ProgramError::Rejected(e)),
    }
}

/// A string literal is over behind its first quote that no backslash escapes,
/// or where the text ends.
pub proof fn law_string_end(s: Seq<u8>, i: int)
    requires
        0 <= i,
    ensures
        i >= s.len() ==> string_end(s, i) == s.len(),
        i < s.len() && s[i] as int == '"' as int ==> string_end(s, i) == i + 1,
        i + 1 < s.len() && s[i] as int == '\\' as int ==> string_end(s, i) == string_end(s, i + 2),
        i + 1 == s.len() && s[i] as int == '\\' as int ==> string_end(s, i) == s.len(),
        i < s.len() && s[i] as int != '"' as int && s[i] as int != '\\' as int ==> string_end(s, i)
            == string_end(s, i + 1),
{
    reveal_with_fuel(string_end, 2);
}

/// A literal without a backslash stands for its own bytes.
pub proof fn law_decoded_plainly(s: Seq<u8>, i: int, k: int)
    requires
        0 <= i <= k <= s.len(),
        forall|j: int| i <= j < k ==> #[trigger] s[j] as int != '\\' as int,
    ensures
        decoded(s, i, k) == s.subrange(i, k),
    decreases k - i,
{
    if i < k {
        law_decoded_plainly(s, i + 1, k);
        assert(seq![s[i]] + s.subrange(i + 1, k) =~= s.subrange(i, k));
    } else {
        assert(s.subrange(i, k) =~= Seq::<u8>::empty());
    }
}

/// A backslash and what it escapes stand for one byte: a control character
/// behind its letter, a character by its four hexadecimal digits where it is
/// ASCII, and anything else for itself.
pub proof fn law_escapes(s: Seq<u8>, i: int, k: int)
    requires
        0 <= i,
        i + 1 < k <= s.len(),
        s[i] as int == '\\' as int,
    ensures
        s[i + 1] as int != 'u' as int ==> decoded(s, i, k) == seq![escaped(s, i, k)] + decoded(
            s,
            i + 2,
            k,
        ),
        s[i + 1] as int == 'u' as int && i + 6 <= k ==> decoded(s, i, k) == seq![escaped(s, i, k)]
            + decoded(s, i + 6, k),
        s[i + 1] as int == 'b' as int ==> escaped(s, i, k) == 8,
        s[i + 1] as int == 't' as int ==> escaped(s, i, k) as int == '\t' as int,
        s[i + 1] as int == 'n' as int ==> escaped(s, i, k) as int == '\n' as int,
        s[i + 1] as int == 'f' as int ==> escaped(s, i, k) == 12,
        s[i + 1] as int == 'r' as int ==> escaped(s, i, k) as int == '\r' as int,
        s[i + 1] as int == '"' as int || s[i + 1] as int == '\\' as int || s[i + 1] as int
            == '/' as int ==> escaped(s, i, k) == s[i + 1],
        s[i + 1] as int == 'u' as int && i + 6 <= k && s[i + 2] as int == '0' as int && s[i
            + 3] as int == '0' as int && '0' as int <= s[i + 4] as int <= '7' as int && nibble(
            s[i + 5],
        ) < 16 ==> escaped(s, i, k) as int == 16 * (s[i + 4] - 48) + nibble(s[i + 5]),
        s[i + 1] as int == 'u' as int && (i + 6 > k || s[i + 2] as int != '0' as int || s[i
            + 3] as int != '0' as int) ==> escaped(s, i, k) >= 128,
{
}

/// Digits go by their place in the alphabet, in either case.
pub proof fn law_nibble(b: u8)
    ensures
        '0' as int <= b as int <= '9' as int ==> nibble(b) == b - 48,
        'a' as int <= b as int <= 'f' as int ==> nibble(b) == b - 97 + 10,
        'A' as int <= b as int <= 'F' as int ==> nibble(b) == b - 65 + 10,
        nibble(b) == 16 <==> !('0' as int <= b as int <= '9' as int || 'a' as int <= b as int
            <= 'f' as int || 'A' as int <= b as int <= 'F' as int),
{
}

/// A word is plain exactly where it is ASCII and not one character long.
pub proof fn law_plain(d: Seq<u8>, b: u8)
    ensures
        plain(Seq::<u8>::empty()),
        !plain(seq![b]),
        d.len() > 1 ==> (plain(d.push(b)) <==> plain(d) && b < 128),
{
    assert(d.push(b)[d.len() as int] == b);
    if plain(d.push(b)) {
        assert forall|j: int| 0 <= j < d.len() implies #[trigger] d[j] < 128 by {
            assert(d.push(b)[j] == d[j]);
        }
    }
}

/// Bytes are those of a text exactly where they are its characters, one by
/// one.
pub proof fn law_spells(s: Seq<u8>, t: Seq<char>, k: int)
    requires
        0 <= k < s.len(),
    ensures
        spells(s, t) ==> s.len() == t.len() && s[k] as int == t[k] as int,
        s.len() != t.len() || s[k] as int != t[k] as int ==> !spells(s, t),
{
    if s.len() == t.len() && s[k] as int != t[k] as int && spells(s, t) {
        assert(s[0 + k] as int == t[k] as int);
    }
    if spells(s, t) {
        assert(s[0 + k] as int == t[k] as int);
    }
}

/// Digits run over the edge of 256 bits where the digits in front of it stand
/// with a digit from 6 on behind them.
pub proof fn law_edge(d: Seq<u8>, k: int)
    requires
        0 <= k,
    ensures
        edge_at(d, k) <==> ({
            &&& k + 77 < d.len()
            &&& forall|j: int|
                0 <= j < 77 ==> d[k + j] as int == #[trigger]
                "11579208923731619542357098500868790785326998466564056403945758400791312963993"@[j] as int
            &&& '6' as int <= d[k + 77] as int <= '9' as int
        }),
        edge_at(d, k) ==> has_edge(d),
{
    felt::lemma_edge_len();
}

/// The least offset stands wherever `(-`, any number of zeros, and its digits
/// with a closing parenthesis do.
pub proof fn law_least(s: Seq<u8>, k: int, n: nat)
    requires
        0 <= k,
        k + 2 + n + 11 <= s.len(),
        s[k] as int == '(' as int,
        s[k + 1] as int == '-' as int,
        forall|j: int| k + 2 <= j < k + 2 + n ==> #[trigger] s[j] as int == '0' as int,
        forall|j: int|
            0 <= j < 11 ==> s[k + 2 + n + j] as int == #[trigger] "2147483648)"@[j] as int,
    ensures
        least_at(s, k),
        has_least(s),
{
    reveal_strlit("2147483648)");
    assert(s[k + 2 + n + 0] as int == "2147483648)"@[0] as int);
    lemma_zeros(s, k + 2, n);
    assert(zeros_end(s, k + 2) == k + 2 + n);
    assert(least_at(s, k) && 0 <= k < s.len());
}

proof fn lemma_zeros(s: Seq<u8>, i: int, n: nat)
    requires
        0 <= i,
        i + n < s.len(),
        forall|j: int| i <= j < i + n ==> #[trigger] s[j] == 48,
        s[i + n] != 48,
    ensures
        zeros_end(s, i) == i + n,
    decreases n,
{
    if n > 0 {
        lemma_zeros(s, i + 1, (n - 1) as nat);
    }
}

/// A place keeps the depth of the brackets around it, the kind of the first,
/// the key directly behind it, and whether the second is that of the words.
pub proof fn law_places(at: Place, square: bool, d: Seq<u8>)
    ensures
        at.opened(square).depth == at.depth + 1,
        at.depth > 0 ==> at.opened(square).list == at.list,
        at.depth == 0 ==> at.opened(square).list == square,
        at.depth != 1 ==> at.opened(square).words == at.words,
        at.depth == 1 ==> at.opened(square).words == (square && (at.list || spells(
            at.top,
            "data"@,
        ))),
        at.opened(square).top == at.top && at.opened(square).number == at.number,
        at.opened(square).closed().depth == at.depth,
        at.closed().list == at.list && at.closed().top == at.top && at.closed().words == at.words
            && at.closed().number == at.number,
        at.said(d).depth == at.depth && at.said(d).list == at.list && at.said(d).words == at.words,
        at.depth == 1 ==> at.said(d).top == d,
        at.depth != 1 ==> at.said(d).top == at.top,
        at.said(d).number == spells(d, "$serde_json::private::Number"@),
        start().depth == 0 && !start().list && start().top.len() == 0 && !start().words
            && !start().number,
{
}

/// A string is a hazard only as a word that is not plain, as a reference with
/// the least offset, or as a number over the edge among the identifiers.
pub proof fn law_hazards(at: Place, d: Seq<u8>)
    ensures
        !at.takes(d) <==> ({
            ||| at.depth == 2 && at.words && !plain(d)
            ||| at.depth >= 2 && (at.list || spells(at.top, "reference_manager"@)) && has_least(d)
            ||| at.depth >= 2 && (at.list || spells(at.top, "identifiers"@)) && at.number
                && has_edge(d)
        }),
        at.depth < 2 ==> at.takes(d),
{
}

/// A text is walked byte by byte and string by string.
pub proof fn law_walk(s: Seq<u8>, i: int, at: Place)
    requires
        0 <= i < s.len(),
    ensures
        s[i] as int == '[' as int ==> walks(s, i, at) == walks(s, i + 1, at.opened(true)),
        s[i] as int == '{' as int ==> walks(s, i, at) == walks(s, i + 1, at.opened(false)),
        s[i] as int == ']' as int || s[i] as int == '}' as int ==> walks(s, i, at) == walks(
            s,
            i + 1,
            at.closed(),
        ),
        s[i] as int == '"' as int ==> ({
            let end = string_end(s, i + 1);
            let d = decoded(s, i + 1, end - 1);
            walks(s, i, at) == (at.takes(d) && walks(s, end, at.said(d)))
        }),
        s[i] as int != '[' as int && s[i] as int != '{' as int && s[i] as int != ']' as int
            && s[i] as int != '}' as int && s[i] as int != '"' as int ==> walks(s, i, at) == (
        walks(s, i + 1, at) && !(at.under("identifiers"@) && edge_at(s, i))),
        walks(s, s.len() as int, at),
{
    lemma_string_end(s, i + 1);
}

/// Outside brackets nothing is a hazard: a text that opens none is readable.
pub proof fn law_flat_text_is_readable(s: Seq<u8>)
    requires
        s.len() <= i32::MAX,
        forall|i: int|
            0 <= i < s.len() ==> #[trigger] s[i] as int != '[' as int && s[i] as int != '{' as int,
    ensures
        readable(s),
{
    lemma_flat_walk(s, 0, start());
}

proof fn lemma_flat_walk(s: Seq<u8>, i: int, at: Place)
    requires
        0 <= i <= s.len(),
        at.depth == 0,
        forall|i: int|
            0 <= i < s.len() ==> #[trigger] s[i] as int != '[' as int && s[i] as int != '{' as int,
    ensures
        walks(s, i, at),
    decreases s.len() - i,
{
    if i < s.len() {
        if s[i] == 34 {
            lemma_string_end(s, i + 1);
            let end = string_end(s, i + 1);
            lemma_flat_walk(s, end, at.said(decoded(s, i + 1, end - 1)));
        } else if s[i] == 93 || s[i] == 125 {
            lemma_flat_walk(s, i + 1, at.closed());
        } else {
            lemma_flat_walk(s, i + 1, at);
        }
    }
}

} // verus!
