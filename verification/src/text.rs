//! Text as sequences of characters.

use vstd::prelude::*;
use vstd::string::StrSliceExecFns;
use vstd::string::StringExecFns;

verus! {

/// The characters of a text.
pub fn chars(s: &str) -> (r: Vec<char>)
    ensures
        r@ == s@,
{
    let mut r: Vec<char> = Vec::new();
    for c in it: s.chars()
        invariant
            r@ =~= it.seq().take(it.index() as int),
            it.seq() == s@,
    {
        r.push(c);
    }
    r
}

/// Two texts put together.
pub fn join2(a: &str, b: &str) -> (r: String)
    ensures
        r@ == a@ + b@,
{
    let mut r = String::from_str(a);
    r.append(b);
    r
}

/// Three texts put together.
pub fn join3(a: &str, b: &str, c: &str) -> (r: String)
    ensures
        r@ == a@ + b@ + c@,
{
    let mut r = String::from_str(a);
    r.append(b);
    r.append(c);
    r
}

/// The index of the first `c`, or the length where there is none.
pub open spec fn find(s: Seq<char>, c: char) -> nat
    decreases s.len(),
{
    if s.len() == 0 || s[0] == c {
        0
    } else {
        1 + find(s.skip(1), c)
    }
}

/// The index behind the last `c`, or zero where there is none.
pub open spec fn find_behind_last(s: Seq<char>, c: char) -> nat
    decreases s.len(),
{
    if s.len() == 0 || s.last() == c {
        s.len()
    } else {
        find_behind_last(s.drop_last(), c)
    }
}

/// The first line of a text, without its line ending: a line feed, alone or
/// behind a carriage return.
pub open spec fn first_line(s: Seq<char>) -> Seq<char> {
    let k = find(s, '\n') as int;
    if 0 < k < s.len() && s[k - 1] == '\r' {
        s.take(k - 1)
    } else {
        s.take(k)
    }
}

/// The text behind the first line and its line ending.
pub open spec fn rest_lines(s: Seq<char>) -> Seq<char> {
    let k = find(s, '\n') as int;
    if k < s.len() {
        s.skip(k + 1)
    } else {
        Seq::empty()
    }
}

/// The text behind the first line that equals `line`.
pub open spec fn behind_line(s: Seq<char>, line: Seq<char>) -> Option<Seq<char>>
    decreases s.len(),
{
    if s.len() == 0 {
        None
    } else if first_line(s) == line {
        Some(rest_lines(s))
    } else {
        proof {
            lemma_find(s, '\n');
        }
        behind_line(rest_lines(s), line)
    }
}

/// Whether a text begins with another.
pub open spec fn begins(s: Seq<char>, prefix: Seq<char>) -> bool {
    prefix.len() <= s.len() && s.take(prefix.len() as int) == prefix
}

/// A text without the copies of `prefix` at its beginning.
pub open spec fn trim_start(s: Seq<char>, prefix: Seq<char>) -> Seq<char>
    decreases s.len(),
{
    if prefix.len() > 0 && begins(s, prefix) {
        trim_start(s.skip(prefix.len() as int), prefix)
    } else {
        s
    }
}

/// A text without the characters `c` at its end.
pub open spec fn trim_end_char(s: Seq<char>, c: char) -> Seq<char>
    decreases s.len(),
{
    if s.len() > 0 && s.last() == c {
        trim_end_char(s.drop_last(), c)
    } else {
        s
    }
}

/// A text without the characters `c` at both its ends.
pub open spec fn trim_char(s: Seq<char>, c: char) -> Seq<char> {
    trim_end_char(trim_start(s, seq![c]), c)
}

/// How many bytes a character takes in UTF-8.
pub open spec fn utf8_width(c: char) -> nat {
    if (c as u32) < 0x80 {
        1
    } else if (c as u32) < 0x800 {
        2
    } else if (c as u32) < 0x1_0000 {
        3
    } else {
        4
    }
}

/// How many characters make up the first `n` bytes of a text; none where the
/// text is shorter or the cut would fall inside a character.
pub open spec fn byte_prefix(s: Seq<char>, n: nat) -> Option<nat>
    decreases s.len(),
{
    if n == 0 {
        Some(0)
    } else if s.len() == 0 || utf8_width(s[0]) > n {
        None
    } else {
        match byte_prefix(s.skip(1), (n - utf8_width(s[0])) as nat) {
            Some(k) => Some(k + 1),
            None => None,
        }
    }
}

/// The first `c` stands where it is found.
pub proof fn lemma_find(s: Seq<char>, c: char)
    ensures
        find(s, c) <= s.len(),
        find(s, c) < s.len() ==> s[find(s, c) as int] == c,
        forall|i: int| 0 <= i < find(s, c) ==> s[i] != c,
    decreases s.len(),
{
    if s.len() > 0 && s[0] != c {
        let t = s.skip(1);
        lemma_find(t, c);
        assert forall|i: int| 0 <= i < find(s, c) implies s[i] != c by {
            if i > 0 {
                assert(t[i - 1] == s[i]);
            }
        }
    }
}

/// The first `c` is where nothing before it is one.
pub proof fn lemma_find_at(s: Seq<char>, c: char, k: int)
    requires
        0 <= k <= s.len(),
        forall|i: int| 0 <= i < k ==> s[i] != c,
        k < s.len() ==> s[k] == c,
    ensures
        find(s, c) == k,
{
    lemma_find(s, c);
}

/// The index of the first `c` in `text[from..to]`, or `to`.
pub fn position(text: &Vec<char>, from: usize, to: usize, c: char) -> (r: usize)
    requires
        from <= to <= text@.len(),
    ensures
        from <= r <= to,
        r == from + find(text@.subrange(from as int, to as int), c),
{
    let mut i: usize = from;
    while i < to && text[i] != c
        invariant
            from <= i <= to <= text@.len(),
            forall|k: int| from <= k < i ==> text@[k] != c,
        decreases to - i,
    {
        i += 1;
    }
    proof {
        lemma_find_at(text@.subrange(from as int, to as int), c, i - from);
    }
    i
}

/// The index behind the last `c` in `text[from..to]`, or `from`.
pub fn position_behind_last(text: &Vec<char>, from: usize, to: usize, c: char) -> (r: usize)
    requires
        from <= to <= text@.len(),
    ensures
        from <= r <= to,
        r == from + find_behind_last(text@.subrange(from as int, to as int), c),
{
    let mut i: usize = to;
    let ghost s = text@.subrange(from as int, to as int);
    assert(s.take(i - from) =~= s);
    while i > from && text[i - 1] != c
        invariant
            from <= i <= to <= text@.len(),
            s == text@.subrange(from as int, to as int),
            find_behind_last(s, c) == find_behind_last(s.take(i - from), c),
        decreases i - from,
    {
        proof {
            let t = s.take(i - from);
            assert(t.last() == text@[i - 1]);
            assert(t.drop_last() =~= s.take(i - 1 - from));
        }
        i -= 1;
    }
    proof {
        let t = s.take(i - from);
        if i > from {
            assert(t.last() == text@[i - 1]);
        }
    }
    i
}

/// Whether `text[from..to]` begins with `prefix`.
pub fn begins_at(text: &Vec<char>, from: usize, to: usize, prefix: &Vec<char>) -> (r: bool)
    requires
        from <= to <= text@.len(),
    ensures
        r == begins(text@.subrange(from as int, to as int), prefix@),
{
    if prefix.len() > to - from {
        return false;
    }
    let ghost s = text@.subrange(from as int, to as int);
    let mut i: usize = 0;
    while i < prefix.len()
        invariant
            i <= prefix@.len() <= to - from,
            from <= to <= text@.len(),
            s == text@.subrange(from as int, to as int),
            forall|k: int| 0 <= k < i ==> s[k] == prefix@[k],
        decreases prefix@.len() - i,
    {
        if text[from + i] != prefix[i] {
            assert(s.take(prefix@.len() as int)[i as int] != prefix@[i as int]);
            return false;
        }
        i += 1;
    }
    assert(s.take(prefix@.len() as int) =~= prefix@);
    true
}

/// Where `text[from..to]` begins once the copies of `prefix` are gone.
pub fn skip_prefix(text: &Vec<char>, from: usize, to: usize, prefix: &Vec<char>) -> (r: usize)
    requires
        from <= to <= text@.len(),
        prefix@.len() > 0,
    ensures
        from <= r <= to,
        text@.subrange(r as int, to as int) == trim_start(
            text@.subrange(from as int, to as int),
            prefix@,
        ),
{
    let mut i: usize = from;
    while begins_at(text, i, to, prefix)
        invariant
            from <= i <= to <= text@.len(),
            prefix@.len() > 0,
            trim_start(text@.subrange(from as int, to as int), prefix@) == trim_start(
                text@.subrange(i as int, to as int),
                prefix@,
            ),
        decreases to - i,
    {
        proof {
            let s = text@.subrange(i as int, to as int);
            assert(s.skip(prefix@.len() as int) =~= text@.subrange(
                i + prefix@.len(),
                to as int,
            ));
        }
        i += prefix.len();
    }
    i
}

/// Where `text[from..to]` ends once the characters `c` at its end are gone.
pub fn drop_suffix_char(text: &Vec<char>, from: usize, to: usize, c: char) -> (r: usize)
    requires
        from <= to <= text@.len(),
    ensures
        from <= r <= to,
        text@.subrange(from as int, r as int) == trim_end_char(
            text@.subrange(from as int, to as int),
            c,
        ),
{
    let mut i: usize = to;
    while i > from && text[i - 1] == c
        invariant
            from <= i <= to <= text@.len(),
            trim_end_char(text@.subrange(from as int, to as int), c) == trim_end_char(
                text@.subrange(from as int, i as int),
                c,
            ),
        decreases i - from,
    {
        proof {
            let s = text@.subrange(from as int, i as int);
            assert(s.last() == text@[i - 1]);
            assert(s.drop_last() =~= text@.subrange(from as int, i - 1));
        }
        i -= 1;
    }
    proof {
        let s = text@.subrange(from as int, i as int);
        if i > from {
            assert(s.last() == text@[i - 1]);
        }
    }
    i
}

/// How many bytes a character takes in UTF-8.
fn width(c: char) -> (r: usize)
    ensures
        r == utf8_width(c),
{
    let n: u32 = c as u32;
    if n < 0x80 {
        1
    } else if n < 0x800 {
        2
    } else if n < 0x1_0000 {
        3
    } else {
        4
    }
}

/// Where the first `n` bytes of `text[from..to]` end.
pub fn byte_cut(text: &Vec<char>, from: usize, to: usize, n: usize) -> (r: Option<usize>)
    requires
        from <= to <= text@.len(),
    ensures
        match (r, byte_prefix(text@.subrange(from as int, to as int), n as nat)) {
            (Some(end), Some(k)) => end == from + k && end <= to,
            (None, None) => true,
            _ => false,
        },
    decreases to - from,
{
    if n == 0 {
        return Some(from);
    }
    if from == to {
        return None;
    }
    let w = width(text[from]);
    if w > n {
        return None;
    }
    assert(text@.subrange(from as int, to as int).skip(1) =~= text@.subrange(from + 1, to as int));
    byte_cut(text, from + 1, to, n - w)
}

/// Where the line that begins at `from` ends, and where the next one begins.
pub fn line_at(text: &Vec<char>, from: usize) -> (r: (usize, usize))
    requires
        from < text@.len(),
    ensures
        from <= r.0 <= r.1 <= text@.len(),
        from < r.1,
        text@.subrange(from as int, r.0 as int) == first_line(text@.skip(from as int)),
        text@.skip(r.1 as int) == rest_lines(text@.skip(from as int)),
{
    let end = position(text, from, text.len(), '\n');
    let ghost s = text@.skip(from as int);
    assert(text@.subrange(from as int, text@.len() as int) =~= s);
    let stop: usize = if from < end && end < text.len() && text[end - 1] == '\r' {
        end - 1
    } else {
        end
    };
    let next: usize = if end < text.len() {
        end + 1
    } else {
        end
    };
    proof {
        let k = find(s, '\n') as int;
        assert(text@.subrange(from as int, stop as int) =~= first_line(s));
        assert(text@.skip(next as int) =~= rest_lines(s));
    }
    (stop, next)
}

/// Where the text behind the first line that equals `line` begins.
pub fn seek_behind_line(text: &Vec<char>, line: &Vec<char>) -> (r: Option<usize>)
    ensures
        match (r, behind_line(text@, line@)) {
            (Some(i), Some(s)) => i <= text@.len() && text@.skip(i as int) == s,
            (None, None) => true,
            _ => false,
        },
{
    let mut i: usize = 0;
    assert(text@.skip(0) =~= text@);
    while i < text.len()
        invariant
            i <= text@.len(),
            behind_line(text@, line@) == behind_line(text@.skip(i as int), line@),
        decreases text@.len() - i,
    {
        let (end, next) = line_at(text, i);
        let ghost s = text@.subrange(i as int, end as int);
        if end - i == line.len() && begins_at(text, i, end, line) {
            assert(s.take(line@.len() as int) =~= s);
            return Some(next);
        }
        proof {
            if s == line@ {
                assert(s.take(line@.len() as int) =~= s);
            }
        }
        i = next;
    }
    None
}

/// The index of the first occurrence of `pattern`.
pub open spec fn find_text(s: Seq<char>, pattern: Seq<char>) -> Option<nat>
    decreases s.len(),
{
    if begins(s, pattern) {
        Some(0)
    } else if s.len() == 0 {
        None
    } else {
        match find_text(s.skip(1), pattern) {
            Some(k) => Some(k + 1),
            None => None,
        }
    }
}

/// Where `pattern` first occurs in `text[from..to]`.
pub fn search(text: &Vec<char>, from: usize, to: usize, pattern: &Vec<char>) -> (r: Option<usize>)
    requires
        from <= to <= text@.len(),
    ensures
        match (r, find_text(text@.subrange(from as int, to as int), pattern@)) {
            (Some(i), Some(k)) => i == from + k && i + pattern@.len() <= to,
            (None, None) => true,
            _ => false,
        },
{
    let mut i: usize = from;
    let ghost s = text@.subrange(from as int, to as int);
    assert(s.skip(0) =~= s);
    while !begins_at(text, i, to, pattern)
        invariant
            from <= i <= to <= text@.len(),
            s == text@.subrange(from as int, to as int),
            match (
                find_text(s, pattern@),
                find_text(text@.subrange(i as int, to as int), pattern@),
            ) {
                (Some(a), Some(b)) => a == b + (i - from),
                (None, None) => true,
                _ => false,
            },
        decreases to - i,
    {
        if i == to {
            return None;
        }
        assert(text@.subrange(i as int, to as int).skip(1) =~= text@.subrange(i + 1, to as int));
        i += 1;
    }
    Some(i)
}

/// Whether two texts are equal.
pub fn same(a: &str, b: &str) -> (r: bool)
    ensures
        r == (a@ == b@),
{
    let x = chars(a);
    let y = chars(b);
    if x.len() != y.len() {
        return false;
    }
    let r = begins_at(&x, 0, x.len(), &y);
    assert(x@.subrange(0, x@.len() as int) =~= x@);
    assert(x@.take(y@.len() as int) =~= x@);
    r
}

/// A text holds `part` with `before` right before it and `after` right behind.
pub open spec fn stands_between(
    s: Seq<char>,
    before: Seq<char>,
    part: Seq<char>,
    after: Seq<char>,
) -> bool {
    exists|a: Seq<char>, b: Seq<char>| s == #[trigger] (a + before + part + after + b)
}

/// What a text ends on stands in it.
pub broadcast proof fn lemma_stands_at_end(
    a: Seq<char>,
    before: Seq<char>,
    part: Seq<char>,
    after: Seq<char>,
)
    ensures
        #[trigger] stands_between(a + before + part + after, before, part, after),
{
    assert(a + before + part + after =~= a + before + part + after + Seq::<char>::empty());
}

/// What stands in a text stands in a longer one.
pub broadcast proof fn lemma_stands_earlier(
    s: Seq<char>,
    tail: Seq<char>,
    before: Seq<char>,
    part: Seq<char>,
    after: Seq<char>,
)
    requires
        stands_between(s, before, part, after),
    ensures
        #[trigger] stands_between(s + tail, before, part, after),
{
    let (a, b) = choose|a: Seq<char>, b: Seq<char>|
        s == #[trigger] (a + before + part + after + b);
    assert(s + tail =~= a + before + part + after + (b + tail));
}

/// Behind the last `c` there is none, and right before that place stands one
/// where there is one at all.
pub proof fn law_find_behind_last(s: Seq<char>, c: char)
    ensures
        find_behind_last(s, c) <= s.len(),
        find_behind_last(s, c) > 0 ==> s[find_behind_last(s, c) - 1] == c,
        forall|i: int| find_behind_last(s, c) <= i < s.len() ==> #[trigger] s[i] != c,
    decreases s.len(),
{
    if s.len() > 0 && s.last() != c {
        law_find_behind_last(s.drop_last(), c);
        assert forall|i: int| find_behind_last(s, c) <= i < s.len() implies #[trigger] s[i] != c by {
            if i < s.len() - 1 {
                assert(s.drop_last()[i] == s[i]);
            }
        }
    }
}

/// A text is cut at its first line feed: what stands before it is the first
/// line, less one carriage return at its end, and what stands behind it is
/// the rest. A text without a line feed is one line.
pub proof fn law_first_line_is_cut_off(line: Seq<char>, rest: Seq<char>)
    requires
        !line.contains('\n'),
    ensures
        rest_lines(line + seq!['\n'] + rest) == rest,
        line.len() == 0 || line.last() != '\r' ==> first_line(line + seq!['\n'] + rest) == line,
        line.len() > 0 && line.last() == '\r' ==> first_line(line + seq!['\n'] + rest)
            == line.drop_last(),
        first_line(line) == line,
        rest_lines(line).len() == 0,
{
    let s = line + seq!['\n'] + rest;
    lemma_find_at(s, '\n', line.len() as int);
    lemma_find_at(line, '\n', line.len() as int);
    assert(s.skip(line.len() + 1int) =~= rest);
    assert(s.take(line.len() as int) =~= line);
    assert(line.take(line.len() as int) =~= line);
    if line.len() > 0 {
        assert(s.take(line.len() - 1) =~= line.drop_last());
    }
}

/// A line is sought from the front: a text that starts with it has it there,
/// whatever the line ending, and a first line that differs is passed over.
pub proof fn law_line_is_sought(first: Seq<char>, rest: Seq<char>, line: Seq<char>)
    requires
        !first.contains('\n'),
    ensures
        ({
            let plain = first + seq!['\n'] + rest;
            let carried = first + seq!['\r'] + seq!['\n'] + rest;
            &&& first == line && (line.len() == 0 || line.last() != '\r') ==> behind_line(
                plain,
                line,
            ) == Some(rest)
            &&& first == line ==> behind_line(carried, line) == Some(rest)
            &&& first != line ==> behind_line(carried, line) == behind_line(rest, line)
            &&& first != line && (first.len() == 0 || first.last() != '\r') ==> behind_line(
                plain,
                line,
            ) == behind_line(rest, line)
        }),
        behind_line(Seq::<char>::empty(), line) is None,
{
    law_first_line_is_cut_off(first, rest);
    law_first_line_is_cut_off(first + seq!['\r'], rest);
    assert((first + seq!['\r']).drop_last() =~= first);
    assert(!(first + seq!['\r']).contains('\n'));
}

/// A text begins with another exactly where it is that text with something
/// behind it.
pub proof fn law_begins(prefix: Seq<char>, rest: Seq<char>, s: Seq<char>)
    ensures
        begins(prefix + rest, prefix),
        begins(s, prefix) ==> s == prefix + s.skip(prefix.len() as int),
{
    assert((prefix + rest).take(prefix.len() as int) =~= prefix);
    if begins(s, prefix) {
        assert(s =~= prefix + s.skip(prefix.len() as int));
    }
}

/// Every copy of a prefix is taken off a text's beginning, and nothing else.
pub proof fn law_trim_start(prefix: Seq<char>, s: Seq<char>)
    ensures
        prefix.len() > 0 ==> trim_start(prefix + s, prefix) == trim_start(s, prefix),
        s.len() < prefix.len() || s.take(prefix.len() as int) != prefix ==> trim_start(s, prefix)
            == s,
        trim_start(s, Seq::<char>::empty()) == s,
{
    assert((prefix + s).take(prefix.len() as int) =~= prefix);
    assert((prefix + s).skip(prefix.len() as int) =~= s);
}

/// Every `c` is taken off a text's two ends, and nothing else.
pub proof fn law_trim_char(s: Seq<char>, c: char)
    ensures
        trim_char(seq![c] + s, c) == trim_char(s, c),
        s.len() > 0 && s[0] != c ==> trim_char(s.push(c), c) == trim_char(s, c),
        s.len() > 0 && s[0] != c && s.last() != c ==> trim_char(s, c) == s,
        trim_char(Seq::<char>::empty(), c).len() == 0,
        trim_end_char(s.push(c), c) == trim_end_char(s, c),
        s.len() > 0 && s.last() != c ==> trim_end_char(s, c) == s,
{
    law_trim_start(seq![c], s);
    law_trim_start(seq![c], s.push(c));
    law_trim_start(seq![c], Seq::<char>::empty());
    assert(s.push(c).drop_last() =~= s);
    assert(seq![c][0] == c);
    if s.len() > 0 && s[0] != c {
        assert(s.take(1)[0] == s[0]);
        assert(s.push(c).take(1)[0] == s[0]);
    }
}

/// A character's width is the length of its UTF-8 encoding.
pub proof fn law_utf8_width(c: char)
    ensures
        utf8_width(c) == vstd::utf8::encode_utf8(seq![c]).len(),
{
    lemma_encoding_grows(seq![c]);
    assert(seq![c].skip(1) =~= Seq::<char>::empty());
}

proof fn lemma_encoding_grows(s: Seq<char>)
    requires
        s.len() > 0,
    ensures
        vstd::utf8::encode_utf8(s).len() == utf8_width(s[0]) + vstd::utf8::encode_utf8(
            s.skip(1),
        ).len(),
        vstd::utf8::encode_utf8(Seq::<char>::empty()).len() == 0,
{
    assert(s.drop_first() =~= s.skip(1));
    vstd::utf8::char_is_scalar(s[0]);
}

/// A cut behind so many bytes falls behind the characters whose UTF-8
/// encoding is that long, and there is none exactly where no number of
/// characters is.
pub proof fn law_byte_prefix(s: Seq<char>, n: nat)
    ensures
        match byte_prefix(s, n) {
            Some(k) => k <= s.len() && vstd::utf8::encode_utf8(s.take(k as int)).len() == n,
            None => forall|k: int|
                0 <= k <= s.len() ==> #[trigger] vstd::utf8::encode_utf8(s.take(k)).len() != n,
        },
    decreases s.len(),
{
    if n == 0 {
        assert(s.take(0) =~= Seq::<char>::empty());
    } else if s.len() == 0 {
        assert(s.take(0) =~= Seq::<char>::empty());
    } else {
        let w = utf8_width(s[0]);
        lemma_encoding_grows(s);
        if w <= n {
            law_byte_prefix(s.skip(1), (n - w) as nat);
        }
        match byte_prefix(s, n) {
            Some(k) => {
                lemma_encoding_grows(s.take(k as int));
                assert(s.take(k as int).skip(1) =~= s.skip(1).take(k - 1));
            },
            None => {
                assert forall|k: int| 0 <= k <= s.len() implies #[trigger] vstd::utf8::encode_utf8(
                    s.take(k),
                ).len() != n by {
                    if k == 0 {
                        assert(s.take(0) =~= Seq::<char>::empty());
                    } else {
                        lemma_encoding_grows(s.take(k));
                        assert(s.take(k).skip(1) =~= s.skip(1).take(k - 1));
                    }
                }
            },
        }
    }
}

/// A pattern is found at the first place where it stands, and not found
/// exactly where it stands nowhere.
pub proof fn law_find_text(s: Seq<char>, pattern: Seq<char>)
    ensures
        match find_text(s, pattern) {
            Some(k) => {
                &&& k + pattern.len() <= s.len()
                &&& s.subrange(k as int, (k + pattern.len()) as int) == pattern
                &&& forall|j: int|
                    0 <= j < k ==> #[trigger] s.subrange(j, j + pattern.len()) != pattern
            },
            None => forall|j: int|
                0 <= j && j + pattern.len() <= s.len() ==> #[trigger] s.subrange(
                    j,
                    j + pattern.len(),
                ) != pattern,
        },
    decreases s.len(),
{
    let n = pattern.len() as int;
    assert(n <= s.len() ==> s.subrange(0, n) =~= s.take(n));
    if !begins(s, pattern) && s.len() > 0 {
        let t = s.skip(1);
        law_find_text(t, pattern);
        match find_text(t, pattern) {
            Some(k) => {
                assert(t.subrange(k as int, k + n) =~= s.subrange(k + 1int, k + 1 + n));
                assert forall|j: int| 0 <= j < k + 1 implies #[trigger] s.subrange(j, j + n)
                    != pattern by {
                    if j > 0 {
                        assert(t.subrange(j - 1, j - 1 + n) =~= s.subrange(j, j + n));
                    }
                }
            },
            None => {
                assert forall|j: int| 0 <= j && j + n <= s.len() implies #[trigger] s.subrange(
                    j,
                    j + n,
                ) != pattern by {
                    if j > 0 {
                        assert(t.subrange(j - 1, j - 1 + n) =~= s.subrange(j, j + n));
                    }
                }
            },
        }
    }
}

/// What is put between the same two texts is told apart there.
pub proof fn lemma_held_apart(before: Seq<char>, a: Seq<char>, b: Seq<char>, after: Seq<char>)
    ensures
        before + a + after == before + b + after ==> a == b,
{
    let (x, y) = (before + a + after, before + b + after);
    if x == y {
        let n = before.len() as int;
        assert(x.subrange(n, x.len() - after.len()) =~= a);
        assert(y.subrange(n, y.len() - after.len()) =~= b);
    }
}

} // verus!
