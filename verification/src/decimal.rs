//! Numbers in decimal.

use vstd::prelude::*;
use vstd::string::StringExecFns;

verus! {

/// Whether a character is a decimal digit.
pub open spec fn is_digit(c: char) -> bool {
    '0' <= c <= '9'
}

/// The number that decimal digits denote.
pub open spec fn dec_value(s: Seq<char>) -> nat
    decreases s.len(),
{
    if s.len() == 0 {
        0
    } else {
        (10 * dec_value(s.drop_last()) + (s.last() as int - '0' as int)) as nat
    }
}

/// The digit of a number below ten.
pub open spec fn digit_of(n: nat) -> char {
    (('0' as nat) + n) as char
}

/// The decimal text of a number.
pub open spec fn dec_text(n: nat) -> Seq<char>
    decreases n,
{
    if n < 10 {
        seq![digit_of(n)]
    } else {
        dec_text(n / 10).push(digit_of(n % 10))
    }
}

/// The decimal text of a number is made of digits, denotes the number, and
/// has no leading zero but for zero itself.
pub proof fn law_dec_text(n: nat)
    ensures
        dec_text(n).len() > 0,
        forall|i: int| 0 <= i < dec_text(n).len() ==> is_digit(#[trigger] dec_text(n)[i]),
        dec_value(dec_text(n)) == n,
        dec_text(n)[0] == '0' ==> n == 0,
    decreases n,
{
    if n < 10 {
        let s = dec_text(n);
        assert(s.drop_last() =~= Seq::<char>::empty());
        reveal_with_fuel(dec_value, 2);
    } else {
        law_dec_text(n / 10);
        assert(dec_text(n).drop_last() =~= dec_text(n / 10));
    }
}

/// The text of a digit.
fn digit(n: u64) -> (r: &'static str)
    requires
        n < 10,
    ensures
        r@ == seq![digit_of(n as nat)],
{
    proof {
        reveal_strlit("0");
        reveal_strlit("1");
        reveal_strlit("2");
        reveal_strlit("3");
        reveal_strlit("4");
        reveal_strlit("5");
        reveal_strlit("6");
        reveal_strlit("7");
        reveal_strlit("8");
        reveal_strlit("9");
    }
    let r = match n {
        0 => "0",
        1 => "1",
        2 => "2",
        3 => "3",
        4 => "4",
        5 => "5",
        6 => "6",
        7 => "7",
        8 => "8",
        _ => "9",
    };
    assert(r@ =~= seq![digit_of(n as nat)]);
    r
}

/// The decimal text of a number.
pub fn decimal(n: u64) -> (r: String)
    ensures
        r@ == dec_text(n as nat),
    decreases n,
{
    if n < 10 {
        return String::from_str(digit(n));
    }
    let mut r = decimal(n / 10);
    r.append(digit(n % 10));
    assert(r@ =~= dec_text(n as nat));
    r
}

/// A text moved right in a column of a given width.
pub open spec fn right(s: Seq<char>, width: nat) -> Seq<char> {
    if s.len() < width {
        Seq::new((width - s.len()) as nat, |i: int| ' ') + s
    } else {
        s
    }
}

/// A text moved left in a column of a given width.
pub open spec fn left(s: Seq<char>, width: nat) -> Seq<char> {
    if s.len() < width {
        s + Seq::new((width - s.len()) as nat, |i: int| ' ')
    } else {
        s
    }
}

/// The number of characters of a text, counted up to `max`.
fn length_up_to(s: &str, max: usize) -> (r: usize)
    ensures
        r == if s@.len() < max {
            s@.len()
        } else {
            max as nat
        },
{
    let mut n: usize = 0;
    for c in it: s.chars()
        invariant
            it.seq() == s@,
            n == if it.index() < max {
                it.index() as int
            } else {
                max as int
            },
    {
        if n < max {
            n += 1;
        }
    }
    n
}

/// So many spaces behind a text.
fn put_spaces(r: &mut String, n: usize)
    ensures
        final(r)@ == old(r)@ + Seq::new(n as nat, |i: int| ' '),
{
    let ghost before = r@;
    let mut i: usize = 0;
    assert(before =~= before + Seq::new(0, |i: int| ' '));
    while i < n
        invariant
            i <= n,
            r@ =~= before + Seq::new(i as nat, |i: int| ' '),
        decreases n - i,
    {
        proof {
            reveal_strlit(" ");
        }
        r.append(" ");
        i += 1;
    }
}

/// Adds a text, moved right in a column of a given width.
pub fn put_right(r: &mut String, s: &str, width: usize)
    ensures
        final(r)@ == old(r)@ + right(s@, width as nat),
{
    let n = length_up_to(s, width);
    put_spaces(r, width - n);
    r.append(s);
    assert(r@ =~= old(r)@ + right(s@, width as nat));
}

/// Adds a text, moved left in a column of a given width.
pub fn put_left(r: &mut String, s: &str, width: usize)
    ensures
        final(r)@ == old(r)@ + left(s@, width as nat),
{
    let n = length_up_to(s, width);
    r.append(s);
    put_spaces(r, width - n);
    assert(r@ =~= old(r)@ + left(s@, width as nat));
}

/// Adds the decimal text of a number.
pub fn put_number(r: &mut String, n: u64)
    ensures
        final(r)@ == old(r)@ + dec_text(n as nat),
{
    let s = decimal(n);
    r.append(s.as_str());
}

/// A line of a table: a number in eight columns and what it counts.
pub open spec fn row(n: nat, label: Seq<char>) -> Seq<char> {
    right(dec_text(n), 8) + "  "@ + label
}

/// A line of a table.
pub fn table_row(n: u64, label: &str) -> (r: String)
    ensures
        r@ == row(n as nat, label@),
{
    let s = decimal(n);
    let mut r = String::new();
    put_right(&mut r, s.as_str(), 8);
    r.append("  ");
    r.append(label);
    assert(r@ =~= row(n as nat, label@));
    r
}

/// The lines of a table.
pub fn table(rows: &Vec<(&'static str, usize)>) -> (r: Vec<String>)
    ensures
        r@.len() == rows@.len(),
        forall|i: int|
            0 <= i < r@.len() ==> (#[trigger] r@[i])@ == row(rows@[i].1 as nat, rows@[i].0@),
{
    let mut r: Vec<String> = Vec::new();
    while r.len() < rows.len()
        invariant
            r@.len() <= rows@.len(),
            forall|i: int|
                0 <= i < r@.len() ==> (#[trigger] r@[i])@ == row(rows@[i].1 as nat, rows@[i].0@),
        decreases rows@.len() - r@.len(),
    {
        let (label, n) = rows[r.len()];
        r.push(table_row(n as u64, label));
    }
    r
}

/// A further digit makes ten times the number and the digit more.
pub proof fn law_dec_value_grows(s: Seq<char>, c: char)
    requires
        '0' <= c <= '9',
    ensures
        dec_value(s.push(c)) == 10 * dec_value(s) + (c as int - 48),
        dec_value(Seq::<char>::empty()) == 0,
        dec_value(seq![c]) == c as int - 48,
        is_digit(c),
{
    assert(s.push(c).drop_last() =~= s);
    assert(seq![c].drop_last() =~= Seq::<char>::empty());
}

/// Only the ten characters from `0` to `9` are digits, and each is that of
/// its distance from `0`.
pub proof fn law_digits(c: char)
    ensures
        is_digit(c) <==> 48 <= c as int <= 57,
        is_digit(c) ==> dec_text((c as int - 48) as nat) == seq![c],
{
}

/// A text in a column keeps its characters, with spaces on one side of it
/// and only as many as the column is wider.
pub proof fn law_columns(s: Seq<char>, width: nat)
    ensures
        ({
            let (r, l) = (right(s, width), left(s, width));
            let n = if s.len() < width {
                width
            } else {
                s.len()
            };
            &&& r.len() == n && l.len() == n
            &&& r.skip(n - s.len()) == s
            &&& l.take(s.len() as int) == s
            &&& forall|i: int| 0 <= i < n - s.len() ==> #[trigger] r[i] == ' '
            &&& forall|i: int| s.len() <= i < n ==> #[trigger] l[i] == ' '
        }),
{
    let n = if s.len() < width {
        width
    } else {
        s.len()
    };
    assert(right(s, width).skip(n - s.len()) =~= s);
    assert(left(s, width).take(s.len() as int) =~= s);
}

/// A line of a table ends on what is counted; two spaces before it stands
/// the whole number, which fills eight columns from the right.
pub proof fn law_row(n: nat, label: Seq<char>)
    ensures
        ({
            let (r, d) = (row(n, label), dec_text(n));
            let k = r.len() - label.len();
            &&& k == 2 + if d.len() < 8 {
                8
            } else {
                d.len() as int
            }
            &&& r.skip(k) == label
            &&& r[k - 1] == ' ' && r[k - 2] == ' '
            &&& r.subrange(k - 2 - d.len(), k - 2) == d
            &&& forall|i: int| 0 <= i < k - 2 - d.len() ==> #[trigger] r[i] == ' '
        }),
{
    reveal_strlit("  ");
    let (r, d) = (row(n, label), dec_text(n));
    law_columns(d, 8);
    let k = r.len() - label.len();
    assert(r.skip(k) =~= label);
    assert(r.subrange(k - 2 - d.len(), k - 2) =~= right(d, 8).skip(k - 2 - d.len()));
}

} // verus!
