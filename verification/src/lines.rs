//! The lines that measurements are shown in.

use vstd::prelude::*;
use vstd::string::StringExecFns;

use crate::decimal;
use crate::gadget::Gadget;
use crate::text;

verus! {

/// How a field operation's count splits into the hash's share and the rest.
pub open spec fn measured_text(
    field: Seq<char>,
    op: Seq<char>,
    total: u64,
    in_hash: u64,
    residual: u64,
) -> Seq<char> {
    field + " "@ + op + ": "@ + decimal::dec_text(total as nat) + " measured = "@
        + decimal::dec_text(in_hash as nat) + " in hash suite + "@ + decimal::dec_text(
        residual as nat,
    ) + " residual"@
}

/// How a field operation's count splits into the hash's share and the rest.
pub fn measured(field: &str, op: &str, total: u64, in_hash: u64, residual: u64) -> (r: String)
    ensures
        r@ == measured_text(field@, op@, total, in_hash, residual),
{
    let mut r = String::from_str(field);
    r.append(" ");
    r.append(op);
    r.append(": ");
    decimal::put_number(&mut r, total);
    r.append(" measured = ");
    decimal::put_number(&mut r, in_hash);
    r.append(" in hash suite + ");
    decimal::put_number(&mut r, residual);
    r.append(" residual");
    r
}

/// The size of a proof, and where it was written to.
pub open spec fn written_text(bytes: usize, out: Seq<char>) -> Seq<char> {
    decimal::row(bytes as nat, "proof without public inputs (written to "@ + out + ")"@)
}

/// The size of a proof, and where it was written to.
pub fn written(bytes: usize, out: &str) -> (r: String)
    ensures
        r@ == written_text(bytes, out@),
{
    let mut label = String::from_str("proof without public inputs (written to ");
    label.append(out);
    label.append(")");
    decimal::table_row(bytes as u64, label.as_str())
}

/// A gadget's counts behind its name.
pub open spec fn gadget_text(name: Seq<char>, g: Gadget) -> Seq<char> {
    decimal::left(name, 40) + " nonfree "@ + decimal::right(
        decimal::dec_text(g.nonfree as nat),
        13,
    ) + "  xor "@ + decimal::right(decimal::dec_text(g.xor as nat), 13) + "  total "@
        + decimal::right(decimal::dec_text(g.total as nat), 13)
}

/// A gadget's counts behind its name.
pub fn gadget(name: &str, g: Gadget) -> (r: String)
    ensures
        r@ == gadget_text(name@, g),
{
    let (nonfree, xor, total) = (
        decimal::decimal(g.nonfree),
        decimal::decimal(g.xor),
        decimal::decimal(g.total),
    );
    let mut r = String::new();
    decimal::put_left(&mut r, name, 40);
    assert(r@ =~= decimal::left(name@, 40));
    r.append(" nonfree ");
    decimal::put_right(&mut r, nonfree.as_str(), 13);
    r.append("  xor ");
    decimal::put_right(&mut r, xor.as_str(), 13);
    r.append("  total ");
    decimal::put_right(&mut r, total.as_str(), 13);
    r
}

/// A split count is shown behind its field and operation: the whole, the
/// hash's share and the rest, each before the words that say which it is.
pub proof fn law_measured_text(
    field: Seq<char>,
    op: Seq<char>,
    total: u64,
    in_hash: u64,
    residual: u64,
)
    ensures
        ({
            let s = measured_text(field, op, total, in_hash, residual);
            let (t, h, r) = (
                decimal::dec_text(total as nat),
                decimal::dec_text(in_hash as nat),
                decimal::dec_text(residual as nat),
            );
            &&& s.take(field.len() as int) == field
            &&& text::stands_between(s, " "@, op, ": "@)
            &&& text::stands_between(s, ": "@, t, " measured = "@)
            &&& text::stands_between(s, " measured = "@, h, " in hash suite + "@)
            &&& text::stands_between(s, " in hash suite + "@, r, " residual"@)
            &&& s.len() == field.len() + op.len() + t.len() + h.len() + r.len() + " "@.len()
                + ": "@.len() + " measured = "@.len() + " in hash suite + "@.len()
                + " residual"@.len()
        }),
{
    broadcast use {text::lemma_stands_at_end, text::lemma_stands_earlier};

    let s = measured_text(field, op, total, in_hash, residual);
    assert(s.take(field.len() as int) =~= field);
}

/// The size of a proof stands in its columns, and the whole name of the file
/// in parentheses.
pub proof fn law_written_text(bytes: usize, out: Seq<char>)
    ensures
        ({
            let (s, d) = (written_text(bytes, out), decimal::dec_text(bytes as nat));
            let label = "proof without public inputs (written to "@.len() + out.len() + ")"@.len();
            let k = s.len() - label;
            &&& text::stands_between(s, "proof without public inputs (written to "@, out, ")"@)
            &&& k == 2 + if d.len() < 8 {
                8
            } else {
                d.len() as int
            }
            &&& s.subrange(k - 2 - d.len(), k - 2) == d
            &&& forall|i: int| 0 <= i < k - 2 - d.len() ==> #[trigger] s[i] == ' '
        }),
{
    let label = "proof without public inputs (written to "@ + out + ")"@;
    let s = written_text(bytes, out);
    decimal::law_row(bytes as nat, label);
    let k = s.len() - label.len();
    assert(s =~= s.take(k) + "proof without public inputs (written to "@ + out + ")"@) by {
        assert(s =~= s.take(k) + s.skip(k));
    }
    text::lemma_stands_at_end(
        s.take(k),
        "proof without public inputs (written to "@,
        out,
        ")"@,
    );
}

/// A gadget's name leads its line, and each of its counts stands at the right
/// of thirteen columns behind the word for it.
pub proof fn law_gadget_text(name: Seq<char>, g: Gadget)
    ensures
        ({
            let s = gadget_text(name, g);
            let (n, x, t) = (
                decimal::right(decimal::dec_text(g.nonfree as nat), 13),
                decimal::right(decimal::dec_text(g.xor as nat), 13),
                decimal::right(decimal::dec_text(g.total as nat), 13),
            );
            &&& name.len() <= s.len() && s.take(name.len() as int) == name
            &&& forall|i: int| name.len() <= i < 40 ==> #[trigger] s[i] == ' '
            &&& text::stands_between(s, " nonfree "@, n, "  xor "@)
            &&& text::stands_between(s, "  xor "@, x, "  total "@)
            &&& s.skip(s.len() - t.len()) == t
            &&& s.len() == (if name.len() < 40 {
                40
            } else {
                name.len()
            }) + n.len() + x.len() + t.len() + " nonfree "@.len() + "  xor "@.len()
                + "  total "@.len()
        }),
{
    broadcast use {text::lemma_stands_at_end, text::lemma_stands_earlier};

    let s = gadget_text(name, g);
    decimal::law_columns(name, 40);
    let l = decimal::left(name, 40);
    assert(s.take(l.len() as int) =~= l);
    assert(s.take(name.len() as int) =~= l.take(name.len() as int));
    assert forall|i: int| name.len() <= i < 40 implies #[trigger] s[i] == ' ' by {
        assert(s[i] == l[i]);
    }
    let t = decimal::right(decimal::dec_text(g.total as nat), 13);
    assert(s.skip(s.len() - t.len()) =~= t);
}

} // verus!
