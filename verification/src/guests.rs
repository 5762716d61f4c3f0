//! The guest programs whose proofs are measured, and what they compute.

use vstd::prelude::*;

use crate::text;

verus! {

/// A guest program.
#[derive(Clone, Copy, Debug, PartialEq, Eq, Structural)]
pub enum Guest {
    /// Commits one number.
    Trivial,
    /// Several million cycles, so that the execution spans several segments.
    Fib,
    /// Commits 4 KiB, to separate the size of the public output from the
    /// size of the proof.
    Journal,
}

impl Guest {
    /// The name of a guest.
    pub open spec fn label(self) -> &'static str {
        match self {
            Guest::Trivial => "trivial",
            Guest::Fib => "fib",
            Guest::Journal => "journal",
        }
    }

    /// The name of a guest.
    pub fn name(self) -> (r: &'static str)
        ensures
            r == self.label(),
    {
        match self {
            Guest::Trivial => "trivial",
            Guest::Fib => "fib",
            Guest::Journal => "journal",
        }
    }

    /// The guest of a given name, if there is one.
    pub fn parse(name: &str) -> (r: Option<Guest>)
        ensures
            match r {
                Some(g) => name@ == g.label()@,
                None => forall|g: Guest| name@ != #[trigger] g.label()@,
            },
    {
        if text::same(name, "trivial") {
            Some(Guest::Trivial)
        } else if text::same(name, "fib") {
            Some(Guest::Fib)
        } else if text::same(name, "journal") {
            Some(Guest::Journal)
        } else {
            None
        }
    }
}

/// No two guests share a name.
pub proof fn law_names_distinct(a: Guest, b: Guest)
    requires
        a.label()@ == b.label()@,
    ensures
        a == b,
{
    reveal_strlit("trivial");
    reveal_strlit("fib");
    reveal_strlit("journal");
    assert("trivial"@[0] == 't' && "fib"@[0] == 'f' && "journal"@[0] == 'j');
}

/// The number that `Trivial` commits.
pub const TRIVIAL_OUTPUT: u32 = 42;

/// How many steps `Fib` takes.
pub const FIB_STEPS: u32 = 1_000_000;

/// How many bytes `Journal` commits.
pub const JOURNAL_BYTES: u32 = 4096;

/// The Fibonacci numbers.
pub open spec fn fib(n: nat) -> nat
    decreases n,
{
    if n <= 1 {
        n
    } else {
        fib((n - 1) as nat) + fib((n - 2) as nat)
    }
}

/// Fibonacci number `n` modulo `2^64`.
pub fn fibonacci(n: u32) -> (r: u64)
    ensures
        r == fib(n as nat) % 0x1_0000_0000_0000_0000,
{
    let mut a: u64 = 0;
    let mut b: u64 = 1;
    let mut i: u32 = 0;
    while i < n
        invariant
            i <= n,
            a == fib(i as nat) % 0x1_0000_0000_0000_0000,
            b == fib((i + 1) as nat) % 0x1_0000_0000_0000_0000,
        decreases n - i,
    {
        let c = a.wrapping_add(b);
        assert(fib((i + 2) as nat) == fib((i + 1) as nat) + fib(i as nat));
        a = b;
        b = c;
        i += 1;
    }
    a
}

/// The first `n` bytes of the sequence that counts up and wraps around.
pub open spec fn counting(n: nat) -> Seq<u8> {
    Seq::new(n, |i: int| (i % 256) as u8)
}

/// The first `n` bytes of the sequence that counts up and wraps around.
pub fn counting_bytes(n: u32) -> (r: Vec<u8>)
    ensures
        r@ == counting(n as nat),
        r@ == Seq::new(n as nat, |i: int| (i % 256) as u8),
{
    let mut r: Vec<u8> = Vec::new();
    let mut i: u32 = 0;
    while i < n
        invariant
            i <= n,
            r@ =~= Seq::new(i as nat, |i: int| (i % 256) as u8),
        decreases n - i,
    {
        r.push((i % 256) as u8);
        i += 1;
    }
    r
}

/// Each Fibonacci number is the sum of the two before it.
pub proof fn law_fib(n: nat)
    ensures
        fib(0) == 0,
        fib(1) == 1,
        fib(n + 2) == fib(n) + fib(n + 1),
{
}

/// The guests go by their names, and by what they run.
pub proof fn law_guests()
    ensures
        Guest::Trivial.label()@ == "trivial"@,
        Guest::Fib.label()@ == "fib"@,
        Guest::Journal.label()@ == "journal"@,
        TRIVIAL_OUTPUT == 42,
        FIB_STEPS == 1000 * 1000,
        JOURNAL_BYTES == 4 * 1024,
{
}

/// Counting bytes start at zero, go up by one and start again behind 255.
pub proof fn law_counting(n: nat, i: int)
    requires
        0 <= i < n,
    ensures
        counting(n).len() == n,
        counting(n)[0] == 0,
        0 < i && counting(n)[i - 1] < 255 ==> counting(n)[i] == counting(n)[i - 1] + 1,
        0 < i && counting(n)[i - 1] == 255 ==> counting(n)[i] == 0,
{
}

} // verus!
