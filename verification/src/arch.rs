//! The closed set of NPU architectures, with a bidirectional string table.
//!
//! Every architecture has a fixed lowercase canonical name.  Parsing accepts
//! the canonical name and the bare variant name, both case-insensitively; the
//! mapping is stated exhaustively so that round-tripping is proved, not
//! assumed.

use vstd::prelude::*;

verus! {

/// An NPU architecture family.
#[derive(Clone, Copy, Debug, PartialEq, Eq, Structural)]
pub enum Arch {
    Warboy,
    WarboyB0,
    Renegade,
    U250,
}

/// Lowercases an ASCII letter, at the level of code points.
pub open spec fn fold_char(c: char) -> u32 {
    if 65 <= c as u32 && c as u32 <= 90 {
        (c as u32 + 32) as u32
    } else {
        c as u32
    }
}

/// Two character sequences are equal up to ASCII case.
pub open spec fn eq_ignore_case(a: Seq<char>, b: Seq<char>) -> bool {
    &&& a.len() == b.len()
    &&& forall|i: int| 0 <= i < a.len() ==> fold_char(a[i]) == fold_char(b[i])
}

impl Arch {
    /// The canonical lowercase name of the architecture.
    pub open spec fn canonical_chars(self) -> Seq<char> {
        match self {
            Arch::Warboy => seq!['w', 'a', 'r', 'b', 'o', 'y'],
            Arch::WarboyB0 => seq!['w', 'a', 'r', 'b', 'o', 'y', '-', 'b', '0'],
            Arch::Renegade => seq!['r', 'e', 'n', 'e', 'g', 'a', 'd', 'e'],
            Arch::U250 => seq!['u', '2', '5', '0'],
        }
    }

    /// The bare variant name, folded to lowercase.  It differs from the
    /// canonical name only for `WarboyB0`, whose canonical form carries a
    /// hyphen.
    pub open spec fn variant_chars(self) -> Seq<char> {
        match self {
            Arch::WarboyB0 => seq!['w', 'a', 'r', 'b', 'o', 'y', 'b', '0'],
            _ => self.canonical_chars(),
        }
    }

    /// The architecture a piece of text denotes: the one whose canonical or
    /// variant name it equals up to case, if any.
    pub open spec fn spec_of_chars(s: Seq<char>) -> Option<Arch> {
        if eq_ignore_case(s, Arch::Warboy.canonical_chars()) {
            Some(Arch::Warboy)
        } else if eq_ignore_case(s, Arch::WarboyB0.canonical_chars())
            || eq_ignore_case(s, Arch::WarboyB0.variant_chars()) {
            Some(Arch::WarboyB0)
        } else if eq_ignore_case(s, Arch::Renegade.canonical_chars()) {
            Some(Arch::Renegade)
        } else if eq_ignore_case(s, Arch::U250.canonical_chars()) {
            Some(Arch::U250)
        } else {
            None
        }
    }

    /// Formats the architecture as its canonical lowercase name.
    pub fn as_text(&self) -> (r: String)
        ensures
            r@ == self.canonical_chars(),
    {
        proof {
            reveal_strlit("warboy");
            reveal_strlit("warboy-b0");
            reveal_strlit("renegade");
            reveal_strlit("u250");
        }
        let r = match self {
            Arch::Warboy => "warboy".to_owned(),
            Arch::WarboyB0 => "warboy-b0".to_owned(),
            Arch::Renegade => "renegade".to_owned(),
            Arch::U250 => "u250".to_owned(),
        };
        proof {
            assert(r@ =~= self.canonical_chars());
        }
        r
    }

    /// Parses an architecture name, case-insensitively.
    pub fn from_text(s: &str) -> (r: Option<Arch>)
        ensures
            r == Arch::spec_of_chars(s@),
    {
        proof {
            reveal_strlit("warboy");
            reveal_strlit("warboy-b0");
            reveal_strlit("warboyb0");
            reveal_strlit("renegade");
            reveal_strlit("u250");
            assert(("warboy")@ =~= Arch::Warboy.canonical_chars());
            assert(("warboy-b0")@ =~= Arch::WarboyB0.canonical_chars());
            assert(("warboyb0")@ =~= Arch::WarboyB0.variant_chars());
            assert(("renegade")@ =~= Arch::Renegade.canonical_chars());
            assert(("u250")@ =~= Arch::U250.canonical_chars());
        }
        if str_eq_ignore_case(s, "warboy") {
            Some(Arch::Warboy)
        } else if str_eq_ignore_case(s, "warboy-b0") || str_eq_ignore_case(s, "warboyb0") {
            Some(Arch::WarboyB0)
        } else if str_eq_ignore_case(s, "renegade") {
            Some(Arch::Renegade)
        } else if str_eq_ignore_case(s, "u250") {
            Some(Arch::U250)
        } else {
            None
        }
    }
}

/// Compares two characters up to ASCII case.
fn char_eq_ignore_case(a: char, b: char) -> (r: bool)
    ensures
        r == (fold_char(a) == fold_char(b)),
{
    let ua = a as u32;
    let ub = b as u32;
    let fa = if 65 <= ua && ua <= 90 { ua + 32 } else { ua };
    let fb = if 65 <= ub && ub <= 90 { ub + 32 } else { ub };
    fa == fb
}

/// Compares two strings up to ASCII case.
fn str_eq_ignore_case(s: &str, t: &str) -> (r: bool)
    ensures
        r == eq_ignore_case(s@, t@),
{
    let n = s.unicode_len();
    if n != t.unicode_len() {
        return false;
    }
    let mut i: usize = 0;
    while i < n
        invariant
            n == s@.len(),
            n == t@.len(),
            i <= n,
            forall|k: int| 0 <= k < i ==> fold_char(s@[k]) == fold_char(t@[k]),
        decreases n - i,
    {
        if !char_eq_ignore_case(s.get_char(i), t.get_char(i)) {
            return false;
        }
        i = i + 1;
    }
    true
}

/// Round trip: the canonical name of an architecture — and any respelling of
/// it up to case — parses back to that same architecture.
pub proof fn lemma_arch_round_trip(a: Arch, s: Seq<char>)
    requires
        eq_ignore_case(s, a.canonical_chars()),
    ensures
        Arch::spec_of_chars(s) == Some(a),
{
    lemma_fold_transfers(s, a.canonical_chars());
}

/// Case-folded equality carries over: anything case-equal to `b` matches the
/// same names as `b` itself.
proof fn lemma_fold_transfers(s: Seq<char>, b: Seq<char>)
    requires
        eq_ignore_case(s, b),
    ensures
        forall|t: Seq<char>| eq_ignore_case(s, t) == eq_ignore_case(b, t),
{
    assert forall|t: Seq<char>| eq_ignore_case(s, t) == eq_ignore_case(b, t) by {
        if eq_ignore_case(s, t) {
            assert(eq_ignore_case(b, t));
        }
        if eq_ignore_case(b, t) {
            assert(eq_ignore_case(s, t));
        }
    }
}

impl core::str::FromStr for Arch {
    type Err = ();

    fn from_str(s: &str) -> Result<Self, Self::Err> {
        match Arch::from_text(s) {
            Some(a) => Ok(a),
            None => Err(()),
        }
    }
}

} // verus!
