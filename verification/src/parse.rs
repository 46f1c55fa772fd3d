//! The textual request grammar.
//!
//! Two surface forms denote a [`DeviceConfig`]:
//! - named, `"<device_id>:<core>"` or `"<device_id>:<start>-<end>"`;
//! - unnamed, `"<arch>[(<n>)]*<count>"`, where the optional parenthesized
//!   exclusivity size selects the mode: absent for `MultiCore`, `(1)` for
//!   `Single`, `(2)` for `Fusion`.
//!
//! The grammar is stated as predicates over the whole input sequence, so a
//! successful parse consumes the input in full by construction; any trailing
//! characters make both predicates false and the parse fail.  The named form
//! is tried first, then the unnamed form.

use vstd::prelude::*;

use crate::arch::Arch;
use crate::device::DeviceMode;
use crate::error::DeviceError;
use crate::find::{CoreId, DeviceConfig};

verus! {

/// Whether `c` is an ASCII decimal digit.
pub open spec fn is_digit(c: char) -> bool {
    48 <= c as u32 && c as u32 <= 57
}

/// The value of an ASCII decimal digit.
pub open spec fn digit_val(c: char) -> int {
    c as u32 - 48
}

/// Whether every character of `s` is an ASCII decimal digit.
pub open spec fn all_digits(s: Seq<char>) -> bool {
    forall|i: int| 0 <= i < s.len() ==> is_digit(s[i])
}

/// The numeric value of a digit string, most significant digit first.
pub open spec fn dec_val(s: Seq<char>) -> int
    decreases s.len(),
{
    if s.len() == 0 {
        0
    } else {
        dec_val(s.drop_last()) * 10 + digit_val(s.last())
    }
}

/// Whether `s` is a non-empty digit string whose value fits in a `u8`.
pub open spec fn is_u8_digits(s: Seq<char>) -> bool {
    &&& s.len() > 0
    &&& all_digits(s)
    &&& dec_val(s) <= 255
}

/// The end of the run of digits that starts at `i`: the first position at or
/// after `i` holding a non-digit, or the length of `s`.
pub open spec fn digit_run_end(s: Seq<char>, i: int) -> int
    decreases s.len() - i when 0 <= i <= s.len()
{
    if i < 0 || i >= s.len() {
        i
    } else if is_digit(s[i]) {
        digit_run_end(s, i + 1)
    } else {
        i
    }
}

/// What `digit_run_end` returns: the maximal digit run from `i`.
proof fn lemma_digit_run_end(s: Seq<char>, i: int)
    requires
        0 <= i <= s.len(),
    ensures
        i <= digit_run_end(s, i) <= s.len(),
        forall|k: int| i <= k < digit_run_end(s, i) ==> is_digit(s[k]),
        digit_run_end(s, i) < s.len() ==> !is_digit(s[digit_run_end(s, i)]),
    decreases s.len() - i,
{
    if i < s.len() && is_digit(s[i]) {
        lemma_digit_run_end(s, i + 1);
    }
}

/// A maximal digit run from `i` is unique: any stretch of digits from `i`
/// that ends at the end of `s` or at a non-digit ends at `digit_run_end`.
proof fn lemma_digit_run_end_unique(s: Seq<char>, i: int, j: int)
    requires
        0 <= i <= j <= s.len(),
        forall|k: int| i <= k < j ==> is_digit(s[k]),
        j < s.len() ==> !is_digit(s[j]),
    ensures
        digit_run_end(s, i) == j,
    decreases j - i,
{
    if i < j {
        lemma_digit_run_end_unique(s, i + 1, j);
    }
}

/// The value of a digit string is non-negative.
proof fn lemma_dec_val_nonneg(s: Seq<char>)
    requires
        all_digits(s),
    ensures
        dec_val(s) >= 0,
    decreases s.len(),
{
    if s.len() > 0 {
        assert(all_digits(s.drop_last()));
        lemma_dec_val_nonneg(s.drop_last());
    }
}

/// Whether `s` splits at `j` into two `u8` digit strings around a hyphen,
/// denoting the range from `a` up to `b`.  A reversed pair denotes nothing:
/// a range runs from a lower to a higher core index.
pub open spec fn core_range_at(s: Seq<char>, j: int, a: u8, b: u8) -> bool {
    &&& 0 < j < s.len()
    &&& s[j] == '-'
    &&& is_u8_digits(s.subrange(0, j))
    &&& dec_val(s.subrange(0, j)) == a
    &&& is_u8_digits(s.subrange(j + 1, s.len() as int))
    &&& dec_val(s.subrange(j + 1, s.len() as int)) == b
    &&& a <= b
}

/// Whether `s` splits somewhere into two `u8` digit strings around a hyphen,
/// with values `a` and `b`.
pub open spec fn range_repr(s: Seq<char>, a: u8, b: u8) -> bool {
    exists|j: int| core_range_at(s, j, a, b)
}

/// Whether `s` denotes the core id `c`: a single `u8` digit string, or two
/// joined by a hyphen.
pub open spec fn core_id_repr(s: Seq<char>, c: CoreId) -> bool {
    match c {
        CoreId::Id(n) => is_u8_digits(s) && dec_val(s) == n,
        CoreId::Range(a, b) => range_repr(s, a, b),
    }
}

/// Whether `s` splits at `i` into a device id and a core id around a colon.
pub open spec fn named_at(s: Seq<char>, i: int, device_id: u8, core_id: CoreId) -> bool {
    &&& 0 < i < s.len()
    &&& s[i] == ':'
    &&& is_u8_digits(s.subrange(0, i))
    &&& dec_val(s.subrange(0, i)) == device_id
    &&& core_id_repr(s.subrange(i + 1, s.len() as int), core_id)
}

/// Whether the whole of `s` is the named form `"<device_id>:<core>"`.
pub open spec fn named_repr(s: Seq<char>, device_id: u8, core_id: CoreId) -> bool {
    exists|i: int| named_at(s, i, device_id, core_id)
}

/// The text selecting a mode in the unnamed form: absent for `MultiCore`,
/// a parenthesized exclusivity size otherwise.
pub open spec fn mode_tag(m: DeviceMode) -> Seq<char> {
    match m {
        DeviceMode::MultiCore => Seq::empty(),
        DeviceMode::Single => seq!['(', '1', ')'],
        DeviceMode::Fusion => seq!['(', '2', ')'],
    }
}

/// Whether the whole of `s` is the unnamed form `"<arch>[(<n>)]*<count>"`:
/// the architecture's canonical name, the mode's tag, a star, and a `u8`
/// digit string.
pub open spec fn unnamed_repr(s: Seq<char>, arch: Arch, mode: DeviceMode, count: u8) -> bool {
    let name = arch.canonical_chars();
    let p = (name.len() + mode_tag(mode).len()) as int;
    &&& p + 1 < s.len()
    &&& s.subrange(0, name.len() as int) == name
    &&& s.subrange(name.len() as int, p) == mode_tag(mode)
    &&& s[p] == '*'
    &&& is_u8_digits(s.subrange(p + 1, s.len() as int))
    &&& dec_val(s.subrange(p + 1, s.len() as int)) == count
}

/// No string fits both surface forms: the named form opens with a digit,
/// the unnamed form with an architecture name.
pub proof fn lemma_forms_exclusive(
    s: Seq<char>,
    id: u8,
    cid: CoreId,
    a: Arch,
    m: DeviceMode,
    c: u8,
)
    requires
        named_repr(s, id, cid),
    ensures
        !unnamed_repr(s, a, m, c),
{
    let i = choose|i: int| named_at(s, i, id, cid);
    assert(s.subrange(0, i)[0] == s[0]);
    assert(is_digit(s[0]));
    if unnamed_repr(s, a, m, c) {
        let name = a.canonical_chars();
        assert(s.subrange(0, name.len() as int)[0] == s[0]);
        match a {
            Arch::Warboy => {},
            Arch::WarboyB0 => {},
            Arch::Renegade => {},
            Arch::U250 => {},
        }
    }
}

/// A named reading always carries a well-formed core id: the grammar admits
/// no reversed range.
pub proof fn lemma_named_repr_wf(s: Seq<char>, id: u8, cid: CoreId)
    requires
        named_repr(s, id, cid),
    ensures
        cid.wf(),
{
    let i = choose|i: int| named_at(s, i, id, cid);
    let t = s.subrange(i + 1, s.len() as int);
    match cid {
        CoreId::Id(_) => {},
        CoreId::Range(a, b) => {
            let j = choose|j: int| core_range_at(t, j, a, b);
        },
    }
}

/// The named grammar is unambiguous: one string denotes at most one request.
pub proof fn lemma_named_repr_deterministic(
    s: Seq<char>,
    id1: u8,
    cid1: CoreId,
    id2: u8,
    cid2: CoreId,
)
    requires
        named_repr(s, id1, cid1),
        named_repr(s, id2, cid2),
    ensures
        id1 == id2,
        cid1 == cid2,
{
    let i1 = choose|i: int| named_at(s, i, id1, cid1);
    let i2 = choose|i: int| named_at(s, i, id2, cid2);
    lemma_named_at_unique(s, i1);
    lemma_named_at_unique(s, i2);
    assert(i1 == i2);
    let t = s.subrange(i1 + 1, s.len() as int);
    lemma_core_id_repr_deterministic(t, cid1, cid2);
}

/// The colon of the named form sits at the end of the leading digit run.
proof fn lemma_named_at_unique(s: Seq<char>, i: int)
    requires
        0 < i < s.len(),
        is_u8_digits(s.subrange(0, i)),
        s[i] == ':',
    ensures
        i == digit_run_end(s, 0),
{
    let head = s.subrange(0, i);
    assert forall|k: int| 0 <= k < i implies is_digit(s[k]) by {
        assert(head[k] == s[k]);
    }
    lemma_digit_run_end_unique(s, 0, i);
}

/// A core id denotation is unique for one string.
proof fn lemma_core_id_repr_deterministic(t: Seq<char>, cid1: CoreId, cid2: CoreId)
    requires
        core_id_repr(t, cid1),
        core_id_repr(t, cid2),
    ensures
        cid1 == cid2,
{
    match cid1 {
        CoreId::Id(n1) => {
            match cid2 {
                CoreId::Id(n2) => {},
                CoreId::Range(a2, b2) => {
                    let j2 = choose|j: int| core_range_at(t, j, a2, b2);
                    assert(is_digit(t[j2]));
                },
            }
        },
        CoreId::Range(a1, b1) => {
            let j1 = choose|j: int| core_range_at(t, j, a1, b1);
            match cid2 {
                CoreId::Id(n2) => {
                    assert(is_digit(t[j1]));
                },
                CoreId::Range(a2, b2) => {
                    let j2 = choose|j: int| core_range_at(t, j, a2, b2);
                    lemma_range_at_unique(t, j1);
                    lemma_range_at_unique(t, j2);
                    assert(j1 == j2);
                },
            }
        },
    }
}

/// The hyphen of the range form sits at the end of the leading digit run.
proof fn lemma_range_at_unique(t: Seq<char>, j: int)
    requires
        0 < j < t.len(),
        is_u8_digits(t.subrange(0, j)),
        t[j] == '-',
    ensures
        j == digit_run_end(t, 0),
{
    let head = t.subrange(0, j);
    assert forall|k: int| 0 <= k < j implies is_digit(t[k]) by {
        assert(head[k] == t[k]);
    }
    lemma_digit_run_end_unique(t, 0, j);
}

/// The unnamed grammar is unambiguous: one string denotes at most one
/// request.
pub proof fn lemma_unnamed_repr_deterministic(
    s: Seq<char>,
    a1: Arch,
    m1: DeviceMode,
    c1: u8,
    a2: Arch,
    m2: DeviceMode,
    c2: u8,
)
    requires
        unnamed_repr(s, a1, m1, c1),
        unnamed_repr(s, a2, m2, c2),
    ensures
        a1 == a2,
        m1 == m2,
        c1 == c2,
{
    lemma_unnamed_arch_agrees(s, a1, m1, c1, a2, m2, c2);
    let p = a1.canonical_chars().len() as int;
    lemma_unnamed_mode_agrees(s, a1, m1, c1, m2, c2);
    assert(s.subrange(p + mode_tag(m1).len(), s.len() as int) == s.subrange(
        p + mode_tag(m2).len(),
        s.len() as int,
    ));
}

/// Two unnamed denotations of one string use the same architecture.
proof fn lemma_unnamed_arch_agrees(
    s: Seq<char>,
    a1: Arch,
    m1: DeviceMode,
    c1: u8,
    a2: Arch,
    m2: DeviceMode,
    c2: u8,
)
    requires
        unnamed_repr(s, a1, m1, c1),
        unnamed_repr(s, a2, m2, c2),
    ensures
        a1 == a2,
{
    let n1 = a1.canonical_chars();
    let n2 = a2.canonical_chars();
    assert forall|k: int| 0 <= k < n1.len() implies s[k] == n1[k] by {
        assert(s.subrange(0, n1.len() as int)[k] == s[k]);
    }
    assert forall|k: int| 0 <= k < n2.len() implies s[k] == n2[k] by {
        assert(s.subrange(0, n2.len() as int)[k] == s[k]);
    }
    if a1 != a2 {
        if a1 == Arch::Warboy && a2 == Arch::WarboyB0 {
            // After "warboy", a1's form continues with '(' or '*', never
            // with the '-' of "warboy-b0".
            assert(s[6] == '-');
            lemma_after_name_not_hyphen(s, a1, m1, c1);
        } else if a1 == Arch::WarboyB0 && a2 == Arch::Warboy {
            assert(s[6] == '-');
            lemma_after_name_not_hyphen(s, a2, m2, c2);
        } else {
            assert(s[0] == n1[0]);
            assert(s[0] == n2[0]);
        }
    }
}

/// The character right after the architecture name of an unnamed form is a
/// parenthesis or a star.
proof fn lemma_after_name_not_hyphen(s: Seq<char>, a: Arch, m: DeviceMode, c: u8)
    requires
        unnamed_repr(s, a, m, c),
    ensures
        s[a.canonical_chars().len() as int] == '(' || s[a.canonical_chars().len() as int] == '*',
{
    let p = a.canonical_chars().len() as int;
    match m {
        DeviceMode::MultiCore => {},
        DeviceMode::Single => {
            assert(s.subrange(p, p + 3)[0] == s[p]);
        },
        DeviceMode::Fusion => {
            assert(s.subrange(p, p + 3)[0] == s[p]);
        },
    }
}

/// Two unnamed denotations of one string with one architecture use the same
/// mode.
proof fn lemma_unnamed_mode_agrees(
    s: Seq<char>,
    a: Arch,
    m1: DeviceMode,
    c1: u8,
    m2: DeviceMode,
    c2: u8,
)
    requires
        unnamed_repr(s, a, m1, c1),
        unnamed_repr(s, a, m2, c2),
    ensures
        m1 == m2,
{
    let p = a.canonical_chars().len() as int;
    if m1 != m2 {
        lemma_unnamed_mode_chars(s, a, m1, c1);
        lemma_unnamed_mode_chars(s, a, m2, c2);
    }
}

/// The characters an unnamed form pins down right after the architecture
/// name, by mode.
proof fn lemma_unnamed_mode_chars(s: Seq<char>, a: Arch, m: DeviceMode, c: u8)
    requires
        unnamed_repr(s, a, m, c),
    ensures
        m == DeviceMode::MultiCore ==> s[a.canonical_chars().len() as int] == '*',
        m == DeviceMode::Single ==> s[a.canonical_chars().len() as int] == '('
            && s[a.canonical_chars().len() as int + 1] == '1',
        m == DeviceMode::Fusion ==> s[a.canonical_chars().len() as int] == '('
            && s[a.canonical_chars().len() as int + 1] == '2',
{
    let p = a.canonical_chars().len() as int;
    match m {
        DeviceMode::MultiCore => {},
        DeviceMode::Single => {
            assert(s.subrange(p, p + 3)[0] == s[p]);
            assert(s.subrange(p, p + 3)[1] == s[p + 1]);
        },
        DeviceMode::Fusion => {
            assert(s.subrange(p, p + 3)[0] == s[p]);
            assert(s.subrange(p, p + 3)[1] == s[p + 1]);
        },
    }
}

/// A witness split introduces the range form of a core id.
proof fn lemma_core_range_intro(s: Seq<char>, j: int, a: u8, b: u8)
    requires
        core_range_at(s, j, a, b),
    ensures
        core_id_repr(s, CoreId::Range(a, b)),
{
    assert(range_repr(s, a, b)) by {
        assert(core_range_at(s, j, a, b));
    }
}

/// A witness split introduces the named form.
proof fn lemma_named_intro(s: Seq<char>, i: int, device_id: u8, core_id: CoreId)
    requires
        named_at(s, i, device_id, core_id),
    ensures
        named_repr(s, device_id, core_id),
{
    assert(exists|i2: int| named_at(s, i2, device_id, core_id)) by {
        assert(named_at(s, i, device_id, core_id));
    }
}

/// Reads the maximal digit run of `s` starting at `from`, returning where it
/// ends and, when the run is non-empty and its value fits, the value.
fn scan_u8(s: &str, from: usize) -> (r: (usize, Option<u8>))
    requires
        from <= s@.len(),
    ensures
        r.0 == digit_run_end(s@, from as int),
        from <= r.0 <= s@.len(),
        r.1 is Some <==> (from < r.0 && dec_val(s@.subrange(from as int, r.0 as int)) <= 255),
        r.1 matches Some(v) ==> v == dec_val(s@.subrange(from as int, r.0 as int)),
{
    let n = s.unicode_len();
    let mut j: usize = from;
    let mut val: u32 = 0;
    let mut over: bool = false;
    let mut stop: bool = false;
    while !stop
        invariant
            from <= j <= n,
            n == s@.len(),
            forall|k: int| from <= k < j ==> is_digit(s@[k]),
            stop ==> j == n || !is_digit(s@[j as int]),
            !over ==> val == dec_val(s@.subrange(from as int, j as int)) && val <= 255,
            over ==> dec_val(s@.subrange(from as int, j as int)) > 255,
        decreases n - j + (if stop { 0int } else { 1int }),
    {
        if j == n {
            stop = true;
        } else {
            let c = s.get_char(j);
            let u = c as u32;
            if !(48 <= u && u <= 57) {
                stop = true;
            } else {
                let d = u - 48;
                proof {
                    assert(s@.subrange(from as int, j + 1).drop_last() =~= s@.subrange(
                        from as int,
                        j as int,
                    ));
                    assert(s@.subrange(from as int, j + 1).last() == s@[j as int]);
                }
                if !over {
                    if val * 10 + d > 255 {
                        over = true;
                    } else {
                        val = val * 10 + d;
                    }
                }
                j = j + 1;
            }
        }
    }
    proof {
        lemma_digit_run_end_unique(s@, from as int, j as int);
    }
    if j == from {
        proof {
            assert(s@.subrange(from as int, from as int).len() == 0);
        }
        (j, None)
    } else if over {
        (j, None)
    } else {
        (j, Some(val as u8))
    }
}

/// Parses a whole string as a core id: `"<n>"` or `"<start>-<end>"`.
fn parse_core(t: &str) -> (r: Option<CoreId>)
    ensures
        r matches Some(cid) ==> core_id_repr(t@, cid),
        r is None ==> forall|cid: CoreId| !core_id_repr(t@, cid),
{
    let n = t.unicode_len();
    let (e1, v1) = scan_u8(t, 0);
    proof {
        lemma_digit_run_end(t@, 0);
    }
    if e1 == 0 {
        // The string does not start with a digit, so neither form fits.
        proof {
            assert forall|cid: CoreId| !core_id_repr(t@, cid) by {
                if core_id_repr(t@, cid) {
                    match cid {
                        CoreId::Id(_) => {
                            assert(is_digit(t@[0]));
                        },
                        CoreId::Range(a, b) => {
                            let j = choose|j: int| core_range_at(t@, j, a, b);
                            assert(t@.subrange(0, j)[0] == t@[0]);
                            assert(is_digit(t@[0]));
                        },
                    }
                }
            }
        }
        None
    } else if e1 == n {
        match v1 {
            Some(v) => {
                proof {
                    assert(t@.subrange(0, n as int) =~= t@);
                    assert(is_u8_digits(t@));
                    assert(core_id_repr(t@, CoreId::Id(v)));
                }
                Some(CoreId::Id(v))
            },
            None => {
                // The single digit run is the whole string but its value
                // does not fit in a u8.
                proof {
                    assert(t@.subrange(0, n as int) =~= t@);
                    assert forall|cid: CoreId| !core_id_repr(t@, cid) by {
                        if core_id_repr(t@, cid) {
                            match cid {
                                CoreId::Id(_) => {},
                                CoreId::Range(a, b) => {
                                    let j = choose|j: int| core_range_at(t@, j, a, b);
                                    assert(forall|k: int|
                                        0 <= k < j ==> t@.subrange(0, j)[k] == t@[k]);
                                    lemma_digit_run_end_unique(t@, 0, j);
                                },
                            }
                        }
                    }
                }
                None
            },
        }
    } else {
        // e1 < n: the character at e1 is not a digit.
        let sep = t.get_char(e1);
        proof {
            // In the range form, the hyphen must sit exactly at e1.
            assert forall|a: u8, b: u8, j: int|
                core_range_at(t@, j, a, b) implies j == e1 as int by {
                assert(forall|k: int| 0 <= k < j ==> t@.subrange(0, j)[k] == t@[k]);
                lemma_digit_run_end_unique(t@, 0, j);
            }
        }
        if sep != '-' {
            proof {
                assert forall|cid: CoreId| !core_id_repr(t@, cid) by {
                    if core_id_repr(t@, cid) {
                        match cid {
                            CoreId::Id(_) => {
                                assert(is_digit(t@[e1 as int]));
                            },
                            CoreId::Range(a, b) => {
                                let j = choose|j: int| core_range_at(t@, j, a, b);
                            },
                        }
                    }
                }
            }
            return None;
        }
        match v1 {
            None => {
                // The start of the range does not fit in a u8.
                proof {
                    assert forall|cid: CoreId| !core_id_repr(t@, cid) by {
                        if core_id_repr(t@, cid) {
                            match cid {
                                CoreId::Id(_) => {
                                    assert(is_digit(t@[e1 as int]));
                                },
                                CoreId::Range(a, b) => {
                                    let j = choose|j: int| core_range_at(t@, j, a, b);
                                },
                            }
                        }
                    }
                }
                None
            },
            Some(a) => {
                let (e2, v2) = scan_u8(t, e1 + 1);
                proof {
                    lemma_digit_run_end(t@, e1 + 1);
                    // In the range form, the digits after the hyphen reach
                    // the end of the string.
                    assert forall|x: u8, y: u8, j: int|
                        core_range_at(t@, j, x, y) implies e2 == n by {
                        let tail = t@.subrange(j + 1, n as int);
                        assert forall|k2: int| j + 1 <= k2 < n implies is_digit(t@[k2]) by {
                            assert(tail[k2 - j - 1] == t@[k2]);
                        }
                        lemma_digit_run_end_unique(t@, e1 + 1, n as int);
                    }
                }
                if e2 == n {
                    match v2 {
                        Some(b) if a <= b => {
                            proof {
                                let head = t@.subrange(0, e1 as int);
                                let tail = t@.subrange(e1 + 1, n as int);
                                assert forall|k: int| 0 <= k < head.len() implies is_digit(
                                    head[k],
                                ) by {
                                    assert(head[k] == t@[k]);
                                }
                                assert forall|k: int| 0 <= k < tail.len() implies is_digit(
                                    tail[k],
                                ) by {
                                    assert(tail[k] == t@[k + e1 + 1]);
                                }
                                assert(core_range_at(t@, e1 as int, a, b));
                                lemma_core_range_intro(t@, e1 as int, a, b);
                            }
                            Some(CoreId::Range(a, b))
                        },
                        Some(b) => {
                            // A reversed pair: the range would run downward.
                            proof {
                                assert forall|cid: CoreId| !core_id_repr(t@, cid) by {
                                    if core_id_repr(t@, cid) {
                                        match cid {
                                            CoreId::Id(_) => {
                                                assert(is_digit(t@[e1 as int]));
                                            },
                                            CoreId::Range(x, y) => {
                                                let j = choose|j: int|
                                                    core_range_at(t@, j, x, y);
                                                assert(x == a);
                                                assert(y == b);
                                            },
                                        }
                                    }
                                }
                            }
                            None
                        },
                        None => {
                            // No digits after the hyphen, or a value that
                            // does not fit in a u8.
                            proof {
                                assert forall|cid: CoreId| !core_id_repr(t@, cid) by {
                                    if core_id_repr(t@, cid) {
                                        match cid {
                                            CoreId::Id(_) => {
                                                assert(is_digit(t@[e1 as int]));
                                            },
                                            CoreId::Range(x, y) => {
                                                let j = choose|j: int|
                                                    core_range_at(t@, j, x, y);
                                                let tail = t@.subrange(j + 1, n as int);
                                                assert(forall|k: int|
                                                    0 <= k < tail.len() ==> tail[k] == t@[k + j
                                                        + 1]);
                                            },
                                        }
                                    }
                                }
                            }
                            None
                        },
                    }
                } else {
                    // Trailing characters after the second digit run.
                    proof {
                        assert forall|cid: CoreId| !core_id_repr(t@, cid) by {
                            if core_id_repr(t@, cid) {
                                match cid {
                                    CoreId::Id(_) => {
                                        assert(is_digit(t@[e1 as int]));
                                    },
                                    CoreId::Range(x, y) => {
                                        let j = choose|j: int| core_range_at(t@, j, x, y);
                                    },
                                }
                            }
                        }
                    }
                    None
                }
            },
        }
    }
}

/// Parses a whole string as the named form `"<device_id>:<core>"`.
fn parse_named(s: &str) -> (r: Option<(u8, CoreId)>)
    ensures
        r matches Some(pr) ==> named_repr(s@, pr.0, pr.1),
        r is None ==> forall|id: u8, cid: CoreId| !named_repr(s@, id, cid),
{
    let n = s.unicode_len();
    let (e, v) = scan_u8(s, 0);
    proof {
        lemma_digit_run_end(s@, 0);
        // In the named form, the colon must sit exactly at the end of the
        // leading digit run.
        assert forall|id: u8, cid: CoreId, i: int|
            named_at(s@, i, id, cid) implies i == e as int by {
            assert(forall|k: int| 0 <= k < i ==> s@.subrange(0, i)[k] == s@[k]);
            lemma_digit_run_end_unique(s@, 0, i);
        }
    }
    if e == 0 || e >= n {
        proof {
            assert forall|id: u8, cid: CoreId| !named_repr(s@, id, cid) by {
                if named_repr(s@, id, cid) {
                    let i = choose|i: int| named_at(s@, i, id, cid);
                    assert(s@.subrange(0, i)[0] == s@[0]);
                    assert(is_digit(s@[0]));
                }
            }
        }
        return None;
    }
    if s.get_char(e) != ':' {
        proof {
            assert forall|id: u8, cid: CoreId| !named_repr(s@, id, cid) by {
                if named_repr(s@, id, cid) {
                    let i = choose|i: int| named_at(s@, i, id, cid);
                }
            }
        }
        return None;
    }
    match v {
        None => {
            // The device id does not fit in a u8.
            proof {
                assert forall|id: u8, cid: CoreId| !named_repr(s@, id, cid) by {
                    if named_repr(s@, id, cid) {
                        let i = choose|i: int| named_at(s@, i, id, cid);
                    }
                }
            }
            None
        },
        Some(id) => {
            let t = s.substring_char(e + 1, n);
            match parse_core(t) {
                Some(cid) => {
                    proof {
                        assert(named_at(s@, e as int, id, cid)) by {
                            assert(forall|k: int|
                                0 <= k < e ==> s@.subrange(0, e as int)[k] == s@[k]);
                            lemma_dec_val_nonneg(s@.subrange(0, e as int));
                        }
                        lemma_named_intro(s@, e as int, id, cid);
                    }
                    Some((id, cid))
                },
                None => {
                    proof {
                        assert forall|id2: u8, cid2: CoreId| !named_repr(s@, id2, cid2) by {
                            if named_repr(s@, id2, cid2) {
                                let i = choose|i: int| named_at(s@, i, id2, cid2);
                                assert(core_id_repr(t@, cid2));
                            }
                        }
                    }
                    None
                },
            }
        },
    }
}

/// Whether `t` is a prefix of `s`.
fn has_prefix(s: &str, t: &str) -> (b: bool)
    ensures
        b == (t@.len() <= s@.len() && s@.subrange(0, t@.len() as int) == t@),
{
    let n = s.unicode_len();
    let m = t.unicode_len();
    if m > n {
        return false;
    }
    let mut i: usize = 0;
    while i < m
        invariant
            0 <= i <= m <= n,
            n == s@.len(),
            m == t@.len(),
            forall|k: int| 0 <= k < i ==> s@[k] == t@[k],
        decreases m - i,
    {
        if s.get_char(i) != t.get_char(i) {
            proof {
                assert(s@.subrange(0, m as int)[i as int] == s@[i as int]);
            }
            return false;
        }
        i = i + 1;
    }
    proof {
        assert(s@.subrange(0, m as int) =~= t@);
    }
    true
}

/// An architecture name that prefixes `s` rules the other architectures out
/// of the unnamed form.  For `Warboy` this needs to know that the longer
/// `warboy-b0` does not also prefix `s`.
proof fn lemma_arch_prefix_excludes(s: Seq<char>, a: Arch)
    requires
        a.canonical_chars().len() <= s.len(),
        s.subrange(0, a.canonical_chars().len() as int) == a.canonical_chars(),
        a == Arch::Warboy ==> !(Arch::WarboyB0.canonical_chars().len() <= s.len()
            && s.subrange(0, Arch::WarboyB0.canonical_chars().len() as int)
            == Arch::WarboyB0.canonical_chars()),
    ensures
        forall|a2: Arch, m: DeviceMode, c: u8| a2 != a ==> !unnamed_repr(s, a2, m, c),
{
    let na = a.canonical_chars();
    assert forall|k: int| 0 <= k < na.len() implies s[k] == na[k] by {
        assert(s.subrange(0, na.len() as int)[k] == na[k]);
    }
    assert forall|a2: Arch, m: DeviceMode, c: u8| a2 != a implies !unnamed_repr(s, a2, m, c) by {
        if unnamed_repr(s, a2, m, c) {
            let n2 = a2.canonical_chars();
            assert forall|k: int| 0 <= k < n2.len() implies s[k] == n2[k] by {
                assert(s.subrange(0, n2.len() as int)[k] == n2[k]);
            }
            if a == Arch::Warboy && a2 == Arch::WarboyB0 {
                assert(s.subrange(0, 9) =~= n2);
            } else if a == Arch::WarboyB0 && a2 == Arch::Warboy {
                // s carries the hyphen of "warboy-b0", but after "warboy"
                // the unnamed form must continue with '(' or '*'.
                assert(s[6] == '-');
                let p2 = (n2.len() + mode_tag(m).len()) as int;
                match m {
                    DeviceMode::MultiCore => {
                        assert(s[p2] == '*');
                    },
                    DeviceMode::Single => {
                        assert(s.subrange(6, p2)[0] == s[6]);
                    },
                    DeviceMode::Fusion => {
                        assert(s.subrange(6, p2)[0] == s[6]);
                    },
                }
            } else {
                // The names start with distinct characters.
                assert(s[0] == na[0]);
                assert(s[0] == n2[0]);
            }
        }
    }
}
/// Parses the end of the input, from `q` on, as a `u8` count.
fn parse_count_from(s: &str, q: usize) -> (r: Option<u8>)
    requires
        q <= s@.len(),
    ensures
        r matches Some(v) ==> is_u8_digits(s@.subrange(q as int, s@.len() as int)) && dec_val(
            s@.subrange(q as int, s@.len() as int),
        ) == v,
        r is None ==> !is_u8_digits(s@.subrange(q as int, s@.len() as int)),
{
    let n = s.unicode_len();
    let (e, v) = scan_u8(s, q);
    proof {
        lemma_digit_run_end(s@, q as int);
    }
    if e == n {
        match v {
            Some(cnt) => {
                proof {
                    let tail = s@.subrange(q as int, n as int);
                    assert forall|k: int| 0 <= k < tail.len() implies is_digit(tail[k]) by {
                        assert(tail[k] == s@[k + q]);
                    }
                }
                Some(cnt)
            },
            None => None,
        }
    } else {
        // The character at e is not a digit but sits inside the tail.
        proof {
            assert(s@.subrange(q as int, n as int)[e - q] == s@[e as int]);
        }
        None
    }
}

/// Parses everything after the architecture name at `p`, when the next
/// character is a star: the `MultiCore` form.
fn parse_star_tail(s: &str, p: usize, Ghost(arch): Ghost<Arch>) -> (r: Option<(DeviceMode, u8)>)
    requires
        p < s@.len(),
        p as int == arch.canonical_chars().len(),
        s@.subrange(0, p as int) == arch.canonical_chars(),
        s@[p as int] == '*',
    ensures
        r matches Some(u) ==> unnamed_repr(s@, arch, u.0, u.1),
        r is None ==> forall|m: DeviceMode, c: u8| !unnamed_repr(s@, arch, m, c),
{
    let r = parse_count_from(s, p + 1);
    match r {
        Some(cnt) => {
            proof {
                assert(s@.subrange(p as int, p as int) =~= mode_tag(DeviceMode::MultiCore));
                assert(unnamed_repr(s@, arch, DeviceMode::MultiCore, cnt));
            }
            Some((DeviceMode::MultiCore, cnt))
        },
        None => {
            proof {
                lemma_paren_modes_need_paren(s@, arch, p as int);
            }
            None
        },
    }
}

/// When the character after the architecture name is not `(`, the `Single`
/// and `Fusion` forms are out.
proof fn lemma_paren_modes_need_paren(s: Seq<char>, arch: Arch, p: int)
    requires
        p < s.len(),
        p == arch.canonical_chars().len(),
        s[p] != '(',
    ensures
        forall|c: u8| !unnamed_repr(s, arch, DeviceMode::Single, c),
        forall|c: u8| !unnamed_repr(s, arch, DeviceMode::Fusion, c),
{
    assert forall|c: u8| !unnamed_repr(s, arch, DeviceMode::Single, c) by {
        if unnamed_repr(s, arch, DeviceMode::Single, c) {
            assert(s.subrange(p, p + 3)[0] == s[p]);
        }
    }
    assert forall|c: u8| !unnamed_repr(s, arch, DeviceMode::Fusion, c) by {
        if unnamed_repr(s, arch, DeviceMode::Fusion, c) {
            assert(s.subrange(p, p + 3)[0] == s[p]);
        }
    }
}

/// When the character after the architecture name is not `*`, the
/// `MultiCore` form is out.
proof fn lemma_multicore_needs_star(s: Seq<char>, arch: Arch, p: int)
    requires
        p < s.len(),
        p == arch.canonical_chars().len(),
        s[p] != '*',
    ensures
        forall|c: u8| !unnamed_repr(s, arch, DeviceMode::MultiCore, c),
{
}

/// Parses everything after the architecture name at `p`, when the next
/// character is a parenthesis: the `Single` and `Fusion` forms.
#[verifier::rlimit(50)]
fn parse_paren_tail(s: &str, p: usize, Ghost(arch): Ghost<Arch>) -> (r: Option<(DeviceMode, u8)>)
    requires
        p < s@.len(),
        p as int == arch.canonical_chars().len(),
        s@.subrange(0, p as int) == arch.canonical_chars(),
        s@[p as int] == '(',
    ensures
        r matches Some(u) ==> unnamed_repr(s@, arch, u.0, u.1),
        r is None ==> forall|m: DeviceMode, c: u8| !unnamed_repr(s@, arch, m, c),
{
    proof {
        lemma_multicore_needs_star(s@, arch, p as int);
    }
    let n = s.unicode_len();
    if p + 3 >= n {
        // Too short for a tag, a star and a digit.
        proof {
            assert forall|m: DeviceMode, c: u8| !unnamed_repr(s@, arch, m, c) by {
                if unnamed_repr(s@, arch, m, c) {
                    assert(m != DeviceMode::MultiCore);
                }
            }
        }
        return None;
    }
    let c1 = s.get_char(p + 1);
    let c2 = s.get_char(p + 2);
    let c3 = s.get_char(p + 3);
    if (c1 != '1' && c1 != '2') || c2 != ')' || c3 != '*' {
        proof {
            assert forall|m: DeviceMode, c: u8| !unnamed_repr(s@, arch, m, c) by {
                if unnamed_repr(s@, arch, m, c) {
                    let p2 = (arch.canonical_chars().len() + mode_tag(m).len()) as int;
                    match m {
                        DeviceMode::MultiCore => {},
                        DeviceMode::Single => {
                            assert(s@.subrange(p as int, p2)[1] == s@[p + 1]);
                            assert(s@.subrange(p as int, p2)[2] == s@[p + 2]);
                            assert(s@[p2] == '*');
                        },
                        DeviceMode::Fusion => {
                            assert(s@.subrange(p as int, p2)[1] == s@[p + 1]);
                            assert(s@.subrange(p as int, p2)[2] == s@[p + 2]);
                            assert(s@[p2] == '*');
                        },
                    }
                }
            }
        }
        return None;
    }
    let mode = if c1 == '1' {
        DeviceMode::Single
    } else {
        DeviceMode::Fusion
    };
    let r = parse_count_from(s, p + 4);
    match r {
        Some(cnt) => {
            proof {
                assert(s@.subrange(p as int, p + 3) =~= mode_tag(mode));
                assert(unnamed_repr(s@, arch, mode, cnt));
            }
            Some((mode, cnt))
        },
        None => {
            // The mode whose tag matches fails on the count; the other
            // paren mode fails on its exclusivity digit.
            proof {
                assert forall|m: DeviceMode, c: u8| !unnamed_repr(s@, arch, m, c) by {
                    if unnamed_repr(s@, arch, m, c) {
                        let p2 = (arch.canonical_chars().len() + mode_tag(m).len()) as int;
                        match m {
                            DeviceMode::MultiCore => {},
                            DeviceMode::Single => {
                                assert(s@.subrange(p as int, p2)[1] == s@[p + 1]);
                            },
                            DeviceMode::Fusion => {
                                assert(s@.subrange(p as int, p2)[1] == s@[p + 1]);
                            },
                        }
                    }
                }
            }
            None
        },
    }
}

/// Parses a whole string as the unnamed form `"<arch>[(<n>)]*<count>"`.
fn parse_unnamed(s: &str) -> (r: Option<(Arch, DeviceMode, u8)>)
    ensures
        r matches Some(u) ==> unnamed_repr(s@, u.0, u.1, u.2),
        r is None ==> forall|a: Arch, m: DeviceMode, c: u8| !unnamed_repr(s@, a, m, c),
{
    proof {
        reveal_strlit("warboy");
        reveal_strlit("warboy-b0");
        reveal_strlit("renegade");
        reveal_strlit("u250");
        assert(("warboy")@ =~= Arch::Warboy.canonical_chars());
        assert(("warboy-b0")@ =~= Arch::WarboyB0.canonical_chars());
        assert(("renegade")@ =~= Arch::Renegade.canonical_chars());
        assert(("u250")@ =~= Arch::U250.canonical_chars());
    }
    let n = s.unicode_len();
    let wb0 = has_prefix(s, "warboy-b0");
    let (arch, p): (Arch, usize) = if wb0 {
        (Arch::WarboyB0, 9)
    } else if has_prefix(s, "warboy") {
        (Arch::Warboy, 6)
    } else if has_prefix(s, "renegade") {
        (Arch::Renegade, 8)
    } else if has_prefix(s, "u250") {
        (Arch::U250, 4)
    } else {
        proof {
            assert forall|a: Arch, m: DeviceMode, c: u8| !unnamed_repr(s@, a, m, c) by {
                if unnamed_repr(s@, a, m, c) {
                    match a {
                        Arch::Warboy => {},
                        Arch::WarboyB0 => {},
                        Arch::Renegade => {},
                        Arch::U250 => {},
                    }
                }
            }
        }
        return None;
    };
    proof {
        lemma_arch_prefix_excludes(s@, arch);
        assert(p as int == arch.canonical_chars().len());
    }
    if p >= n {
        // Nothing after the architecture name.
        proof {
            assert forall|a: Arch, m: DeviceMode, c: u8| !unnamed_repr(s@, a, m, c) by {
                if unnamed_repr(s@, a, m, c) {
                    assert(a == arch);
                }
            }
        }
        return None;
    }
    let c0 = s.get_char(p);
    let tail = if c0 == '*' {
        parse_star_tail(s, p, Ghost(arch))
    } else if c0 == '(' {
        parse_paren_tail(s, p, Ghost(arch))
    } else {
        proof {
            lemma_multicore_needs_star(s@, arch, p as int);
            lemma_paren_modes_need_paren(s@, arch, p as int);
            assert forall|m: DeviceMode, c: u8| !unnamed_repr(s@, arch, m, c) by {
                match m {
                    DeviceMode::MultiCore => {},
                    DeviceMode::Single => {},
                    DeviceMode::Fusion => {},
                }
            }
        }
        None
    };
    match tail {
        Some((mode, cnt)) => Some((arch, mode, cnt)),
        None => {
            proof {
                assert forall|a: Arch, m: DeviceMode, c: u8| !unnamed_repr(s@, a, m, c) by {
                    if unnamed_repr(s@, a, m, c) {
                        assert(a == arch);
                    }
                }
            }
            None
        },
    }
}


impl DeviceConfig {
    /// Parses the text form of a request.
    ///
    /// The named form is tried first; if no split fits it, the unnamed form
    /// is tried; any input fitting neither — a grammar mismatch, or text
    /// left over after a match — is a [`DeviceError::ParseError`] carrying
    /// the offending input.
    pub fn from_text(s: &str) -> (r: Result<DeviceConfig, DeviceError>)
        ensures
            r matches Ok(DeviceConfig::Named { device_id, core_id }) ==> named_repr(
                s@,
                device_id,
                core_id,
            ) && core_id.wf(),
            r matches Ok(DeviceConfig::Unnamed { arch, mode, count }) ==> unnamed_repr(
                s@,
                arch,
                mode,
                count,
            ) && (forall|id: u8, cid: CoreId| !named_repr(s@, id, cid)),
            r is Err ==> (forall|id: u8, cid: CoreId| !named_repr(s@, id, cid)) && (forall|
                a: Arch,
                m: DeviceMode,
                c: u8,
            | !unnamed_repr(s@, a, m, c)),
            r matches Err(e) ==> e matches DeviceError::ParseError { input } && input@ == s@,
    {
        match parse_named(s) {
            Some((device_id, core_id)) => {
                proof {
                    lemma_named_repr_wf(s@, device_id, core_id);
                }
                Ok(DeviceConfig::Named { device_id, core_id })
            },
            None => match parse_unnamed(s) {
                Some((arch, mode, count)) => Ok(DeviceConfig::Unnamed { arch, mode, count }),
                None => Err(DeviceError::ParseError { input: String::from_str(s) }),
            },
        }
    }
}

impl core::str::FromStr for DeviceConfig {
    type Err = DeviceError;

    fn from_str(s: &str) -> Result<Self, Self::Err> {
        DeviceConfig::from_text(s)
    }
}

} // verus!
