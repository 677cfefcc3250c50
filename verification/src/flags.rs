//! Flag taxonomy: the closed set of row flags, normalisation of free-form
//! flag text, severity ranks, and the flag filter used by the query engine.

use vstd::prelude::*;

use crate::text::{chars_of, is_space_char, trim_chars, trim_seq};

verus! {

/// The closed set of row classifications; `Empty` is the absent flag.
#[derive(Clone, Copy, Debug, PartialEq, Eq, Structural)]
pub enum FlagKind {
    Empty,
    Safe,
    Suspicious,
    Critical,
}

/// The canonical text of each flag kind.
pub open spec fn flag_chars(k: FlagKind) -> Seq<char> {
    match k {
        FlagKind::Empty => Seq::empty(),
        FlagKind::Safe => seq!['s', 'a', 'f', 'e'],
        FlagKind::Suspicious => seq!['s', 'u', 's', 'p', 'i', 'c', 'i', 'o', 'u', 's'],
        FlagKind::Critical => seq!['c', 'r', 'i', 't', 'i', 'c', 'a', 'l'],
    }
}

/// ASCII lowering on code points: `A`..`Z` map to `a`..`z`.
pub open spec fn fold_u32(u: u32) -> u32 {
    if 0x41 <= u && u <= 0x5A {
        (u + 0x20) as u32
    } else {
        u
    }
}

/// `s` equals `kw` up to ASCII case.
pub open spec fn matches_ci(s: Seq<char>, kw: Seq<char>) -> bool {
    s.len() == kw.len() && forall|i: int|
        0 <= i < s.len() ==> fold_u32(s[i] as u32) == (kw[i] as u32)
}

/// Normalisation of free-form flag text: trim, then match the canonical
/// spellings (ASCII case-insensitively) and the legacy glyphs; anything else
/// is the absent flag.
pub open spec fn parse_flag(s: Seq<char>) -> FlagKind {
    let t = trim_seq(s);
    if matches_ci(t, flag_chars(FlagKind::Safe)) || t == seq!['\u{25EF}'] {
        FlagKind::Safe
    } else if matches_ci(t, flag_chars(FlagKind::Suspicious)) || t == seq!['?'] {
        FlagKind::Suspicious
    } else if matches_ci(t, flag_chars(FlagKind::Critical)) || t == seq!['\u{2717}'] {
        FlagKind::Critical
    } else {
        FlagKind::Empty
    }
}

/// The severity rank of a flag kind.
pub open spec fn flag_rank(k: FlagKind) -> u8 {
    match k {
        FlagKind::Empty => 0,
        FlagKind::Safe => 1,
        FlagKind::Suspicious => 2,
        FlagKind::Critical => 3,
    }
}

/// The rank of exact canonical flag text; anything else ranks zero.
pub open spec fn rank_of_chars(s: Seq<char>) -> u8 {
    if s == flag_chars(FlagKind::Critical) {
        3
    } else if s == flag_chars(FlagKind::Suspicious) {
        2
    } else if s == flag_chars(FlagKind::Safe) {
        1
    } else {
        0
    }
}

fn matches_kw_ci(t: &Vec<char>, kw: &Vec<char>) -> (r: bool)
    ensures
        r == matches_ci(t@, kw@),
{
    if t.len() != kw.len() {
        return false;
    }
    let n = t.len();
    let mut i: usize = 0;
    while i < n
        invariant
            n == t@.len(),
            n == kw@.len(),
            0 <= i <= n,
            forall|k: int| 0 <= k < i ==> fold_u32(t@[k] as u32) == (kw@[k] as u32),
        decreases n - i,
    {
        let u = t[i] as u32;
        let f = if 0x41 <= u && u <= 0x5A {
            u + 0x20
        } else {
            u
        };
        if f != kw[i] as u32 {
            return false;
        }
        i += 1;
    }
    true
}

fn is_glyph(t: &Vec<char>, g: char) -> (r: bool)
    ensures
        r == (t@ == seq![g]),
{
    if t.len() == 1 && t[0] == g {
        assert(t@ =~= seq![g]);
        true
    } else {
        assert(t@.len() == 1 && t@[0] == g ==> t@ =~= seq![g]);
        false
    }
}

/// Parses free-form flag text into a flag kind.
pub fn flag_kind_of(flag: &str) -> (k: FlagKind)
    ensures
        k == parse_flag(flag@),
{
    let cs = chars_of(flag);
    flag_kind_of_chars(&cs)
}

/// Parses free-form flag characters into a flag kind.
pub fn flag_kind_of_chars(cs: &Vec<char>) -> (k: FlagKind)
    ensures
        k == parse_flag(cs@),
{
    let t = trim_chars(cs);
    let safe = keyword_chars(FlagKind::Safe);
    let susp = keyword_chars(FlagKind::Suspicious);
    let crit = keyword_chars(FlagKind::Critical);
    if matches_kw_ci(&t, &safe) || is_glyph(&t, '\u{25EF}') {
        FlagKind::Safe
    } else if matches_kw_ci(&t, &susp) || is_glyph(&t, '?') {
        FlagKind::Suspicious
    } else if matches_kw_ci(&t, &crit) || is_glyph(&t, '\u{2717}') {
        FlagKind::Critical
    } else {
        FlagKind::Empty
    }
}

fn keyword_chars(k: FlagKind) -> (r: Vec<char>)
    ensures
        r@ == flag_chars(k),
{
    let s = flag_text(k);
    chars_of(s.as_str())
}

/// The canonical text of a flag kind as a fresh string.
pub fn flag_text(k: FlagKind) -> (r: String)
    ensures
        r@ == flag_chars(k),
{
    match k {
        FlagKind::Empty => {
            let r = String::new();
            assert(r@ =~= flag_chars(FlagKind::Empty));
            r
        },
        FlagKind::Safe => {
            proof {
                reveal_strlit("safe");
            }
            let r = String::from_str("safe");
            assert(r@ =~= flag_chars(FlagKind::Safe));
            r
        },
        FlagKind::Suspicious => {
            proof {
                reveal_strlit("suspicious");
            }
            let r = String::from_str("suspicious");
            assert(r@ =~= flag_chars(FlagKind::Suspicious));
            r
        },
        FlagKind::Critical => {
            proof {
                reveal_strlit("critical");
            }
            let r = String::from_str("critical");
            assert(r@ =~= flag_chars(FlagKind::Critical));
            r
        },
    }
}

/// Normalises free-form flag text to its canonical spelling, or to the empty
/// string when it names no flag.
pub fn normalize_flag_value(flag: &str) -> (r: String)
    ensures
        r@ == flag_chars(parse_flag(flag@)),
{
    let k = flag_kind_of(flag);
    flag_text(k)
}

/// The severity rank of exact canonical flag text.
pub fn severity_rank(value: &str) -> (r: u8)
    ensures
        r == rank_of_chars(value@),
{
    let cs = chars_of(value);
    let crit = keyword_chars(FlagKind::Critical);
    let susp = keyword_chars(FlagKind::Suspicious);
    let safe = keyword_chars(FlagKind::Safe);
    if crate::text::chars_eq(&cs, &crit) {
        3
    } else if crate::text::chars_eq(&cs, &susp) {
        2
    } else if crate::text::chars_eq(&cs, &safe) {
        1
    } else {
        0
    }
}

/// Canonical flag text parses back to its own kind, so normalisation is
/// idempotent and rank-preserving.
pub proof fn lemma_parse_canonical(k: FlagKind)
    ensures
        parse_flag(flag_chars(k)) == k,
{
    let s = flag_chars(k);
    assert(forall|i: int| 0 <= i < s.len() ==> !is_space_char(#[trigger] s[i]));
    lemma_trim_no_space(s);
    assert(trim_seq(s) == s);
    match k {
        FlagKind::Empty => {
            assert(!matches_ci(s, flag_chars(FlagKind::Safe)));
            assert(s.len() == 0);
        },
        FlagKind::Safe => {
            assert(matches_ci(s, flag_chars(FlagKind::Safe)));
        },
        FlagKind::Suspicious => {
            assert(matches_ci(s, flag_chars(FlagKind::Suspicious)));
            assert(!matches_ci(s, flag_chars(FlagKind::Safe)));
        },
        FlagKind::Critical => {
            assert(matches_ci(s, flag_chars(FlagKind::Critical)));
            assert(!matches_ci(s, flag_chars(FlagKind::Safe)));
            assert(!matches_ci(s, flag_chars(FlagKind::Suspicious)));
        },
    }
}

proof fn lemma_trim_no_space(s: Seq<char>)
    requires
        forall|i: int| 0 <= i < s.len() ==> !is_space_char(#[trigger] s[i]),
    ensures
        trim_seq(s) == s,
{
    crate::text::lemma_trim_fixed(s);
}

/// Normalising twice is the same as normalising once, and hence the rank of a
/// normalised value is stable under renormalisation.
pub proof fn lemma_normalize_idempotent(s: Seq<char>)
    ensures
        parse_flag(flag_chars(parse_flag(s))) == parse_flag(s),
        rank_of_chars(flag_chars(parse_flag(flag_chars(parse_flag(s))))) == rank_of_chars(
            flag_chars(parse_flag(s)),
        ),
{
    lemma_parse_canonical(parse_flag(s));
}

/// Rank of canonical text agrees with the rank of the kind.
pub proof fn lemma_rank_of_canonical(k: FlagKind)
    ensures
        rank_of_chars(flag_chars(k)) == flag_rank(k),
{
    assert(flag_chars(FlagKind::Empty).len() == 0);
    assert(flag_chars(FlagKind::Safe).len() == 4);
    assert(flag_chars(FlagKind::Suspicious).len() == 10);
    assert(flag_chars(FlagKind::Critical).len() == 8);
}

/// The flag filter: `all` and unknown filters admit anything, `none` admits
/// the absent flag, `priority` admits suspicious and critical, and a concrete
/// kind admits exact equality.
pub open spec fn spec_matches_flag_filter(cur: Seq<char>, filter: Seq<char>) -> bool {
    if filter == seq!['a', 'l', 'l'] {
        true
    } else if filter == seq!['n', 'o', 'n', 'e'] {
        cur.len() == 0
    } else if filter == seq!['p', 'r', 'i', 'o', 'r', 'i', 't', 'y'] {
        cur == flag_chars(FlagKind::Suspicious) || cur == flag_chars(FlagKind::Critical)
    } else if filter == flag_chars(FlagKind::Safe) || filter == flag_chars(FlagKind::Suspicious)
        || filter == flag_chars(FlagKind::Critical) {
        cur == filter
    } else {
        true
    }
}

fn lit_chars(which: u8) -> (r: Vec<char>)
    requires
        which < 2,
    ensures
        which == 0 ==> r@ == seq!['a', 'l', 'l'],
        which == 1 ==> r@ == seq!['n', 'o', 'n', 'e'],
{
    let mut r: Vec<char> = Vec::new();
    if which == 0 {
        r.push('a');
        r.push('l');
        r.push('l');
        assert(r@ =~= seq!['a', 'l', 'l']);
    } else {
        r.push('n');
        r.push('o');
        r.push('n');
        r.push('e');
        assert(r@ =~= seq!['n', 'o', 'n', 'e']);
    }
    r
}

fn priority_chars() -> (r: Vec<char>)
    ensures
        r@ == seq!['p', 'r', 'i', 'o', 'r', 'i', 't', 'y'],
{
    let mut r: Vec<char> = Vec::new();
    r.push('p');
    r.push('r');
    r.push('i');
    r.push('o');
    r.push('r');
    r.push('i');
    r.push('t');
    r.push('y');
    assert(r@ =~= seq!['p', 'r', 'i', 'o', 'r', 'i', 't', 'y']);
    r
}

/// Whether a (canonical) flag passes a flag filter.
pub fn matches_flag_filter(current_flag: &str, filter: &str) -> (r: bool)
    ensures
        r == spec_matches_flag_filter(current_flag@, filter@),
{
    let cur = chars_of(current_flag);
    let f = chars_of(filter);
    let all = lit_chars(0);
    let none = lit_chars(1);
    let priority = priority_chars();
    let safe = keyword_chars(FlagKind::Safe);
    let susp = keyword_chars(FlagKind::Suspicious);
    let crit = keyword_chars(FlagKind::Critical);
    if crate::text::chars_eq(&f, &all) {
        true
    } else if crate::text::chars_eq(&f, &none) {
        cur.len() == 0
    } else if crate::text::chars_eq(&f, &priority) {
        crate::text::chars_eq(&cur, &susp) || crate::text::chars_eq(&cur, &crit)
    } else if crate::text::chars_eq(&f, &safe) || crate::text::chars_eq(&f, &susp)
        || crate::text::chars_eq(&f, &crit) {
        crate::text::chars_eq(&cur, &f)
    } else {
        true
    }
}

/// Whether a flag kind's canonical text passes a flag filter.
pub fn filter_admits(k: FlagKind, filter: &str) -> (r: bool)
    ensures
        r == spec_matches_flag_filter(flag_chars(k), filter@),
{
    let text = flag_text(k);
    matches_flag_filter(text.as_str(), filter)
}

/// A per-row annotation: a flag value and an optional memo.
#[derive(Debug, Clone)]
pub struct FlagEntry {
    pub flag: String,
    pub memo: Option<String>,
}

} // verus!
