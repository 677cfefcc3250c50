//! Sorting for the row-query engine: sort keys extracted from a column's
//! rendered values, numeric-aware comparison, and a stable insertion sort
//! over row indices.
//!
//! A value sorts numerically when, after trimming and stripping thousands
//! separators (comma and no-break space), it matches `[+-]?` digits with at
//! most one decimal point and at least one digit; the comparison is then
//! exact decimal comparison. Anything else sorts as its lowercased text.
//! Missing values (null cells) sort greatest, the one consistent reading of
//! treating a missing value as positive infinity.

use vstd::prelude::*;

use crate::search::find_from;
use crate::text::{
    chars_of, lex_lt, lower_of, lowercase_chars, trim_chars, trim_seq,
};
use crate::value::{cell_search_chars, value_to_search_string, Cell, CellVal};

verus! {

/// A thousands separator stripped before numeric parsing.
pub open spec fn is_sep(c: char) -> bool {
    c == ',' || c == '\u{00A0}'
}

/// `s` with all separators removed, from position `i` on.
pub open spec fn strip_from(s: Seq<char>, i: int) -> Seq<char>
    decreases s.len() - i,
{
    if !(0 <= i < s.len()) {
        Seq::empty()
    } else if is_sep(s[i]) {
        strip_from(s, i + 1)
    } else {
        seq![s[i]] + strip_from(s, i + 1)
    }
}

/// `s` with all separators removed.
pub open spec fn strip_seps(s: Seq<char>) -> Seq<char> {
    strip_from(s, 0)
}

/// A decimal digit.
pub open spec fn is_digit(c: char) -> bool {
    '0' <= c && c <= '9'
}

/// All characters are decimal digits.
pub open spec fn all_digits(s: Seq<char>) -> bool {
    forall|i: int| 0 <= i < s.len() ==> is_digit(#[trigger] s[i])
}

/// Splits a numeric literal into sign, integer digits and fraction digits;
/// `None` when `s` is not a numeric literal.
pub open spec fn num_parts(s: Seq<char>) -> Option<(bool, Seq<char>, Seq<char>)> {
    let neg = s.len() > 0 && s[0] == '-';
    let signed = s.len() > 0 && (s[0] == '-' || s[0] == '+');
    let b = if signed {
        s.drop_first()
    } else {
        s
    };
    match find_from(b, '.', 0) {
        Option::None => {
            if b.len() > 0 && all_digits(b) {
                Option::Some((neg, b, Seq::empty()))
            } else {
                Option::None
            }
        },
        Option::Some(d) => {
            let ip = b.subrange(0, d);
            let fp = b.subrange(d + 1, b.len() as int);
            if ip.len() + fp.len() > 0 && all_digits(ip) && all_digits(fp) {
                Option::Some((neg, ip, fp))
            } else {
                Option::None
            }
        },
    }
}

/// Digits without leading zeros.
pub open spec fn strip_lead_zeros(s: Seq<char>) -> Seq<char>
    decreases s.len(),
{
    if s.len() > 0 && s[0] == '0' {
        strip_lead_zeros(s.drop_first())
    } else {
        s
    }
}

/// Digits without trailing zeros.
pub open spec fn strip_trail_zeros(s: Seq<char>) -> Seq<char>
    decreases s.len(),
{
    if s.len() > 0 && s.last() == '0' {
        strip_trail_zeros(s.drop_last())
    } else {
        s
    }
}

/// Canonical numeric triple: no leading integer zeros, no trailing fraction
/// zeros, and zero is never negative.
pub open spec fn canon_num(t: (bool, Seq<char>, Seq<char>)) -> (bool, Seq<char>, Seq<char>) {
    let ip = strip_lead_zeros(t.1);
    let fp = strip_trail_zeros(t.2);
    if ip.len() == 0 && fp.len() == 0 {
        (false, ip, fp)
    } else {
        (t.0, ip, fp)
    }
}

/// The sort key of one value.
pub enum KeyVal {
    Num(bool, Seq<char>, Seq<char>),
    Str(Seq<char>),
    Missing,
}

/// The sort key of row `row` of a column's cells: numeric when the stripped,
/// trimmed rendering parses as a decimal literal, textual otherwise, missing
/// for null cells and out-of-range rows.
pub open spec fn spec_sort_key(cells: Seq<CellVal>, row: int) -> KeyVal {
    if !(0 <= row < cells.len()) {
        KeyVal::Missing
    } else {
        match cell_search_chars(cells[row]) {
            Option::None => KeyVal::Missing,
            Option::Some(s) => {
                let p = strip_seps(trim_seq(s));
                match num_parts(p) {
                    Option::Some(t) => {
                        let c = canon_num(t);
                        KeyVal::Num(c.0, c.1, c.2)
                    },
                    Option::None => KeyVal::Str(lower_of(p)),
                }
            },
        }
    }
}

/// Fraction comparison, missing digits reading as zero; inputs carry no
/// trailing zeros.
pub open spec fn frac_lt(fa: Seq<char>, fb: Seq<char>) -> bool
    decreases fa.len() + fb.len(),
{
    if fb.len() == 0 {
        false
    } else if fa.len() == 0 {
        true
    } else if fa[0] != fb[0] {
        (fa[0] as u32) < (fb[0] as u32)
    } else {
        frac_lt(fa.drop_first(), fb.drop_first())
    }
}

/// Magnitude comparison of canonical numeric triples.
pub open spec fn mag_lt(a: (bool, Seq<char>, Seq<char>), b: (bool, Seq<char>, Seq<char>)) -> bool {
    if a.1.len() != b.1.len() {
        a.1.len() < b.1.len()
    } else if a.1 != b.1 {
        lex_lt(a.1, b.1)
    } else {
        frac_lt(a.2, b.2)
    }
}

/// Numeric order on canonical triples.
pub open spec fn num_lt(a: (bool, Seq<char>, Seq<char>), b: (bool, Seq<char>, Seq<char>)) -> bool {
    if a.0 != b.0 {
        a.0
    } else if a.0 {
        mag_lt((b.0, b.1, b.2), (a.0, a.1, a.2))
    } else {
        mag_lt((a.0, a.1, a.2), (b.0, b.1, b.2))
    }
}

/// The key order: numbers first (by value), then text (lexicographically on
/// the lowercased form), then missing values.
pub open spec fn key_lt(a: KeyVal, b: KeyVal) -> bool {
    match (a, b) {
        (KeyVal::Num(an, ai, af), KeyVal::Num(bn, bi, bf)) => num_lt((an, ai, af), (bn, bi, bf)),
        (KeyVal::Num(_, _, _), _) => true,
        (_, KeyVal::Num(_, _, _)) => false,
        (KeyVal::Str(a_s), KeyVal::Str(b_s)) => lex_lt(a_s, b_s),
        (KeyVal::Str(_), KeyVal::Missing) => true,
        (KeyVal::Missing, _) => false,
    }
}

/// The total strict order the sort uses on row indices: the key order (or
/// its reverse when descending), with ties broken by row position.
pub open spec fn full_lt(keys: Seq<KeyVal>, desc: bool, x: int, y: int) -> bool {
    let kx = keys[x];
    let ky = keys[y];
    let dir_lt = if desc {
        key_lt(ky, kx)
    } else {
        key_lt(kx, ky)
    };
    let dir_gt = if desc {
        key_lt(kx, ky)
    } else {
        key_lt(ky, kx)
    };
    dir_lt || (!dir_gt && x < y)
}

/// Inserts `x` into a sorted index list, before the first index it precedes.
pub open spec fn insert_one(keys: Seq<KeyVal>, desc: bool, sorted: Seq<int>, x: int) -> Seq<int>
    decreases sorted.len(),
{
    if sorted.len() == 0 {
        seq![x]
    } else if full_lt(keys, desc, x, sorted[0]) {
        seq![x] + sorted
    } else {
        seq![sorted[0]] + insert_one(keys, desc, sorted.drop_first(), x)
    }
}

/// The index permutation of `0..n` by insertion sort on the keys.
pub open spec fn sort_upto(keys: Seq<KeyVal>, desc: bool, n: int) -> Seq<int>
    decreases n,
{
    if n <= 0 {
        Seq::empty()
    } else {
        insert_one(keys, desc, sort_upto(keys, desc, n - 1), n - 1)
    }
}

/// The sorted row order over all keys.
pub open spec fn spec_sort_indices(keys: Seq<KeyVal>, desc: bool) -> Seq<int> {
    sort_upto(keys, desc, keys.len() as int)
}

// ---------------------------------------------------------------------------
// Executable keys.
// ---------------------------------------------------------------------------

/// A sort key as computed: numeric triple, lowercased text, or missing.
#[derive(Debug)]
pub enum SortKey {
    Num { neg: bool, ip: Vec<char>, fp: Vec<char> },
    Str(Vec<char>),
    Missing,
}

impl View for SortKey {
    type V = KeyVal;

    open spec fn view(&self) -> KeyVal {
        match self {
            SortKey::Num { neg, ip, fp } => KeyVal::Num(*neg, ip@, fp@),
            SortKey::Str(s) => KeyVal::Str(s@),
            SortKey::Missing => KeyVal::Missing,
        }
    }
}

/// The views of a key vector.
pub open spec fn keys_vals(s: Seq<SortKey>) -> Seq<KeyVal> {
    Seq::new(s.len(), |i: int| s[i]@)
}

fn strip_seps_exec(v: &Vec<char>) -> (r: Vec<char>)
    ensures
        r@ == strip_seps(v@),
{
    let n = v.len();
    let mut out: Vec<char> = Vec::new();
    let mut i: usize = 0;
    proof {
        assert(Seq::<char>::empty() + strip_from(v@, 0) =~= strip_from(v@, 0));
        assert(out@ =~= Seq::<char>::empty());
    }
    while i < n
        invariant
            n == v@.len(),
            0 <= i <= n,
            out@ + strip_from(v@, i as int) == strip_from(v@, 0),
        decreases n - i,
    {
        let c = v[i];
        let ghost before = out@;
        if !(c == ',' || c == '\u{00A0}') {
            out.push(c);
            proof {
                assert(out@ =~= before.push(c));
                assert(out@ + strip_from(v@, i as int + 1) =~= before + strip_from(v@, i as int));
            }
        }
        i += 1;
    }
    proof {
        assert(out@ + Seq::<char>::empty() =~= out@);
    }
    out
}

fn is_digit_exec(c: char) -> (r: bool)
    ensures
        r == is_digit(c),
{
    '0' <= c && c <= '9'
}

fn check_all_digits(v: &Vec<char>, from: usize, to: usize) -> (r: bool)
    requires
        from <= to <= v@.len(),
    ensures
        r == all_digits(v@.subrange(from as int, to as int)),
{
    let mut i: usize = from;
    while i < to
        invariant
            from <= i <= to <= v@.len(),
            forall|k: int| from <= k < i ==> is_digit(#[trigger] v@[k]),
        decreases to - i,
    {
        if !is_digit_exec(v[i]) {
            assert(v@.subrange(from as int, to as int)[i - from] == v@[i as int]);
            return false;
        }
        i += 1;
    }
    assert forall|k: int|
        0 <= k < v@.subrange(from as int, to as int).len() implies is_digit(
        #[trigger] v@.subrange(from as int, to as int)[k],
    ) by {
        assert(v@.subrange(from as int, to as int)[k] == v@[from + k]);
    }
    true
}

fn copy_digits(v: &Vec<char>, from: usize, to: usize) -> (r: Vec<char>)
    requires
        from <= to <= v@.len(),
    ensures
        r@ == v@.subrange(from as int, to as int),
{
    let mut r: Vec<char> = Vec::new();
    let mut i: usize = from;
    while i < to
        invariant
            from <= i <= to <= v@.len(),
            r@ == v@.subrange(from as int, i as int),
        decreases to - i,
    {
        r.push(v[i]);
        assert(v@.subrange(from as int, i as int).push(v@[i as int]) =~= v@.subrange(
            from as int,
            i + 1,
        ));
        i += 1;
    }
    r
}

fn strip_lead_zeros_exec(v: &Vec<char>) -> (r: Vec<char>)
    ensures
        r@ == strip_lead_zeros(v@),
{
    let n = v.len();
    let mut s: usize = 0;
    proof {
        assert(v@.subrange(0, n as int) =~= v@);
    }
    while s < n && v[s] == '0'
        invariant
            n == v@.len(),
            0 <= s <= n,
            strip_lead_zeros(v@.subrange(s as int, n as int)) == strip_lead_zeros(v@),
        decreases n - s,
    {
        proof {
            assert(v@.subrange(s as int, n as int).drop_first() =~= v@.subrange(s + 1, n as int));
        }
        s += 1;
    }
    proof {
        if s < n {
            assert(v@.subrange(s as int, n as int)[0] == v@[s as int]);
        }
        assert(strip_lead_zeros(v@.subrange(s as int, n as int)) == v@.subrange(
            s as int,
            n as int,
        ));
    }
    copy_digits(v, s, n)
}

fn strip_trail_zeros_exec(v: &Vec<char>) -> (r: Vec<char>)
    ensures
        r@ == strip_trail_zeros(v@),
{
    let n = v.len();
    let mut e: usize = n;
    proof {
        assert(v@.subrange(0, n as int) =~= v@);
    }
    while e > 0 && v[e - 1] == '0'
        invariant
            n == v@.len(),
            0 <= e <= n,
            strip_trail_zeros(v@.subrange(0, e as int)) == strip_trail_zeros(v@),
        decreases e,
    {
        proof {
            assert(v@.subrange(0, e as int).drop_last() =~= v@.subrange(0, e - 1));
            assert(v@.subrange(0, e as int).last() == v@[e - 1]);
        }
        e -= 1;
    }
    proof {
        if e > 0 {
            assert(v@.subrange(0, e as int).last() == v@[e - 1]);
        }
        assert(strip_trail_zeros(v@.subrange(0, e as int)) == v@.subrange(0, e as int));
    }
    copy_digits(v, 0, e)
}

/// Parses the prepared (trimmed, separator-stripped) characters as a decimal
/// literal and canonicalises, or reports that they are not numeric.
fn parse_num(p: &Vec<char>) -> (r: Option<(bool, Vec<char>, Vec<char>)>)
    ensures
        match r {
            Option::Some(t) => num_parts(p@) is Some && (t.0, t.1@, t.2@) == canon_num(
                num_parts(p@).unwrap(),
            ),
            Option::None => num_parts(p@) is None,
        },
{
    let n = p.len();
    let signed = n > 0 && (p[0] == '-' || p[0] == '+');
    let neg = n > 0 && p[0] == '-';
    let start: usize = if signed {
        1
    } else {
        0
    };
    let ghost b = if signed {
        p@.drop_first()
    } else {
        p@
    };
    proof {
        assert(b =~= p@.subrange(start as int, n as int));
    }
    let dot = crate::search::find_char_from(p, start, '.');
    match dot {
        Option::None => {
            proof {
                lemma_find_shift(p@, start as int, '.');
            }
            if n > start && check_all_digits(p, start, n) {
                let ip = copy_digits(p, start, n);
                proof {
                    assert(ip@ =~= b);
                }
                let ipz = strip_lead_zeros_exec(&ip);
                let fpz: Vec<char> = Vec::new();
                proof {
                    assert(fpz@ =~= Seq::<char>::empty());
                    assert(strip_trail_zeros(Seq::<char>::empty()) =~= Seq::<char>::empty());
                }
                if ipz.len() == 0 && fpz.len() == 0 {
                    Option::Some((false, ipz, fpz))
                } else {
                    Option::Some((neg, ipz, fpz))
                }
            } else {
                Option::None
            }
        },
        Option::Some(d) => {
            proof {
                lemma_find_shift(p@, start as int, '.');
            }
            let ghost dd = d - start;
            proof {
                assert(b.subrange(0, dd as int) =~= p@.subrange(start as int, d as int));
                assert(b.subrange(dd as int + 1, b.len() as int) =~= p@.subrange(
                    d as int + 1,
                    n as int,
                ));
            }
            let ok = (n - start > 1) && check_all_digits(p, start, d) && check_all_digits(
                p,
                d + 1,
                n,
            );
            if ok {
                let ip = copy_digits(p, start, d);
                let fp = copy_digits(p, d + 1, n);
                let ipz = strip_lead_zeros_exec(&ip);
                let fpz = strip_trail_zeros_exec(&fp);
                if ipz.len() == 0 && fpz.len() == 0 {
                    Option::Some((false, ipz, fpz))
                } else {
                    Option::Some((neg, ipz, fpz))
                }
            } else {
                Option::None
            }
        },
    }
}

proof fn lemma_find_shift(s: Seq<char>, start: int, c: char)
    requires
        0 <= start <= s.len(),
    ensures
        forall|j: int|
            start <= j < s.len() && #[trigger] s.subrange(start, s.len() as int)[j - start] == s[j]
                || true,
        find_from(s.subrange(start, s.len() as int), c, 0) == (match find_from(s, c, start) {
            Option::Some(j) => Option::Some(j - start),
            Option::None => Option::<int>::None,
        }),
    decreases s.len() - start,
{
    let sub = s.subrange(start, s.len() as int);
    lemma_find_sub(s, start, c, 0);
}

proof fn lemma_find_sub(s: Seq<char>, start: int, c: char, k: int)
    requires
        0 <= start <= s.len(),
        0 <= k <= s.len() - start,
    ensures
        find_from(s.subrange(start, s.len() as int), c, k) == (match find_from(s, c, start + k) {
            Option::Some(j) => Option::Some(j - start),
            Option::None => Option::<int>::None,
        }),
    decreases s.len() - start - k,
{
    let sub = s.subrange(start, s.len() as int);
    if k < sub.len() {
        assert(sub[k] == s[start + k]);
        if sub[k] != c {
            lemma_find_sub(s, start, c, k + 1);
        }
    }
}

/// The sort key of one cell.
pub fn extract_key(cell: &Cell) -> (r: SortKey)
    ensures
        r@ == (match cell_search_chars(cell@) {
            Option::None => KeyVal::Missing,
            Option::Some(s) => {
                let p = strip_seps(trim_seq(s));
                match num_parts(p) {
                    Option::Some(t) => {
                        let cn = canon_num(t);
                        KeyVal::Num(cn.0, cn.1, cn.2)
                    },
                    Option::None => KeyVal::Str(lower_of(p)),
                }
            },
        }),
{
    match value_to_search_string(cell) {
        Option::None => SortKey::Missing,
        Option::Some(s) => {
            let cs = chars_of(s.as_str());
            let trimmed = trim_chars(&cs);
            let p = strip_seps_exec(&trimmed);
            match parse_num(&p) {
                Option::Some(t) => SortKey::Num { neg: t.0, ip: t.1, fp: t.2 },
                Option::None => {
                    let lowered = lowercase_chars(&p);
                    SortKey::Str(lowered)
                },
            }
        },
    }
}

fn chars_digits_lt(a: &Vec<char>, b: &Vec<char>) -> (r: bool)
    ensures
        r == lex_lt(a@, b@),
{
    crate::text::chars_lex_lt(a, b)
}

fn frac_lt_exec(fa: &Vec<char>, fb: &Vec<char>) -> (r: bool)
    ensures
        r == frac_lt(fa@, fb@),
{
    let na = fa.len();
    let nb = fb.len();
    let mut i: usize = 0;
    proof {
        assert(fa@.skip(0) =~= fa@);
        assert(fb@.skip(0) =~= fb@);
    }
    loop
        invariant
            na == fa@.len(),
            nb == fb@.len(),
            0 <= i <= na,
            0 <= i <= nb,
            frac_lt(fa@, fb@) == frac_lt(fa@.skip(i as int), fb@.skip(i as int)),
        decreases na - i,
    {
        if i >= nb {
            return false;
        }
        if i >= na {
            return true;
        }
        let ca = fa[i];
        let cb = fb[i];
        if ca != cb {
            return (ca as u32) < (cb as u32);
        }
        proof {
            assert(fa@.skip(i as int).drop_first() =~= fa@.skip(i + 1));
            assert(fb@.skip(i as int).drop_first() =~= fb@.skip(i + 1));
        }
        i += 1;
    }
}

/// Whether key `a` orders strictly before key `b`.
pub fn key_lt_exec(a: &SortKey, b: &SortKey) -> (r: bool)
    ensures
        r == key_lt(a@, b@),
{
    match (a, b) {
        (SortKey::Num { neg: an, ip: ai, fp: af }, SortKey::Num { neg: bn, ip: bi, fp: bf }) => {
            if an != bn {
                *an
            } else {
                let (xa, xb) = if *an {
                    (b, a)
                } else {
                    (a, b)
                };
                match (xa, xb) {
                    (
                        SortKey::Num { neg: _, ip: xai, fp: xaf },
                        SortKey::Num { neg: _, ip: xbi, fp: xbf },
                    ) => {
                        if xai.len() != xbi.len() {
                            xai.len() < xbi.len()
                        } else if !crate::text::chars_eq(xai, xbi) {
                            chars_digits_lt(xai, xbi)
                        } else {
                            frac_lt_exec(xaf, xbf)
                        }
                    },
                    _ => false,
                }
            }
        },
        (SortKey::Num { .. }, _) => true,
        (_, SortKey::Num { .. }) => false,
        (SortKey::Str(sa), SortKey::Str(sb)) => crate::text::chars_lex_lt(sa, sb),
        (SortKey::Str(_), SortKey::Missing) => true,
        (SortKey::Missing, _) => false,
    }
}

fn full_lt_exec(keys: &Vec<SortKey>, desc: bool, x: usize, y: usize) -> (r: bool)
    requires
        x < keys@.len(),
        y < keys@.len(),
    ensures
        r == full_lt(keys_vals(keys@), desc, x as int, y as int),
{
    let dir_lt = if desc {
        key_lt_exec(&keys[y], &keys[x])
    } else {
        key_lt_exec(&keys[x], &keys[y])
    };
    let dir_gt = if desc {
        key_lt_exec(&keys[x], &keys[y])
    } else {
        key_lt_exec(&keys[y], &keys[x])
    };
    dir_lt || (!dir_gt && x < y)
}

/// The view of an index vector.
pub open spec fn idxs_view(s: Seq<usize>) -> Seq<int> {
    Seq::new(s.len(), |i: int| s[i] as int)
}

proof fn lemma_insert_one_at(keys: Seq<KeyVal>, desc: bool, s: Seq<int>, x: int, pos: int)
    requires
        0 <= pos <= s.len(),
        forall|k: int| 0 <= k < pos ==> !full_lt(keys, desc, x, s[k]),
        pos < s.len() ==> full_lt(keys, desc, x, s[pos]),
    ensures
        insert_one(keys, desc, s, x) == s.subrange(0, pos) + seq![x] + s.subrange(
            pos,
            s.len() as int,
        ),
    decreases s.len(),
{
    if s.len() == 0 {
        assert(insert_one(keys, desc, s, x) =~= s.subrange(0, 0) + seq![x] + s.subrange(0, 0));
    } else if pos == 0 {
        assert(insert_one(keys, desc, s, x) =~= s.subrange(0, 0) + seq![x] + s.subrange(
            0,
            s.len() as int,
        ));
    } else {
        assert(!full_lt(keys, desc, x, s[0]));
        lemma_insert_one_at(keys, desc, s.drop_first(), x, pos - 1);
        assert(s.drop_first().subrange(0, pos - 1) =~= s.subrange(1, pos));
        assert(s.drop_first().subrange(pos - 1, s.drop_first().len() as int) =~= s.subrange(
            pos,
            s.len() as int,
        ));
        assert(insert_one(keys, desc, s, x) =~= s.subrange(0, pos) + seq![x] + s.subrange(
            pos,
            s.len() as int,
        ));
    }
}

/// Sorts the row indices `0..keys.len()` stably by the key order.
pub fn sort_indices(keys: &Vec<SortKey>, desc: bool) -> (r: Vec<usize>)
    ensures
        idxs_view(r@) == spec_sort_indices(keys_vals(keys@), desc),
        r@.len() == keys@.len(),
        forall|k: int| 0 <= k < r@.len() ==> (#[trigger] r@[k]) < keys@.len(),
{
    let n = keys.len();
    let ghost kv = keys_vals(keys@);
    let mut out: Vec<usize> = Vec::new();
    let mut i: usize = 0;
    proof {
        assert(idxs_view(out@) =~= Seq::<int>::empty());
    }
    while i < n
        invariant
            n == keys@.len(),
            kv == keys_vals(keys@),
            0 <= i <= n,
            idxs_view(out@) == sort_upto(kv, desc, i as int),
            out@.len() == i,
            forall|k: int| 0 <= k < out@.len() ==> (#[trigger] out@[k]) < n,
        decreases n - i,
    {
        let m = out.len();
        let mut pos: usize = 0;
        while pos < m && !full_lt_exec(keys, desc, i, out[pos])
            invariant
                n == keys@.len(),
                kv == keys_vals(keys@),
                m == out@.len(),
                i < n,
                forall|k: int| 0 <= k < out@.len() ==> (#[trigger] out@[k]) < n,
                0 <= pos <= m,
                forall|k: int|
                    0 <= k < pos ==> !full_lt(kv, desc, i as int, #[trigger] idxs_view(out@)[k]),
            decreases m - pos,
        {
            proof {
                assert(idxs_view(out@)[pos as int] == out@[pos as int] as int);
            }
            pos += 1;
        }
        let ghost sorted = idxs_view(out@);
        proof {
            if pos < m {
                assert(sorted[pos as int] == out@[pos as int] as int);
            }
            lemma_insert_one_at(kv, desc, sorted, i as int, pos as int);
        }
        out.insert(pos, i);
        proof {
            assert(idxs_view(out@) =~= sorted.subrange(0, pos as int) + seq![i as int]
                + sorted.subrange(pos as int, sorted.len() as int));
        }
        i += 1;
    }
    out
}

} // verus!
