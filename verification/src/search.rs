//! The boolean search mini-language: tokenizer, postfix (RPN) conversion and
//! term collection.
//!
//! A query is lexed into parts (double quotes delimit phrases, `|` is OR and
//! a token boundary, whitespace separates parts), parts become tokens
//! (`col:text` scopes a term to a column, a leading `-` negates), a column
//! scope carries across OR operands, and implicit ANDs are inserted between
//! adjacent operands. Term texts and column names are lowercased with the
//! same Unicode lowering used for row text.

use vstd::prelude::*;

use crate::text::{
    chars_of, is_space, is_space_char, lower_of, lowercase_chars, string_from_chars, trim_chars,
    trim_seq,
};

verus! {

/// A token of the boolean search language.
#[derive(Debug)]
pub enum SearchToken {
    Term { col: Option<String>, text: String },
    QuotedTerm { col: Option<String>, text: String },
    And,
    Or,
    Not,
}

/// The mathematical shape of a token: texts as character sequences.
pub enum SpecToken {
    Term { col: Option<Seq<char>>, text: Seq<char> },
    QuotedTerm { col: Option<Seq<char>>, text: Seq<char> },
    And,
    Or,
    Not,
}

impl View for SearchToken {
    type V = SpecToken;

    open spec fn view(&self) -> SpecToken {
        match self {
            SearchToken::Term { col, text } => SpecToken::Term {
                col: match col {
                    Option::Some(c) => Option::Some(c@),
                    Option::None => Option::None,
                },
                text: text@,
            },
            SearchToken::QuotedTerm { col, text } => SpecToken::QuotedTerm {
                col: match col {
                    Option::Some(c) => Option::Some(c@),
                    Option::None => Option::None,
                },
                text: text@,
            },
            SearchToken::And => SpecToken::And,
            SearchToken::Or => SpecToken::Or,
            SearchToken::Not => SpecToken::Not,
        }
    }
}

/// The views of a token vector.
pub open spec fn tokens_view(s: Seq<SearchToken>) -> Seq<SpecToken> {
    Seq::new(s.len(), |i: int| s[i]@)
}

/// The view of an optional string.
pub open spec fn opt_chars(o: Option<String>) -> Option<Seq<char>> {
    match o {
        Option::Some(s) => Option::Some(s@),
        Option::None => Option::None,
    }
}

/// A token is an operand (a term of either shape).
pub open spec fn is_operand(t: SpecToken) -> bool {
    match t {
        SpecToken::Term { .. } => true,
        SpecToken::QuotedTerm { .. } => true,
        _ => false,
    }
}

// ---------------------------------------------------------------------------
// Stage 1: lexing into raw parts.
// ---------------------------------------------------------------------------

/// Appends the trimmed buffer as a part when it is not blank.
pub open spec fn spec_flush(
    acc: Seq<(Seq<char>, bool)>,
    buf: Seq<char>,
    quoted: bool,
) -> Seq<(Seq<char>, bool)> {
    if trim_seq(buf).len() > 0 {
        acc.push((trim_seq(buf), quoted))
    } else {
        acc
    }
}

/// The lexing state machine over the input characters. `in_q` tracks an open
/// double quote, `lwp` whether the previous character was a part-separating
/// pipe (runs of pipes collapse to one OR part).
pub open spec fn parts_from(
    s: Seq<char>,
    i: int,
    in_q: bool,
    lwp: bool,
    buf: Seq<char>,
    acc: Seq<(Seq<char>, bool)>,
) -> Seq<(Seq<char>, bool)>
    decreases s.len() - i,
{
    if !(0 <= i < s.len()) {
        spec_flush(acc, buf, in_q)
    } else {
        let c = s[i];
        if c == '"' {
            parts_from(s, i + 1, !in_q, false, Seq::empty(), spec_flush(acc, buf, in_q))
        } else if c == '|' && !in_q {
            if lwp {
                parts_from(s, i + 1, false, true, buf, acc)
            } else {
                parts_from(
                    s,
                    i + 1,
                    false,
                    true,
                    Seq::empty(),
                    spec_flush(acc, buf, false).push((seq!['|'], false)),
                )
            }
        } else if is_space_char(c) && !in_q {
            parts_from(s, i + 1, false, false, Seq::empty(), spec_flush(acc, buf, false))
        } else {
            parts_from(s, i + 1, in_q, false, buf.push(c), acc)
        }
    }
}

/// The raw `(text, quoted)` parts of a query string.
pub open spec fn spec_parts(s: Seq<char>) -> Seq<(Seq<char>, bool)> {
    parts_from(s, 0, false, false, Seq::empty(), Seq::empty())
}

/// The views of a part vector.
pub open spec fn parts_view(s: Seq<(Vec<char>, bool)>) -> Seq<(Seq<char>, bool)> {
    Seq::new(s.len(), |i: int| (s[i].0@, s[i].1))
}

fn flush_part(acc: &mut Vec<(Vec<char>, bool)>, buf: &Vec<char>, quoted: bool)
    ensures
        parts_view(final(acc)@) == spec_flush(parts_view(old(acc)@), buf@, quoted),
{
    let t = trim_chars(buf);
    if t.len() > 0 {
        let ghost before = parts_view(acc@);
        acc.push((t, quoted));
        proof {
            assert(parts_view(acc@) =~= before.push((trim_seq(buf@), quoted)));
        }
    }
}

fn lex_parts(s: &Vec<char>) -> (r: Vec<(Vec<char>, bool)>)
    ensures
        parts_view(r@) == spec_parts(s@),
{
    let n = s.len();
    let mut acc: Vec<(Vec<char>, bool)> = Vec::new();
    let mut buf: Vec<char> = Vec::new();
    let mut in_q: bool = false;
    let mut lwp: bool = false;
    let mut i: usize = 0;
    proof {
        assert(parts_view(acc@) =~= Seq::<(Seq<char>, bool)>::empty());
    }
    while i < n
        invariant
            n == s@.len(),
            0 <= i <= n,
            parts_from(s@, i as int, in_q, lwp, buf@, parts_view(acc@)) == spec_parts(s@),
        decreases n - i,
    {
        let c = s[i];
        if c == '"' {
            flush_part(&mut acc, &buf, in_q);
            buf = Vec::new();
            in_q = !in_q;
            lwp = false;
        } else if c == '|' && !in_q {
            if !lwp {
                flush_part(&mut acc, &buf, false);
                buf = Vec::new();
                let mut pipe: Vec<char> = Vec::new();
                pipe.push('|');
                let ghost before = parts_view(acc@);
                acc.push((pipe, false));
                proof {
                    assert(parts_view(acc@) =~= before.push((seq!['|'], false)));
                }
            }
            lwp = true;
        } else if is_space(c) && !in_q {
            flush_part(&mut acc, &buf, false);
            buf = Vec::new();
            lwp = false;
        } else {
            buf.push(c);
            lwp = false;
        }
        i += 1;
    }
    flush_part(&mut acc, &buf, in_q);
    acc
}

// ---------------------------------------------------------------------------
// Stage 2: mapping parts to raw tokens (texts not yet lowercased).
// ---------------------------------------------------------------------------

/// Index of the first occurrence of `c` in `s` at or after `i`.
pub open spec fn find_from(s: Seq<char>, c: char, i: int) -> Option<int>
    decreases s.len() - i,
{
    if !(0 <= i < s.len()) {
        Option::None
    } else if s[i] == c {
        Option::Some(i)
    } else {
        find_from(s, c, i + 1)
    }
}

/// The tokens of a single unmerged part.
pub open spec fn map_part(p: Seq<char>, quoted: bool) -> Seq<SpecToken> {
    if !quoted && p == seq!['|'] {
        seq![SpecToken::Or]
    } else if !quoted && p.len() > 1 && p[0] == '-' {
        let rest = p.drop_first();
        match find_from(rest, ':', 0) {
            Option::Some(j) => seq![
                SpecToken::Not,
                SpecToken::Term {
                    col: Option::Some(rest.subrange(0, j)),
                    text: rest.subrange(j + 1, rest.len() as int),
                },
            ],
            Option::None => seq![SpecToken::Not, SpecToken::Term { col: Option::None, text: rest }],
        }
    } else if !quoted {
        match find_from(p, ':', 0) {
            Option::Some(j) => seq![
                SpecToken::Term {
                    col: Option::Some(p.subrange(0, j)),
                    text: p.subrange(j + 1, p.len() as int),
                },
            ],
            Option::None => seq![SpecToken::Term { col: Option::None, text: p }],
        }
    } else {
        // Raw quoted parts never contain a double quote, so the only
        // column-scoped phrases are the merged `col:"phrase"` parts, which are
        // handled structurally in `map_parts`.
        seq![SpecToken::QuotedTerm { col: Option::None, text: p }]
    }
}

/// Maps parts to raw tokens; an unquoted part ending in `:` followed by a
/// quoted part merges into a column-scoped phrase.
pub open spec fn map_parts(ps: Seq<(Seq<char>, bool)>, i: int) -> Seq<SpecToken>
    decreases ps.len() - i,
{
    if !(0 <= i < ps.len()) {
        Seq::empty()
    } else {
        let p = ps[i].0;
        let q = ps[i].1;
        if !q && p.len() > 0 && p.last() == ':' && i + 1 < ps.len() && ps[i + 1].1 {
            seq![
                SpecToken::QuotedTerm { col: Option::Some(p.drop_last()), text: ps[i + 1].0 },
            ] + map_parts(ps, i + 2)
        } else {
            map_part(p, q) + map_parts(ps, i + 1)
        }
    }
}

pub(crate) fn find_char_from(v: &Vec<char>, from: usize, c: char) -> (r: Option<usize>)
    requires
        from <= v@.len(),
    ensures
        match r {
            Option::Some(j) => find_from(v@, c, from as int) == Option::Some(j as int) && from <= j
                < v@.len(),
            Option::None => find_from(v@, c, from as int) == Option::<int>::None,
        },
    decreases v@.len() - from,
{
    if from >= v.len() {
        Option::None
    } else if v[from] == c {
        Option::Some(from)
    } else {
        find_char_from(v, from + 1, c)
    }
}

fn copy_range(v: &Vec<char>, from: usize, to: usize) -> (r: Vec<char>)
    requires
        from <= to <= v@.len(),
    ensures
        r@ == v@.subrange(from as int, to as int),
{
    let mut r: Vec<char> = Vec::new();
    let mut i: usize = from;
    while i < to
        invariant
            from <= i <= to <= v@.len(),
            r@ == v@.subrange(from as int, i as int),
        decreases to - i,
    {
        r.push(v[i]);
        assert(v@.subrange(from as int, i as int).push(v@[i as int]) =~= v@.subrange(
            from as int,
            i + 1,
        ));
        i += 1;
    }
    r
}

/// Builds the one or two tokens of a single unmerged part.
fn map_one_part(p: &Vec<char>, quoted: bool, out: &mut Vec<SearchToken>)
    ensures
        tokens_view(final(out)@) == tokens_view(old(out)@) + map_part(p@, quoted),
{
    let ghost before = tokens_view(out@);
    if !quoted && p.len() == 1 && p[0] == '|' {
        proof {
            assert(p@ =~= seq!['|']);
        }
        out.push(SearchToken::Or);
        proof {
            assert(tokens_view(out@) =~= before + seq![SpecToken::Or]);
        }
        return ;
    }
    proof {
        if !quoted && p@ == seq!['|'] {
            assert(p@.len() == 1 && p@[0] == '|');
        }
    }
    if !quoted && p.len() > 1 && p[0] == '-' {
        let rest = copy_range(p, 1, p.len());
        proof {
            assert(rest@ =~= p@.drop_first());
        }
        out.push(SearchToken::Not);
        match find_char_from(&rest, 0, ':') {
            Option::Some(j) => {
                let col = copy_range(&rest, 0, j);
                let text = copy_range(&rest, j + 1, rest.len());
                out.push(
                    SearchToken::Term {
                        col: Option::Some(string_from_chars(&col)),
                        text: string_from_chars(&text),
                    },
                );
            },
            Option::None => {
                out.push(
                    SearchToken::Term { col: Option::None, text: string_from_chars(&rest) },
                );
            },
        }
        proof {
            assert(tokens_view(out@) =~= before + map_part(p@, quoted));
        }
        return ;
    }
    if !quoted {
        match find_char_from(p, 0, ':') {
            Option::Some(j) => {
                let col = copy_range(p, 0, j);
                let text = copy_range(p, j + 1, p.len());
                out.push(
                    SearchToken::Term {
                        col: Option::Some(string_from_chars(&col)),
                        text: string_from_chars(&text),
                    },
                );
            },
            Option::None => {
                let text = copy_range(p, 0, p.len());
                proof {
                    assert(text@ =~= p@);
                }
                out.push(
                    SearchToken::Term { col: Option::None, text: string_from_chars(&text) },
                );
            },
        }
        proof {
            assert(tokens_view(out@) =~= before + map_part(p@, quoted));
        }
        return ;
    }
    let text = copy_range(p, 0, p.len());
    proof {
        assert(text@ =~= p@);
    }
    out.push(SearchToken::QuotedTerm { col: Option::None, text: string_from_chars(&text) });
    proof {
        assert(tokens_view(out@) =~= before + map_part(p@, quoted));
    }
}

fn map_tokens(ps: &Vec<(Vec<char>, bool)>) -> (r: Vec<SearchToken>)
    ensures
        tokens_view(r@) == map_parts(parts_view(ps@), 0),
{
    let n = ps.len();
    let mut out: Vec<SearchToken> = Vec::new();
    let mut i: usize = 0;
    proof {
        assert(tokens_view(out@) =~= Seq::<SpecToken>::empty());
        assert(Seq::<SpecToken>::empty() + map_parts(parts_view(ps@), 0) =~= map_parts(
            parts_view(ps@),
            0,
        ));
    }
    while i < n
        invariant
            n == ps@.len(),
            0 <= i <= n,
            tokens_view(out@) + map_parts(parts_view(ps@), i as int) == map_parts(
                parts_view(ps@),
                0,
            ),
        decreases n - i,
    {
        let ghost pv = parts_view(ps@);
        let part = &ps[i];
        let plen = part.0.len();
        let merged: bool = !part.1 && plen > 0 && part.0[plen - 1] == ':' && i + 1 < n && ps[i
            + 1].1;
        if merged {
            let col = copy_range(&part.0, 0, plen - 1);
            proof {
                assert(col@ =~= pv[i as int].0.drop_last());
            }
            let phrase = copy_range(&ps[i + 1].0, 0, ps[i + 1].0.len());
            proof {
                assert(phrase@ =~= pv[i as int + 1].0);
            }
            let ghost before = tokens_view(out@);
            out.push(
                SearchToken::QuotedTerm {
                    col: Option::Some(string_from_chars(&col)),
                    text: string_from_chars(&phrase),
                },
            );
            proof {
                assert(tokens_view(out@) =~= before + seq![
                    SpecToken::QuotedTerm {
                        col: Option::Some(pv[i as int].0.drop_last()),
                        text: pv[i as int + 1].0,
                    },
                ]);
                assert(map_parts(pv, i as int) == seq![
                    SpecToken::QuotedTerm {
                        col: Option::Some(pv[i as int].0.drop_last()),
                        text: pv[i as int + 1].0,
                    },
                ] + map_parts(pv, i as int + 2));
                assert(tokens_view(out@) + map_parts(pv, i as int + 2) =~= before + map_parts(
                    pv,
                    i as int,
                ));
            }
            i += 2;
        } else {
            let ghost before = tokens_view(out@);
            let ptext = copy_range(&part.0, 0, plen);
            proof {
                assert(ptext@ =~= pv[i as int].0);
            }
            map_one_part(&ptext, part.1, &mut out);
            proof {
                assert(map_parts(pv, i as int) == map_part(pv[i as int].0, pv[i as int].1)
                    + map_parts(pv, i as int + 1));
                assert(tokens_view(out@) + map_parts(pv, i as int + 1) =~= before + map_parts(
                    pv,
                    i as int,
                ));
            }
            i += 1;
        }
    }
    proof {
        assert(tokens_view(out@) + Seq::<SpecToken>::empty() =~= tokens_view(out@));
    }
    out
}

// ---------------------------------------------------------------------------
// Stage 3: column carry-over across OR.
// ---------------------------------------------------------------------------

/// Carries the column of the last operand across an OR onto the next operand
/// that lacks an explicit column. The carry survives NOT, and is cleared by
/// AND and by any operand that is consumed — whether it took the carry or
/// already specified a column of its own.
pub open spec fn carry_from(
    ts: Seq<SpecToken>,
    i: int,
    last: Option<Seq<char>>,
    carry: Option<Seq<char>>,
    acc: Seq<SpecToken>,
) -> Seq<SpecToken>
    decreases ts.len() - i,
{
    if !(0 <= i < ts.len()) {
        acc
    } else {
        match ts[i] {
            SpecToken::Term { col, text } => {
                if col is None {
                    carry_from(
                        ts,
                        i + 1,
                        carry,
                        Option::None,
                        acc.push(SpecToken::Term { col: carry, text }),
                    )
                } else {
                    carry_from(
                        ts,
                        i + 1,
                        col,
                        Option::None,
                        acc.push(SpecToken::Term { col, text }),
                    )
                }
            },
            SpecToken::QuotedTerm { col, text } => {
                if col is None {
                    carry_from(
                        ts,
                        i + 1,
                        carry,
                        Option::None,
                        acc.push(SpecToken::QuotedTerm { col: carry, text }),
                    )
                } else {
                    carry_from(
                        ts,
                        i + 1,
                        col,
                        Option::None,
                        acc.push(SpecToken::QuotedTerm { col, text }),
                    )
                }
            },
            SpecToken::Or => carry_from(ts, i + 1, last, last, acc.push(SpecToken::Or)),
            SpecToken::And => carry_from(ts, i + 1, last, Option::None, acc.push(SpecToken::And)),
            SpecToken::Not => carry_from(ts, i + 1, last, carry, acc.push(SpecToken::Not)),
        }
    }
}

fn clone_opt_string(o: &Option<String>) -> (r: Option<String>)
    ensures
        opt_chars(r) == opt_chars(*o),
{
    match o {
        Option::Some(s) => Option::Some(s.clone()),
        Option::None => Option::None,
    }
}

fn carry_columns(ts: &Vec<SearchToken>) -> (r: Vec<SearchToken>)
    ensures
        tokens_view(r@) == carry_from(
            tokens_view(ts@),
            0,
            Option::None,
            Option::None,
            Seq::empty(),
        ),
{
    let n = ts.len();
    let mut out: Vec<SearchToken> = Vec::new();
    let mut last: Option<String> = Option::None;
    let mut carry: Option<String> = Option::None;
    let mut i: usize = 0;
    proof {
        assert(tokens_view(out@) =~= Seq::<SpecToken>::empty());
    }
    while i < n
        invariant
            n == ts@.len(),
            0 <= i <= n,
            carry_from(
                tokens_view(ts@),
                i as int,
                opt_chars(last),
                opt_chars(carry),
                tokens_view(out@),
            ) == carry_from(tokens_view(ts@), 0, Option::None, Option::None, Seq::empty()),
        decreases n - i,
    {
        let ghost tv = tokens_view(ts@);
        let ghost before = tokens_view(out@);
        match &ts[i] {
            SearchToken::Term { col, text } => {
                match col {
                    Option::None => {
                        let newcol = clone_opt_string(&carry);
                        last = clone_opt_string(&carry);
                        out.push(SearchToken::Term { col: newcol, text: text.clone() });
                        proof {
                            assert(tokens_view(out@) =~= before.push(
                                SpecToken::Term { col: opt_chars(carry), text: text@ },
                            ));
                        }
                        carry = Option::None;
                    },
                    Option::Some(c) => {
                        last = Option::Some(c.clone());
                        out.push(
                            SearchToken::Term { col: Option::Some(c.clone()), text: text.clone() },
                        );
                        proof {
                            assert(tokens_view(out@) =~= before.push(
                                SpecToken::Term { col: Option::Some(c@), text: text@ },
                            ));
                        }
                        carry = Option::None;
                    },
                }
            },
            SearchToken::QuotedTerm { col, text } => {
                match col {
                    Option::None => {
                        let newcol = clone_opt_string(&carry);
                        last = clone_opt_string(&carry);
                        out.push(SearchToken::QuotedTerm { col: newcol, text: text.clone() });
                        proof {
                            assert(tokens_view(out@) =~= before.push(
                                SpecToken::QuotedTerm { col: opt_chars(carry), text: text@ },
                            ));
                        }
                        carry = Option::None;
                    },
                    Option::Some(c) => {
                        last = Option::Some(c.clone());
                        out.push(
                            SearchToken::QuotedTerm {
                                col: Option::Some(c.clone()),
                                text: text.clone(),
                            },
                        );
                        proof {
                            assert(tokens_view(out@) =~= before.push(
                                SpecToken::QuotedTerm { col: Option::Some(c@), text: text@ },
                            ));
                        }
                        carry = Option::None;
                    },
                }
            },
            SearchToken::Or => {
                carry = clone_opt_string(&last);
                out.push(SearchToken::Or);
                proof {
                    assert(tokens_view(out@) =~= before.push(SpecToken::Or));
                }
            },
            SearchToken::And => {
                carry = Option::None;
                out.push(SearchToken::And);
                proof {
                    assert(tokens_view(out@) =~= before.push(SpecToken::And));
                }
            },
            SearchToken::Not => {
                out.push(SearchToken::Not);
                proof {
                    assert(tokens_view(out@) =~= before.push(SpecToken::Not));
                }
            },
        }
        i += 1;
    }
    out
}

// ---------------------------------------------------------------------------
// Stage 4: implicit AND insertion.
// ---------------------------------------------------------------------------

/// Inserts AND between an operand and a following operand or NOT.
pub open spec fn with_and(ts: Seq<SpecToken>, i: int) -> Seq<SpecToken>
    decreases ts.len() - i,
{
    if !(0 <= i < ts.len()) {
        Seq::empty()
    } else {
        let ins: Seq<SpecToken> = if i + 1 < ts.len() && is_operand(ts[i]) && (is_operand(
            ts[i + 1],
        ) || ts[i + 1] is Not) {
            seq![SpecToken::And]
        } else {
            Seq::empty()
        };
        seq![ts[i]] + ins + with_and(ts, i + 1)
    }
}

/// Whether a token is an operand (a term of either shape).
pub fn is_operand_token(t: &SearchToken) -> (r: bool)
    ensures
        r == is_operand(t@),
{
    match t {
        SearchToken::Term { .. } => true,
        SearchToken::QuotedTerm { .. } => true,
        _ => false,
    }
}

fn token_is_not(t: &SearchToken) -> (r: bool)
    ensures
        r == (t@ is Not),
{
    match t {
        SearchToken::Not => true,
        _ => false,
    }
}

/// Copies a token, preserving its view.
pub fn clone_token(t: &SearchToken) -> (r: SearchToken)
    ensures
        r@ == t@,
{
    match t {
        SearchToken::Term { col, text } => SearchToken::Term {
            col: clone_opt_string(col),
            text: text.clone(),
        },
        SearchToken::QuotedTerm { col, text } => SearchToken::QuotedTerm {
            col: clone_opt_string(col),
            text: text.clone(),
        },
        SearchToken::And => SearchToken::And,
        SearchToken::Or => SearchToken::Or,
        SearchToken::Not => SearchToken::Not,
    }
}

fn insert_ands(ts: &Vec<SearchToken>) -> (r: Vec<SearchToken>)
    ensures
        tokens_view(r@) == with_and(tokens_view(ts@), 0),
{
    let n = ts.len();
    let mut out: Vec<SearchToken> = Vec::new();
    let mut i: usize = 0;
    proof {
        assert(tokens_view(out@) =~= Seq::<SpecToken>::empty());
        assert(Seq::<SpecToken>::empty() + with_and(tokens_view(ts@), 0) =~= with_and(
            tokens_view(ts@),
            0,
        ));
    }
    while i < n
        invariant
            n == ts@.len(),
            0 <= i <= n,
            tokens_view(out@) + with_and(tokens_view(ts@), i as int) == with_and(
                tokens_view(ts@),
                0,
            ),
        decreases n - i,
    {
        let ghost tv = tokens_view(ts@);
        let ghost before = tokens_view(out@);
        out.push(clone_token(&ts[i]));
        let ins: bool = i + 1 < n && is_operand_token(&ts[i]) && (is_operand_token(&ts[i + 1])
            || token_is_not(&ts[i + 1]));
        if ins {
            out.push(SearchToken::And);
            proof {
                assert(tokens_view(out@) =~= before + seq![tv[i as int], SpecToken::And]);
                assert(tokens_view(out@) + with_and(tv, i as int + 1) =~= before + with_and(
                    tv,
                    i as int,
                ));
            }
        } else {
            proof {
                assert(tokens_view(out@) =~= before + seq![tv[i as int]]);
                assert(seq![tv[i as int]] + Seq::<SpecToken>::empty() + with_and(tv, i as int + 1)
                    =~= seq![tv[i as int]] + with_and(tv, i as int + 1));
                assert(tokens_view(out@) + with_and(tv, i as int + 1) =~= before + with_and(
                    tv,
                    i as int,
                ));
            }
        }
        i += 1;
    }
    proof {
        assert(tokens_view(out@) + Seq::<SpecToken>::empty() =~= tokens_view(out@));
    }
    out
}

// ---------------------------------------------------------------------------
// Stage 5: lowercasing.
// ---------------------------------------------------------------------------

/// Lowercases the column and text of a token with the Unicode lowering.
pub open spec fn lower_token(t: SpecToken) -> SpecToken {
    match t {
        SpecToken::Term { col, text } => SpecToken::Term {
            col: match col {
                Option::Some(c) => Option::Some(lower_of(c)),
                Option::None => Option::None,
            },
            text: lower_of(text),
        },
        SpecToken::QuotedTerm { col, text } => SpecToken::QuotedTerm {
            col: match col {
                Option::Some(c) => Option::Some(lower_of(c)),
                Option::None => Option::None,
            },
            text: lower_of(text),
        },
        other => other,
    }
}

/// Lowercases every token.
pub open spec fn lower_tokens(ts: Seq<SpecToken>) -> Seq<SpecToken> {
    Seq::new(ts.len(), |i: int| lower_token(ts[i]))
}

fn lower_string(s: &String) -> (r: String)
    ensures
        r@ == lower_of(s@),
{
    let cs = chars_of(s.as_str());
    let lowered = lowercase_chars(&cs);
    string_from_chars(&lowered)
}

fn lower_all_tokens(ts: &Vec<SearchToken>) -> (r: Vec<SearchToken>)
    ensures
        tokens_view(r@) == lower_tokens(tokens_view(ts@)),
{
    let n = ts.len();
    let mut out: Vec<SearchToken> = Vec::new();
    let mut i: usize = 0;
    while i < n
        invariant
            n == ts@.len(),
            0 <= i <= n,
            tokens_view(out@) == lower_tokens(tokens_view(ts@)).subrange(0, i as int),
        decreases n - i,
    {
        let ghost before = tokens_view(out@);
        let t = match &ts[i] {
            SearchToken::Term { col, text } => {
                let newcol = match col {
                    Option::Some(c) => Option::Some(lower_string(c)),
                    Option::None => Option::None,
                };
                SearchToken::Term { col: newcol, text: lower_string(text) }
            },
            SearchToken::QuotedTerm { col, text } => {
                let newcol = match col {
                    Option::Some(c) => Option::Some(lower_string(c)),
                    Option::None => Option::None,
                };
                SearchToken::QuotedTerm { col: newcol, text: lower_string(text) }
            },
            SearchToken::And => SearchToken::And,
            SearchToken::Or => SearchToken::Or,
            SearchToken::Not => SearchToken::Not,
        };
        proof {
            assert(t@ == lower_token(tokens_view(ts@)[i as int]));
        }
        out.push(t);
        proof {
            assert(tokens_view(out@) =~= before.push(lower_token(tokens_view(ts@)[i as int])));
            assert(before.push(lower_token(tokens_view(ts@)[i as int])) =~= lower_tokens(
                tokens_view(ts@),
            ).subrange(0, i + 1));
        }
        i += 1;
    }
    proof {
        assert(lower_tokens(tokens_view(ts@)).subrange(0, n as int) =~= lower_tokens(
            tokens_view(ts@),
        ));
    }
    out
}

// ---------------------------------------------------------------------------
// The tokenizer.
// ---------------------------------------------------------------------------

/// The raw token stream of a query, before lowercasing.
pub open spec fn spec_tokenize_raw(s: Seq<char>) -> Seq<SpecToken> {
    with_and(
        carry_from(map_parts(spec_parts(s), 0), 0, Option::None, Option::None, Seq::empty()),
        0,
    )
}

/// The token stream of a query: lexed, merged, column-carried, AND-inserted,
/// and lowercased.
pub open spec fn spec_tokenize(s: Seq<char>) -> Seq<SpecToken> {
    lower_tokens(spec_tokenize_raw(s))
}

/// Tokenizes a search query of the boolean mini-language.
pub fn tokenize_search_query(input: &str) -> (r: Vec<SearchToken>)
    ensures
        tokens_view(r@) == spec_tokenize(input@),
{
    let cs = chars_of(input);
    let parts = lex_parts(&cs);
    let raw = map_tokens(&parts);
    let carried = carry_columns(&raw);
    let anded = insert_ands(&carried);
    lower_all_tokens(&anded)
}

// ---------------------------------------------------------------------------
// Rendering tokens back to query text.
// ---------------------------------------------------------------------------

/// The text of one token: terms render as `text` or `col:text` (quoted terms
/// in double quotes), AND as a space, OR as a pipe, NOT as a hyphen glued to
/// the operand that follows it.
pub open spec fn render_token(t: SpecToken) -> Seq<char> {
    match t {
        SpecToken::Term { col, text } => match col {
            Option::Some(c) => c + seq![':'] + text,
            Option::None => text,
        },
        SpecToken::QuotedTerm { col, text } => match col {
            Option::Some(c) => c + seq![':', '"'] + text + seq!['"'],
            Option::None => seq!['"'] + text + seq!['"'],
        },
        SpecToken::And => seq![' '],
        SpecToken::Or => seq!['|'],
        SpecToken::Not => seq!['-'],
    }
}

/// A token stream rendered back to query text.
pub open spec fn spec_render(ts: Seq<SpecToken>, i: int) -> Seq<char>
    decreases ts.len() - i,
{
    if !(0 <= i < ts.len()) {
        Seq::empty()
    } else {
        render_token(ts[i]) + spec_render(ts, i + 1)
    }
}

/// Renders a token stream back into query text.
pub fn render_tokens(tokens: &Vec<SearchToken>) -> (r: String)
    ensures
        r@ == spec_render(tokens_view(tokens@), 0),
{
    let ghost tv = tokens_view(tokens@);
    let n = tokens.len();
    let mut out: Vec<char> = Vec::new();
    let mut i: usize = 0;
    proof {
        assert(out@ =~= Seq::<char>::empty());
        assert(Seq::<char>::empty() + spec_render(tv, 0) =~= spec_render(tv, 0));
    }
    while i < n
        invariant
            n == tokens@.len(),
            tv == tokens_view(tokens@),
            0 <= i <= n,
            out@ + spec_render(tv, i as int) == spec_render(tv, 0),
        decreases n - i,
    {
        let ghost before = out@;
        match &tokens[i] {
            SearchToken::Term { col, text } => {
                match col {
                    Option::Some(c) => {
                        let cs = chars_of(c.as_str());
                        crate::text::push_all(&mut out, &cs);
                        out.push(':');
                    },
                    Option::None => {},
                }
                let tcs = chars_of(text.as_str());
                crate::text::push_all(&mut out, &tcs);
            },
            SearchToken::QuotedTerm { col, text } => {
                match col {
                    Option::Some(c) => {
                        let cs = chars_of(c.as_str());
                        crate::text::push_all(&mut out, &cs);
                        out.push(':');
                    },
                    Option::None => {},
                }
                out.push('"');
                let tcs = chars_of(text.as_str());
                crate::text::push_all(&mut out, &tcs);
                out.push('"');
            },
            SearchToken::And => {
                out.push(' ');
            },
            SearchToken::Or => {
                out.push('|');
            },
            SearchToken::Not => {
                out.push('-');
            },
        }
        proof {
            assert(out@ =~= before + render_token(tv[i as int]));
            assert(out@ + spec_render(tv, i as int + 1) =~= before + spec_render(tv, i as int));
        }
        i += 1;
    }
    proof {
        assert(out@ + Seq::<char>::empty() =~= out@);
    }
    string_from_chars(&out)
}

// ---------------------------------------------------------------------------
// Postfix (RPN) conversion: shunting-yard without parentheses.
// ---------------------------------------------------------------------------

/// Operator precedence: NOT binds tightest, then AND, then OR; operands rank
/// zero.
pub open spec fn prec(t: SpecToken) -> int {
    match t {
        SpecToken::Not => 3,
        SpecToken::And => 2,
        SpecToken::Or => 1,
        _ => 0,
    }
}

/// Pops operators of higher precedence (or equal, for left-associative
/// operators) from the stack onto the output.
pub open spec fn rpn_pop(
    ops: Seq<SpecToken>,
    out: Seq<SpecToken>,
    p: int,
    right: bool,
) -> (Seq<SpecToken>, Seq<SpecToken>)
    decreases ops.len(),
{
    if ops.len() == 0 {
        (ops, out)
    } else {
        let top = ops.last();
        let pop = if right {
            p < prec(top)
        } else {
            p <= prec(top)
        };
        if pop {
            rpn_pop(ops.drop_last(), out.push(top), p, right)
        } else {
            (ops, out)
        }
    }
}

/// Drains the remaining operator stack onto the output.
pub open spec fn rpn_drain(ops: Seq<SpecToken>, out: Seq<SpecToken>) -> Seq<SpecToken>
    decreases ops.len(),
{
    if ops.len() == 0 {
        out
    } else {
        rpn_drain(ops.drop_last(), out.push(ops.last()))
    }
}

/// The shunting-yard pass over the token stream.
pub open spec fn rpn_from(
    ts: Seq<SpecToken>,
    i: int,
    ops: Seq<SpecToken>,
    out: Seq<SpecToken>,
) -> Seq<SpecToken>
    decreases ts.len() - i,
{
    if !(0 <= i < ts.len()) {
        rpn_drain(ops, out)
    } else {
        let t = ts[i];
        if is_operand(t) {
            rpn_from(ts, i + 1, ops, out.push(t))
        } else {
            let popped = rpn_pop(ops, out, prec(t), t is Not);
            rpn_from(ts, i + 1, popped.0.push(t), popped.1)
        }
    }
}

/// The postfix form of a token stream.
pub open spec fn spec_rpn(ts: Seq<SpecToken>) -> Seq<SpecToken> {
    rpn_from(ts, 0, Seq::empty(), Seq::empty())
}

fn prec_of(t: &SearchToken) -> (r: u8)
    ensures
        r as int == prec(t@),
{
    match t {
        SearchToken::Not => 3,
        SearchToken::And => 2,
        SearchToken::Or => 1,
        _ => 0,
    }
}

/// Converts a token stream to postfix by the shunting-yard method.
pub fn to_rpn(tokens: &Vec<SearchToken>) -> (r: Vec<SearchToken>)
    ensures
        tokens_view(r@) == spec_rpn(tokens_view(tokens@)),
{
    let n = tokens.len();
    let mut out: Vec<SearchToken> = Vec::new();
    let mut ops: Vec<SearchToken> = Vec::new();
    let mut i: usize = 0;
    proof {
        assert(tokens_view(out@) =~= Seq::<SpecToken>::empty());
        assert(tokens_view(ops@) =~= Seq::<SpecToken>::empty());
    }
    while i < n
        invariant
            n == tokens@.len(),
            0 <= i <= n,
            rpn_from(tokens_view(tokens@), i as int, tokens_view(ops@), tokens_view(out@))
                == spec_rpn(tokens_view(tokens@)),
        decreases n - i,
    {
        let ghost tv = tokens_view(tokens@);
        let t = &tokens[i];
        if is_operand_token(t) {
            let ghost before = tokens_view(out@);
            out.push(clone_token(t));
            proof {
                assert(tokens_view(out@) =~= before.push(tv[i as int]));
            }
        } else {
            let p_cur = prec_of(t);
            let right = token_is_not(t);
            let ghost ops_enter = tokens_view(ops@);
            let ghost out_enter = tokens_view(out@);
            loop
                invariant
                    p_cur as int == prec(tv[i as int]),
                    right == (tv[i as int] is Not),
                    0 <= i < tv.len(),
                    rpn_pop(tokens_view(ops@), tokens_view(out@), p_cur as int, right) == rpn_pop(
                        ops_enter,
                        out_enter,
                        p_cur as int,
                        right,
                    ),
                    rpn_from(tv, i as int, ops_enter, out_enter) == spec_rpn(tv),
                ensures
                    rpn_pop(tokens_view(ops@), tokens_view(out@), p_cur as int, right) == rpn_pop(
                        ops_enter,
                        out_enter,
                        p_cur as int,
                        right,
                    ),
                    rpn_pop(tokens_view(ops@), tokens_view(out@), p_cur as int, right) == (
                        tokens_view(ops@),
                        tokens_view(out@),
                    ),
                decreases ops@.len(),
            {
                let ghost cur_ops = tokens_view(ops@);
                let ghost cur_out = tokens_view(out@);
                if ops.len() == 0 {
                    break ;
                }
                let p_top = prec_of(&ops[ops.len() - 1]);
                let should_pop = if right {
                    p_cur < p_top
                } else {
                    p_cur <= p_top
                };
                if !should_pop {
                    break ;
                }
                let top = ops.pop().unwrap();
                let ghost before_out = tokens_view(out@);
                out.push(top);
                proof {
                    assert(tokens_view(ops@) =~= cur_ops.drop_last());
                    assert(tokens_view(out@) =~= cur_out.push(cur_ops.last()));
                }
            }
            proof {
                let cur_ops = tokens_view(ops@);
                let cur_out = tokens_view(out@);
                assert(rpn_pop(cur_ops, cur_out, p_cur as int, right) == (cur_ops, cur_out));
            }
            let ghost ops_before_push = tokens_view(ops@);
            ops.push(clone_token(t));
            proof {
                assert(tokens_view(ops@) =~= ops_before_push.push(tv[i as int]));
            }
        }
        i += 1;
    }
    let ghost tv = tokens_view(tokens@);
    let mut j: usize = ops.len();
    while j > 0
        invariant
            j == ops@.len(),
            rpn_drain(tokens_view(ops@), tokens_view(out@)) == spec_rpn(tv),
        decreases j,
    {
        let ghost cur_ops = tokens_view(ops@);
        let ghost cur_out = tokens_view(out@);
        let top = ops.pop().unwrap();
        out.push(top);
        j -= 1;
        proof {
            assert(tokens_view(ops@) =~= cur_ops.drop_last());
            assert(tokens_view(out@) =~= cur_out.push(cur_ops.last()));
        }
    }
    out
}

// ---------------------------------------------------------------------------
// Term collection.
// ---------------------------------------------------------------------------

/// A term key: an optional column scope and the term text.
pub open spec fn keys_view(s: Seq<(Option<String>, String)>) -> Seq<(Option<Seq<char>>, Seq<char>)> {
    Seq::new(s.len(), |i: int| (opt_chars(s[i].0), s[i].1@))
}

/// The views of a string vector.
pub open spec fn strs_view(s: Seq<String>) -> Seq<Seq<char>> {
    Seq::new(s.len(), |i: int| s[i]@)
}

/// The deduplicated keys of the non-empty-text terms of a token stream, in
/// first-occurrence order.
pub open spec fn keys_from(
    ts: Seq<SpecToken>,
    i: int,
    acc: Seq<(Option<Seq<char>>, Seq<char>)>,
) -> Seq<(Option<Seq<char>>, Seq<char>)>
    decreases ts.len() - i,
{
    if !(0 <= i < ts.len()) {
        acc
    } else {
        let next = match ts[i] {
            SpecToken::Term { col, text } => {
                if text.len() > 0 && !acc.contains((col, text)) {
                    acc.push((col, text))
                } else {
                    acc
                }
            },
            SpecToken::QuotedTerm { col, text } => {
                if text.len() > 0 && !acc.contains((col, text)) {
                    acc.push((col, text))
                } else {
                    acc
                }
            },
            _ => acc,
        };
        keys_from(ts, i + 1, next)
    }
}

/// The deduplicated column scopes of the terms of a token stream, in
/// first-occurrence order.
pub open spec fn cols_from(ts: Seq<SpecToken>, i: int, acc: Seq<Seq<char>>) -> Seq<Seq<char>>
    decreases ts.len() - i,
{
    if !(0 <= i < ts.len()) {
        acc
    } else {
        let next = match ts[i] {
            SpecToken::Term { col: Option::Some(c), .. } => {
                if !acc.contains(c) {
                    acc.push(c)
                } else {
                    acc
                }
            },
            SpecToken::QuotedTerm { col: Option::Some(c), .. } => {
                if !acc.contains(c) {
                    acc.push(c)
                } else {
                    acc
                }
            },
            _ => acc,
        };
        cols_from(ts, i + 1, next)
    }
}

/// String equality through views.
pub fn str_eq(a: &String, b: &String) -> (r: bool)
    ensures
        r == (a@ == b@),
{
    let ca = chars_of(a.as_str());
    let cb = chars_of(b.as_str());
    crate::text::chars_eq(&ca, &cb)
}

fn opt_str_eq(a: &Option<String>, b: &Option<String>) -> (r: bool)
    ensures
        r == (opt_chars(*a) == opt_chars(*b)),
{
    match (a, b) {
        (Option::None, Option::None) => true,
        (Option::Some(x), Option::Some(y)) => str_eq(x, y),
        _ => false,
    }
}

fn keys_contain(acc: &Vec<(Option<String>, String)>, col: &Option<String>, text: &String) -> (r:
    bool)
    ensures
        r == keys_view(acc@).contains((opt_chars(*col), text@)),
{
    let n = acc.len();
    let mut i: usize = 0;
    while i < n
        invariant
            n == acc@.len(),
            0 <= i <= n,
            forall|k: int| 0 <= k < i ==> keys_view(acc@)[k] != (opt_chars(*col), text@),
        decreases n - i,
    {
        if opt_str_eq(&acc[i].0, col) && str_eq(&acc[i].1, text) {
            assert(keys_view(acc@)[i as int] == (opt_chars(*col), text@));
            return true;
        }
        i += 1;
    }
    assert(forall|k: int|
        0 <= k < keys_view(acc@).len() ==> keys_view(acc@)[k] != (opt_chars(*col), text@));
    false
}

fn strs_contain(acc: &Vec<String>, s: &String) -> (r: bool)
    ensures
        r == strs_view(acc@).contains(s@),
{
    let n = acc.len();
    let mut i: usize = 0;
    while i < n
        invariant
            n == acc@.len(),
            0 <= i <= n,
            forall|k: int| 0 <= k < i ==> strs_view(acc@)[k] != s@,
        decreases n - i,
    {
        if str_eq(&acc[i], s) {
            assert(strs_view(acc@)[i as int] == s@);
            return true;
        }
        i += 1;
    }
    false
}

/// Collects the deduplicated `(column, text)` keys of the non-empty terms of
/// a token stream, and the deduplicated column scopes it references.
pub fn collect_terms(tokens: &Vec<SearchToken>) -> (r: (
    Vec<(Option<String>, String)>,
    Vec<String>,
))
    ensures
        keys_view(r.0@) == keys_from(tokens_view(tokens@), 0, Seq::empty()),
        strs_view(r.1@) == cols_from(tokens_view(tokens@), 0, Seq::empty()),
{
    let n = tokens.len();
    let mut keys: Vec<(Option<String>, String)> = Vec::new();
    let mut cols: Vec<String> = Vec::new();
    let mut i: usize = 0;
    proof {
        assert(keys_view(keys@) =~= Seq::<(Option<Seq<char>>, Seq<char>)>::empty());
        assert(strs_view(cols@) =~= Seq::<Seq<char>>::empty());
    }
    while i < n
        invariant
            n == tokens@.len(),
            0 <= i <= n,
            keys_from(tokens_view(tokens@), i as int, keys_view(keys@)) == keys_from(
                tokens_view(tokens@),
                0,
                Seq::empty(),
            ),
            cols_from(tokens_view(tokens@), i as int, strs_view(cols@)) == cols_from(
                tokens_view(tokens@),
                0,
                Seq::empty(),
            ),
        decreases n - i,
    {
        let ghost tv = tokens_view(tokens@);
        match &tokens[i] {
            SearchToken::Term { col, text } => {
                if text.unicode_len() > 0 && !keys_contain(&keys, col, text) {
                    let ghost before = keys_view(keys@);
                    keys.push((clone_opt_string(col), text.clone()));
                    proof {
                        assert(keys_view(keys@) =~= before.push((opt_chars(*col), text@)));
                    }
                }
                if let Option::Some(c) = col {
                    if !strs_contain(&cols, c) {
                        let ghost before = strs_view(cols@);
                        cols.push(c.clone());
                        proof {
                            assert(strs_view(cols@) =~= before.push(c@));
                        }
                    }
                }
            },
            SearchToken::QuotedTerm { col, text } => {
                if text.unicode_len() > 0 && !keys_contain(&keys, col, text) {
                    let ghost before = keys_view(keys@);
                    keys.push((clone_opt_string(col), text.clone()));
                    proof {
                        assert(keys_view(keys@) =~= before.push((opt_chars(*col), text@)));
                    }
                }
                if let Option::Some(c) = col {
                    if !strs_contain(&cols, c) {
                        let ghost before = strs_view(cols@);
                        cols.push(c.clone());
                        proof {
                            assert(strs_view(cols@) =~= before.push(c@));
                        }
                    }
                }
            },
            _ => {},
        }
        i += 1;
    }
    (keys, cols)
}

} // verus!
