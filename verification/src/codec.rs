//! The IOC CSV format: a `flag,tag,query` header and one three-field record
//! per rule. The writer quotes a field only when it holds a comma, quote or
//! line break (doubling embedded quotes); the reader accepts quoted and bare
//! fields, drops the header, normalises flags, trims tags and queries, and
//! drops rules with blank queries.

use vstd::prelude::*;

use crate::error::AppError;
use crate::flags::{flag_text, parse_flag};
use crate::ioc::{iocs_view, norm_iocs, IocEntry};
use crate::text::{chars_of, push_all, string_from_chars, trim_chars, trim_seq};

verus! {

/// A field body with every double quote doubled.
pub open spec fn esc(s: Seq<char>) -> Seq<char>
    decreases s.len(),
{
    if s.len() == 0 {
        Seq::empty()
    } else {
        (if s[0] == '"' {
            seq!['"', '"']
        } else {
            seq![s[0]]
        }) + esc(s.drop_first())
    }
}

/// A field must be quoted when it holds a comma, a quote or a line break.
pub open spec fn needs_quote(s: Seq<char>) -> bool {
    exists|i: int|
        0 <= i < s.len() && (s[i] == ',' || s[i] == '"' || s[i] == '\n' || s[i] == '\r')
}

/// A written field: quoted with the body escaped when it needs quoting, bare
/// otherwise.
pub open spec fn field_text(s: Seq<char>) -> Seq<char> {
    if needs_quote(s) {
        seq!['"'] + esc(s) + seq!['"']
    } else {
        s
    }
}

/// A written record line.
pub open spec fn line_text(e: (Seq<char>, Seq<char>, Seq<char>)) -> Seq<char> {
    field_text(e.0) + seq![','] + field_text(e.1) + seq![','] + field_text(e.2) + seq!['\n']
}

/// The header line.
pub open spec fn header_chars() -> Seq<char> {
    seq!['f', 'l', 'a', 'g', ',', 't', 'a', 'g', ',', 'q', 'u', 'e', 'r', 'y', '\n']
}

/// The written record lines of a rule list.
pub open spec fn csv_body(entries: Seq<(Seq<char>, Seq<char>, Seq<char>)>, j: int) -> Seq<char>
    decreases entries.len() - j,
{
    if !(0 <= j < entries.len()) {
        Seq::empty()
    } else {
        line_text(entries[j]) + csv_body(entries, j + 1)
    }
}

/// The full written file: header plus one line per rule.
pub open spec fn spec_write_ioc_csv(entries: Seq<(Seq<char>, Seq<char>, Seq<char>)>) -> Seq<char> {
    header_chars() + csv_body(entries, 0)
}

// ---------------------------------------------------------------------------
// Parsing.
// ---------------------------------------------------------------------------

/// Parses the remainder of a quoted field from `i`; doubled quotes read as
/// one, a lone quote closes the field. `None` means the quote never closes.
pub open spec fn parse_quoted(s: Seq<char>, i: int, acc: Seq<char>) -> Option<(Seq<char>, int)>
    decreases s.len() - i,
{
    if !(0 <= i < s.len()) {
        Option::None
    } else if s[i] == '"' {
        if i + 1 < s.len() && s[i + 1] == '"' {
            parse_quoted(s, i + 2, acc.push('"'))
        } else {
            Option::Some((acc, i + 1))
        }
    } else {
        parse_quoted(s, i + 1, acc.push(s[i]))
    }
}

/// Parses a bare field: everything up to a comma, newline or the end.
pub open spec fn parse_bare(s: Seq<char>, i: int, acc: Seq<char>) -> (Seq<char>, int)
    decreases s.len() - i,
{
    if !(0 <= i < s.len()) {
        (acc, if i < 0 {
            0
        } else {
            i
        })
    } else if s[i] == ',' || s[i] == '\n' {
        (acc, i)
    } else {
        parse_bare(s, i + 1, acc.push(s[i]))
    }
}

/// Parses one field starting at `i`.
pub open spec fn parse_field(s: Seq<char>, i: int) -> Option<(Seq<char>, int)> {
    if 0 <= i < s.len() && s[i] == '"' {
        parse_quoted(s, i + 1, Seq::empty())
    } else {
        Option::Some(parse_bare(s, i, Seq::empty()))
    }
}

/// Parses one three-field record ending in a newline or the end of input.
pub open spec fn parse_record(s: Seq<char>, i: int) -> Option<
    ((Seq<char>, Seq<char>, Seq<char>), int),
> {
    match parse_field(s, i) {
        Option::None => Option::None,
        Option::Some((f1, p1)) => {
            if !(0 <= p1 < s.len() && s[p1] == ',') {
                Option::None
            } else {
                match parse_field(s, p1 + 1) {
                    Option::None => Option::None,
                    Option::Some((f2, p2)) => {
                        if !(0 <= p2 < s.len() && s[p2] == ',') {
                            Option::None
                        } else {
                            match parse_field(s, p2 + 1) {
                                Option::None => Option::None,
                                Option::Some((f3, p3)) => {
                                    if p3 == s.len() {
                                        Option::Some(((f1, f2, f3), p3))
                                    } else if 0 <= p3 < s.len() && s[p3] == '\n' {
                                        Option::Some(((f1, f2, f3), p3 + 1))
                                    } else {
                                        Option::None
                                    }
                                },
                            }
                        }
                    },
                }
            }
        },
    }
}

/// Parses all records until the end of input.
pub open spec fn parse_records(s: Seq<char>, i: int) -> Option<
    Seq<(Seq<char>, Seq<char>, Seq<char>)>,
>
    decreases s.len() - i,
{
    if !(0 <= i < s.len()) {
        Option::Some(Seq::empty())
    } else {
        match parse_record(s, i) {
            Option::None => Option::None,
            Option::Some((rec, ni)) => {
                if ni <= i {
                    Option::None
                } else {
                    match parse_records(s, ni) {
                        Option::None => Option::None,
                        Option::Some(rest) => Option::Some(seq![rec] + rest),
                    }
                }
            },
        }
    }
}

/// The parsed rules of a file: records after the header, flags normalised,
/// tags and queries trimmed, blank queries dropped. `None` is a parse error.
pub open spec fn spec_read_ioc_csv(s: Seq<char>) -> Option<
    Seq<(Seq<char>, Seq<char>, Seq<char>)>,
> {
    match parse_records(s, 0) {
        Option::None => Option::None,
        Option::Some(recs) => {
            if recs.len() == 0 {
                Option::Some(Seq::empty())
            } else {
                Option::Some(norm_iocs(recs.drop_first(), 0))
            }
        },
    }
}

// ---------------------------------------------------------------------------
// Executable writer.
// ---------------------------------------------------------------------------

fn field_needs_quote(cs: &Vec<char>) -> (r: bool)
    ensures
        r == needs_quote(cs@),
{
    let n = cs.len();
    let mut i: usize = 0;
    while i < n
        invariant
            n == cs@.len(),
            0 <= i <= n,
            forall|k: int|
                0 <= k < i ==> !((#[trigger] cs@[k]) == ',' || cs@[k] == '"' || cs@[k] == '\n'
                    || cs@[k] == '\r'),
        decreases n - i,
    {
        let c = cs[i];
        if c == ',' || c == '"' || c == '\n' || c == '\r' {
            return true;
        }
        i += 1;
    }
    false
}

fn push_field(out: &mut Vec<char>, field: &String)
    ensures
        final(out)@ == old(out)@ + field_text(field@),
{
    let cs = chars_of(field.as_str());
    let n = cs.len();
    if !field_needs_quote(&cs) {
        push_all(out, &cs);
        return ;
    }
    out.push('"');
    let ghost base = out@;
    let mut i: usize = 0;
    proof {
        assert(base + esc_from(cs@, 0) =~= base + esc_from(cs@, 0));
    }
    while i < n
        invariant
            n == cs@.len(),
            0 <= i <= n,
            out@ + esc_from(cs@, i as int) == base + esc_from(cs@, 0),
        decreases n - i,
    {
        let c = cs[i];
        let ghost before = out@;
        if c == '"' {
            out.push('"');
            out.push('"');
            proof {
                assert(out@ =~= before + seq!['"', '"']);
                assert(out@ + esc_from(cs@, i as int + 1) =~= before + esc_from(cs@, i as int));
            }
        } else {
            out.push(c);
            proof {
                assert(out@ =~= before + seq![cs@[i as int]]);
                assert(out@ + esc_from(cs@, i as int + 1) =~= before + esc_from(cs@, i as int));
            }
        }
        i += 1;
    }
    proof {
        assert(esc_from(cs@, n as int) =~= Seq::<char>::empty());
        assert(out@ + Seq::<char>::empty() =~= out@);
        assert(out@ == base + esc_from(cs@, 0));
        lemma_esc_from(cs@, 0);
        assert(cs@.skip(0) =~= cs@);
        assert(esc_from(cs@, 0) == esc(cs@));
    }
    out.push('"');
    proof {
        assert(out@ =~= old(out)@ + field_text(field@));
    }
}

/// `esc` written as an index recursion.
pub open spec fn esc_from(s: Seq<char>, i: int) -> Seq<char>
    decreases s.len() - i,
{
    if !(0 <= i < s.len()) {
        Seq::empty()
    } else {
        (if s[i] == '"' {
            seq!['"', '"']
        } else {
            seq![s[i]]
        }) + esc_from(s, i + 1)
    }
}

proof fn lemma_esc_from(s: Seq<char>, i: int)
    requires
        0 <= i <= s.len(),
    ensures
        esc_from(s, i) == esc(s.skip(i)),
    decreases s.len() - i,
{
    if i < s.len() {
        lemma_esc_from(s, i + 1);
        assert(s.skip(i).drop_first() =~= s.skip(i + 1));
        assert(s.skip(i)[0] == s[i]);
        if i == 0 {
            assert(s.skip(0) =~= s);
        }
    } else {
        assert(s.skip(i) =~= Seq::<char>::empty());
    }
    if i == 0 {
        assert(s.skip(0) =~= s);
    }
}

/// Writes the rules as IOC CSV text.
pub fn write_ioc_csv(entries: &Vec<IocEntry>) -> (r: String)
    ensures
        r@ == spec_write_ioc_csv(iocs_view(entries@)),
{
    let ghost ev = iocs_view(entries@);
    let mut out: Vec<char> = Vec::new();
    out.push('f');
    out.push('l');
    out.push('a');
    out.push('g');
    out.push(',');
    out.push('t');
    out.push('a');
    out.push('g');
    out.push(',');
    out.push('q');
    out.push('u');
    out.push('e');
    out.push('r');
    out.push('y');
    out.push('\n');
    proof {
        assert(out@ =~= header_chars());
    }
    let n = entries.len();
    let mut j: usize = 0;
    proof {
        assert(header_chars() + csv_body(ev, 0) =~= out@ + csv_body(ev, 0));
    }
    while j < n
        invariant
            n == entries@.len(),
            ev == iocs_view(entries@),
            0 <= j <= n,
            out@ + csv_body(ev, j as int) == header_chars() + csv_body(ev, 0),
        decreases n - j,
    {
        let ghost before = out@;
        push_field(&mut out, &entries[j].flag);
        out.push(',');
        push_field(&mut out, &entries[j].tag);
        out.push(',');
        push_field(&mut out, &entries[j].query);
        out.push('\n');
        proof {
            assert(out@ =~= before + line_text(ev[j as int]));
            assert(out@ + csv_body(ev, j as int + 1) =~= before + csv_body(ev, j as int));
        }
        j += 1;
    }
    proof {
        assert(out@ + Seq::<char>::empty() =~= out@);
    }
    string_from_chars(&out)
}

// ---------------------------------------------------------------------------
// Executable reader.
// ---------------------------------------------------------------------------

fn parse_quoted_exec(s: &Vec<char>, i: usize, acc: Vec<char>) -> (r: Option<(Vec<char>, usize)>)
    requires
        i <= s@.len(),
    ensures
        match r {
            Option::Some(p) => parse_quoted(s@, i as int, acc@) == Option::Some(
                (p.0@, p.1 as int),
            ) && p.1 <= s@.len(),
            Option::None => parse_quoted(s@, i as int, acc@) is None,
        },
    decreases s@.len() - i,
{
    if i >= s.len() {
        Option::None
    } else if s[i] == '"' {
        if i + 1 < s.len() && s[i + 1] == '"' {
            let mut acc2 = acc;
            acc2.push('"');
            parse_quoted_exec(s, i + 2, acc2)
        } else {
            Option::Some((acc, i + 1))
        }
    } else {
        let c = s[i];
        let mut acc2 = acc;
        acc2.push(c);
        parse_quoted_exec(s, i + 1, acc2)
    }
}

fn parse_bare_exec(s: &Vec<char>, i: usize, acc: Vec<char>) -> (r: (Vec<char>, usize))
    requires
        i <= s@.len(),
    ensures
        parse_bare(s@, i as int, acc@) == (r.0@, r.1 as int),
        r.1 <= s@.len(),
    decreases s@.len() - i,
{
    if i >= s.len() {
        (acc, i)
    } else if s[i] == ',' || s[i] == '\n' {
        (acc, i)
    } else {
        let c = s[i];
        let mut acc2 = acc;
        acc2.push(c);
        parse_bare_exec(s, i + 1, acc2)
    }
}

fn parse_field_exec(s: &Vec<char>, i: usize) -> (r: Option<(Vec<char>, usize)>)
    requires
        i <= s@.len(),
    ensures
        match r {
            Option::Some(p) => parse_field(s@, i as int) == Option::Some((p.0@, p.1 as int))
                && p.1 <= s@.len(),
            Option::None => parse_field(s@, i as int) is None,
        },
{
    if i < s.len() && s[i] == '"' {
        parse_quoted_exec(s, i + 1, Vec::new())
    } else {
        let p = parse_bare_exec(s, i, Vec::new());
        Option::Some(p)
    }
}

fn parse_record_exec(s: &Vec<char>, i: usize) -> (r: Option<(Vec<char>, Vec<char>, Vec<char>, usize)>)
    requires
        i <= s@.len(),
    ensures
        match r {
            Option::Some(p) => parse_record(s@, i as int) == Option::Some(
                ((p.0@, p.1@, p.2@), p.3 as int),
            ) && p.3 <= s@.len(),
            Option::None => parse_record(s@, i as int) is None,
        },
{
    let f1 = parse_field_exec(s, i);
    match f1 {
        Option::None => Option::None,
        Option::Some((t1, p1)) => {
            if !(p1 < s.len() && s[p1] == ',') {
                Option::None
            } else {
                let f2 = parse_field_exec(s, p1 + 1);
                match f2 {
                    Option::None => Option::None,
                    Option::Some((t2, p2)) => {
                        if !(p2 < s.len() && s[p2] == ',') {
                            Option::None
                        } else {
                            let f3 = parse_field_exec(s, p2 + 1);
                            match f3 {
                                Option::None => Option::None,
                                Option::Some((t3, p3)) => {
                                    if p3 == s.len() {
                                        Option::Some((t1, t2, t3, p3))
                                    } else if s[p3] == '\n' {
                                        Option::Some((t1, t2, t3, p3 + 1))
                                    } else {
                                        Option::None
                                    }
                                },
                            }
                        }
                    },
                }
            }
        },
    }
}

/// Parses IOC CSV text into normalised rules: the header record is skipped,
/// flags are normalised, tags and queries trimmed, and rules with blank
/// queries dropped. A malformed file (an unclosed quote, a record without
/// three fields) is an error.
pub fn read_ioc_csv(text: &str) -> (r: Result<Vec<IocEntry>, AppError>)
    ensures
        match r {
            Result::Ok(v) => spec_read_ioc_csv(text@) == Option::Some(iocs_view(v@)),
            Result::Err(_) => spec_read_ioc_csv(text@) is None,
        },
{
    let s = chars_of(text);
    let n = s.len();
    let mut recs: Vec<(Vec<char>, Vec<char>, Vec<char>)> = Vec::new();
    let mut i: usize = 0;
    let mut failed: bool = false;
    proof {
        assert(recs_view(recs@) =~= Seq::<(Seq<char>, Seq<char>, Seq<char>)>::empty());
        assert(parse_records(s@, 0) == (match parse_records(s@, 0) {
            Option::None => Option::<Seq<(Seq<char>, Seq<char>, Seq<char>)>>::None,
            Option::Some(rest) => Option::Some(
                Seq::<(Seq<char>, Seq<char>, Seq<char>)>::empty() + rest,
            ),
        })) by {
            match parse_records(s@, 0) {
                Option::None => {},
                Option::Some(rest) => {
                    assert(Seq::<(Seq<char>, Seq<char>, Seq<char>)>::empty() + rest =~= rest);
                },
            }
        }
    }
    while i < n && !failed
        invariant
            n == s@.len(),
            0 <= i <= n,
            !failed ==> parse_records(s@, 0) == (match parse_records(s@, i as int) {
                Option::None => Option::<Seq<(Seq<char>, Seq<char>, Seq<char>)>>::None,
                Option::Some(rest) => Option::Some(recs_view(recs@) + rest),
            }),
            failed ==> parse_records(s@, 0) is None,
        decreases n - i + (if failed {
            0int
        } else {
            1int
        }),
    {
        match parse_record_exec(&s, i) {
            Option::None => {
                failed = true;
            },
            Option::Some((t1, t2, t3, ni)) => {
                if ni <= i {
                    failed = true;
                } else {
                    let ghost before = recs_view(recs@);
                    recs.push((t1, t2, t3));
                    proof {
                        assert(recs_view(recs@) =~= before.push(
                            (recs@[recs@.len() - 1].0@, recs@[recs@.len() - 1].1@, recs@[recs@.len()
                                - 1].2@),
                        ));
                        match parse_records(s@, ni as int) {
                            Option::None => {},
                            Option::Some(rest) => {
                                assert(before.push(
                                    (recs@[recs@.len() - 1].0@, recs@[recs@.len() - 1].1@, recs@[
                                        recs@.len() - 1].2@),
                                ) + rest =~= before + (seq![
                                    (recs@[recs@.len() - 1].0@, recs@[recs@.len() - 1].1@, recs@[
                                        recs@.len() - 1].2@),
                                ] + rest));
                            },
                        }
                    }
                    i = ni;
                }
            },
        }
    }
    if failed {
        proof {
            reveal_strlit("malformed IOC CSV input");
        }
        return Result::Err(AppError::Message(String::from_str("malformed IOC CSV input")));
    }
    proof {
        assert(parse_records(s@, i as int) == Option::Some(Seq::<
            (Seq<char>, Seq<char>, Seq<char>),
        >::empty()));
        assert(recs_view(recs@) + Seq::<(Seq<char>, Seq<char>, Seq<char>)>::empty() =~= recs_view(
            recs@,
        ));
        assert(parse_records(s@, 0) == Option::Some(recs_view(recs@)));
    }
    // Drop the header record, normalise the rest.
    let mut out: Vec<IocEntry> = Vec::new();
    let ghost rv = recs_view(recs@);
    if recs.len() == 0 {
        proof {
            assert(iocs_view(out@) =~= Seq::<(Seq<char>, Seq<char>, Seq<char>)>::empty());
        }
        return Result::Ok(out);
    }
    let m = recs.len();
    let mut j: usize = 1;
    proof {
        assert(iocs_view(out@) =~= Seq::<(Seq<char>, Seq<char>, Seq<char>)>::empty());
        assert(rv.drop_first().subrange(0, 0) =~= Seq::<(Seq<char>, Seq<char>, Seq<char>)>::empty());
        assert(Seq::<(Seq<char>, Seq<char>, Seq<char>)>::empty() + norm_iocs(rv.drop_first(), 0)
            =~= norm_iocs(rv.drop_first(), 0));
    }
    while j < m
        invariant
            m == recs@.len(),
            rv == recs_view(recs@),
            m >= 1,
            1 <= j <= m,
            iocs_view(out@) + norm_iocs(rv.drop_first(), j - 1) == norm_iocs(rv.drop_first(), 0),
        decreases m - j,
    {
        let flag_kind = flag_kind_of_chars_vec(&recs[j].0);
        let tag_t = trim_chars(&recs[j].1);
        let q_t = trim_chars(&recs[j].2);
        let ghost before = iocs_view(out@);
        proof {
            assert(rv.drop_first()[j - 1] == rv[j as int]);
            assert(rv[j as int] == (recs@[j as int].0@, recs@[j as int].1@, recs@[j as int].2@));
        }
        if q_t.len() > 0 {
            out.push(
                IocEntry {
                    flag: flag_text(flag_kind),
                    tag: string_from_chars(&tag_t),
                    query: string_from_chars(&q_t),
                },
            );
            proof {
                assert(iocs_view(out@) =~= before.push(
                    (
                        crate::flags::flag_chars(parse_flag(rv.drop_first()[j - 1].0)),
                        trim_seq(rv.drop_first()[j - 1].1),
                        trim_seq(rv.drop_first()[j - 1].2),
                    ),
                ));
                assert(iocs_view(out@) + norm_iocs(rv.drop_first(), j as int) =~= before
                    + norm_iocs(rv.drop_first(), j - 1));
            }
        } else {
            proof {
                assert(norm_iocs(rv.drop_first(), j - 1) == norm_iocs(rv.drop_first(), j as int));
            }
        }
        j += 1;
    }
    proof {
        assert(iocs_view(out@) + Seq::<(Seq<char>, Seq<char>, Seq<char>)>::empty() =~= iocs_view(
            out@,
        ));
    }
    Result::Ok(out)
}

fn flag_kind_of_chars_vec(v: &Vec<char>) -> (k: crate::flags::FlagKind)
    ensures
        k == parse_flag(v@),
{
    crate::flags::flag_kind_of_chars(v)
}

/// The views of a parsed record vector.
pub open spec fn recs_view(s: Seq<(Vec<char>, Vec<char>, Vec<char>)>) -> Seq<
    (Seq<char>, Seq<char>, Seq<char>),
> {
    Seq::new(s.len(), |i: int| (s[i].0@, s[i].1@, s[i].2@))
}

// ---------------------------------------------------------------------------
// The export/import round trip.
// ---------------------------------------------------------------------------

proof fn lemma_parse_quoted_of_esc(s: Seq<char>, i: int, content: Seq<char>, acc: Seq<char>)
    requires
        0 <= i,
        i + esc(content).len() + 1 <= s.len(),
        s.subrange(i, i + esc(content).len()) == esc(content),
        s[i + esc(content).len()] == '"',
        i + esc(content).len() + 1 < s.len() ==> s[i + esc(content).len() + 1] != '"',
    ensures
        parse_quoted(s, i, acc) == Option::Some(
            (acc + content, i + esc(content).len() + 1),
        ),
    decreases content.len(),
{
    let e = esc(content);
    if content.len() == 0 {
        assert(e =~= Seq::<char>::empty());
        assert(s[i] == '"');
        assert(parse_quoted(s, i, acc) == Option::Some((acc, i + 1)));
        assert(acc + content =~= acc);
    } else {
        let c = content[0];
        let rest = content.drop_first();
        let er = esc(rest);
        if c == '"' {
            assert(e =~= seq!['"', '"'] + er);
            assert(s[i] == e[i - i]);
            assert(s[i] == '"');
            assert(s[i + 1] == e[1]);
            assert(s[i + 1] == '"');
            assert(s.subrange(i + 2, i + 2 + er.len()) =~= e.subrange(2, e.len() as int));
            assert(e.subrange(2, e.len() as int) =~= er);
            lemma_parse_quoted_of_esc(s, i + 2, rest, acc.push('"'));
            assert(acc.push('"') + rest =~= acc + content);
        } else {
            assert(e =~= seq![c] + er);
            assert(s[i] == e[0]);
            assert(s[i] == c);
            assert(c != '"');
            assert(s.subrange(i + 1, i + 1 + er.len()) =~= e.subrange(1, e.len() as int));
            assert(e.subrange(1, e.len() as int) =~= er);
            lemma_parse_quoted_of_esc(s, i + 1, rest, acc.push(c));
            assert(acc.push(c) + rest =~= acc + content);
        }
    }
}

proof fn lemma_parse_field_of_field_text(s: Seq<char>, i: int, content: Seq<char>)
    requires
        0 <= i,
        i + field_text(content).len() < s.len(),
        s.subrange(i, i + field_text(content).len()) == field_text(content),
        s[i + field_text(content).len()] == ',' || s[i + field_text(content).len()] == '\n',
    ensures
        parse_field(s, i) == Option::Some((content, i + field_text(content).len())),
{
    let ft = field_text(content);
    if needs_quote(content) {
        let e = esc(content);
        let el = e.len() as int;
        assert(ft.len() == el + 2);
        assert(s[i] == ft[0]);
        assert(s[i] == '"');
        assert(s.subrange(i + 1, i + 1 + el) =~= ft.subrange(1, 1 + el));
        assert(ft.subrange(1, 1 + el) =~= e);
        assert(s[i + 1 + el] == ft[1 + el]);
        assert(s[i + 1 + el] == '"');
        lemma_parse_quoted_of_esc(s, i + 1, content, Seq::empty());
        assert(Seq::<char>::empty() + content =~= content);
    } else {
        assert(ft == content);
        assert forall|k: int|
            0 <= k < content.len() implies !((#[trigger] content[k]) == ',' || content[k] == '"'
                || content[k] == '\n' || content[k] == '\r') by {
            if content[k] == ',' || content[k] == '"' || content[k] == '\n' || content[k]
                == '\r' {
                assert(needs_quote(content));
            }
        }
        if content.len() == 0 {
            assert(s[i] == ',' || s[i] == '\n');
            assert(parse_bare(s, i, Seq::empty()) == (Seq::<char>::empty(), i));
            assert(parse_field(s, i) == Option::Some((Seq::<char>::empty(), i)));
            assert(content =~= Seq::<char>::empty());
        } else {
            assert(s[i] == s.subrange(i, i + content.len())[0]);
            assert(s[i] == content[0]);
            assert(content[0] != '"');
            lemma_parse_bare_clean(s, i, Seq::empty(), content);
            assert(Seq::<char>::empty() + content =~= content);
        }
    }
}

proof fn lemma_parse_record_of_line(s: Seq<char>, i: int, e: (Seq<char>, Seq<char>, Seq<char>))
    requires
        0 <= i,
        i + line_text(e).len() <= s.len(),
        s.subrange(i, i + line_text(e).len()) == line_text(e),
    ensures
        parse_record(s, i) == Option::Some((e, i + line_text(e).len())),
{
    let lt = line_text(e);
    let f1 = field_text(e.0);
    let f2 = field_text(e.1);
    let f3 = field_text(e.2);
    let l1 = f1.len() as int;
    let l2 = f2.len() as int;
    let l3 = f3.len() as int;
    let p1 = i + l1;
    let p2 = p1 + 1 + l2;
    let p3 = p2 + 1 + l3;
    assert(s.subrange(i, p1) =~= lt.subrange(0, l1));
    assert(lt.subrange(0, l1) =~= f1);
    assert(s[p1] == lt[l1]);
    assert(s[p1] == ',');
    lemma_parse_field_of_field_text(s, i, e.0);
    assert(s.subrange(p1 + 1, p2) =~= lt.subrange(l1 + 1, l1 + 1 + l2));
    assert(lt.subrange(l1 + 1, l1 + 1 + l2) =~= f2);
    assert(s[p2] == lt[l1 + 1 + l2]);
    assert(s[p2] == ',');
    lemma_parse_field_of_field_text(s, p1 + 1, e.1);
    assert(s.subrange(p2 + 1, p3) =~= lt.subrange(l1 + 1 + l2 + 1, l1 + 1 + l2 + 1 + l3));
    assert(lt.subrange(l1 + 1 + l2 + 1, l1 + 1 + l2 + 1 + l3) =~= f3);
    assert(s[p3] == lt[lt.len() - 1]);
    assert(s[p3] == '\n');
    lemma_parse_field_of_field_text(s, p2 + 1, e.2);
    assert(parse_field(s, p2 + 1) == Option::Some((e.2, p3)));
    assert(p3 < s.len());
}

proof fn lemma_parse_bare_clean(s: Seq<char>, i: int, acc: Seq<char>, content: Seq<char>)
    requires
        0 <= i,
        i + content.len() < s.len(),
        s.subrange(i, i + content.len()) == content,
        forall|k: int|
            0 <= k < content.len() ==> #[trigger] content[k] != ',' && content[k] != '\n',
        s[i + content.len()] == ',' || s[i + content.len()] == '\n',
    ensures
        parse_bare(s, i, acc) == (acc + content, i + content.len()),
    decreases content.len(),
{
    if content.len() == 0 {
        assert(parse_bare(s, i, acc) == (acc, i));
        assert(acc + content =~= acc);
    } else {
        assert(s[i] == content[0]);
        assert(content[0] != ',' && content[0] != '\n');
        assert(s.subrange(i + 1, i + content.len()) =~= content.subrange(
            1,
            content.len() as int,
        ));
        assert(content.subrange(1, content.len() as int) =~= content.drop_first());
        assert forall|k: int|
            0 <= k < content.drop_first().len() implies #[trigger] content.drop_first()[k] != ','
            && content.drop_first()[k] != '\n' by {
            assert(content.drop_first()[k] == content[k + 1]);
        }
        lemma_parse_bare_clean(s, i + 1, acc.push(content[0]), content.drop_first());
        assert(acc.push(content[0]) + content.drop_first() =~= acc + content);
    }
}

proof fn lemma_parse_header(s: Seq<char>)
    requires
        s.len() >= 15,
        s.subrange(0, 15) == header_chars(),
    ensures
        parse_record(s, 0) == Option::Some(
            (
                (
                    seq!['f', 'l', 'a', 'g'],
                    seq!['t', 'a', 'g'],
                    seq!['q', 'u', 'e', 'r', 'y'],
                ),
                15int,
            ),
        ),
{
    let h = header_chars();
    assert(forall|k: int| 0 <= k < 15 ==> s[k] == h[k]) by {
        assert(forall|k: int| 0 <= k < 15 ==> s.subrange(0, 15)[k] == s[k]);
    }
    let flag_cs = seq!['f', 'l', 'a', 'g'];
    let tag_cs = seq!['t', 'a', 'g'];
    let query_cs = seq!['q', 'u', 'e', 'r', 'y'];
    assert(s.subrange(0, 4) =~= flag_cs);
    assert(s[4] == ',');
    assert(s[0] != '"');
    lemma_parse_bare_clean(s, 0, Seq::empty(), flag_cs);
    assert(Seq::<char>::empty() + flag_cs =~= flag_cs);
    assert(s.subrange(5, 8) =~= tag_cs);
    assert(s[8] == ',');
    assert(s[5] != '"');
    lemma_parse_bare_clean(s, 5, Seq::empty(), tag_cs);
    assert(Seq::<char>::empty() + tag_cs =~= tag_cs);
    assert(s.subrange(9, 14) =~= query_cs);
    assert(s[14] == '\n');
    assert(s[9] != '"');
    lemma_parse_bare_clean(s, 9, Seq::empty(), query_cs);
    assert(Seq::<char>::empty() + query_cs =~= query_cs);
}

proof fn lemma_parse_body(
    s: Seq<char>,
    i: int,
    entries: Seq<(Seq<char>, Seq<char>, Seq<char>)>,
    j: int,
)
    requires
        0 <= i <= s.len(),
        0 <= j <= entries.len(),
        i + csv_body(entries, j).len() == s.len(),
        s.subrange(i, s.len() as int) == csv_body(entries, j),
    ensures
        parse_records(s, i) == Option::Some(entries.skip(j)),
    decreases entries.len() - j,
{
    if j == entries.len() {
        assert(csv_body(entries, j) =~= Seq::<char>::empty());
        assert(i == s.len());
        assert(parse_records(s, i) == Option::Some(Seq::<(Seq<char>, Seq<char>, Seq<char>)>::empty()));
        assert(entries.skip(j) =~= Seq::<(Seq<char>, Seq<char>, Seq<char>)>::empty());
    } else {
        let lt = line_text(entries[j]);
        let body = csv_body(entries, j);
        assert(body == lt + csv_body(entries, j + 1));
        assert(lt.len() >= 3);
        assert(s.subrange(i, i + lt.len()) =~= body.subrange(0, lt.len() as int));
        assert(body.subrange(0, lt.len() as int) =~= lt);
        lemma_parse_record_of_line(s, i, entries[j]);
        let ni = i + lt.len();
        assert(s.subrange(ni, s.len() as int) =~= body.subrange(
            lt.len() as int,
            body.len() as int,
        ));
        assert(body.subrange(lt.len() as int, body.len() as int) =~= csv_body(entries, j + 1));
        lemma_parse_body(s, ni, entries, j + 1);
        assert(seq![entries[j]] + entries.skip(j + 1) =~= entries.skip(j));
    }
}

proof fn lemma_norm_fixed(entries: Seq<(Seq<char>, Seq<char>, Seq<char>)>, j: int)
    requires
        0 <= j <= entries.len(),
        forall|k: int|
            0 <= k < entries.len() ==> (#[trigger] entries[k]).0 == crate::flags::flag_chars(
                parse_flag(entries[k].0),
            ) && entries[k].1 == trim_seq(entries[k].1) && entries[k].2 == trim_seq(entries[k].2)
                && entries[k].2.len() > 0,
    ensures
        norm_iocs(entries, j) == entries.skip(j),
    decreases entries.len() - j,
{
    if j < entries.len() {
        lemma_norm_fixed(entries, j + 1);
        assert(norm_iocs(entries, j) =~= seq![entries[j]] + norm_iocs(entries, j + 1));
        assert(seq![entries[j]] + entries.skip(j + 1) =~= entries.skip(j));
    } else {
        assert(entries.skip(j) =~= Seq::<(Seq<char>, Seq<char>, Seq<char>)>::empty());
    }
}

/// Exporting and importing is a fixed point: reading back a written rule
/// list yields exactly the same rules, provided they are in the normalised
/// form that writing emits (canonical flags, trimmed tags and queries, no
/// blank queries).
pub proof fn law_csv_round_trip(entries: Seq<(Seq<char>, Seq<char>, Seq<char>)>)
    requires
        forall|k: int|
            0 <= k < entries.len() ==> (#[trigger] entries[k]).0 == crate::flags::flag_chars(
                parse_flag(entries[k].0),
            ) && entries[k].1 == trim_seq(entries[k].1) && entries[k].2 == trim_seq(entries[k].2)
                && entries[k].2.len() > 0,
    ensures
        spec_read_ioc_csv(spec_write_ioc_csv(entries)) == Option::Some(entries),
{
    let s = spec_write_ioc_csv(entries);
    let h = header_chars();
    assert(s.subrange(0, 15) =~= h);
    lemma_parse_header(s);
    let hdr: (Seq<char>, Seq<char>, Seq<char>) = (
        seq!['f', 'l', 'a', 'g'],
        seq!['t', 'a', 'g'],
        seq!['q', 'u', 'e', 'r', 'y'],
    );
    assert(s.subrange(15, s.len() as int) =~= csv_body(entries, 0));
    lemma_parse_body(s, 15, entries, 0);
    assert(entries.skip(0) =~= entries);
    assert(parse_records(s, 0) == Option::Some(seq![hdr] + entries));
    let recs = seq![hdr] + entries;
    assert(recs.len() > 0);
    assert(recs.drop_first() =~= entries);
    lemma_norm_fixed(entries, 0);
    assert(norm_iocs(entries, 0) == entries.skip(0));
}

} // verus!
