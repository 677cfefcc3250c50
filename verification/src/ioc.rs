//! Indicator-of-compromise (IOC) rules: normalisation of rule sets, boolean
//! matching of single rows, the overlay that applies rule flags and memo tags
//! to rows, and the full-scan count of rows an IOC applies to.

use vstd::prelude::*;

use crate::flags::{flag_chars, flag_kind_of, flag_text, parse_flag, FlagKind};
use crate::mask::{build_search_mask_boolean, spec_row_mask};
use crate::search::{
    collect_terms, keys_from, spec_rpn, spec_tokenize, strs_view, to_rpn, tokenize_search_query,
};
use crate::store::{store_user_flag, FlagStore};
use crate::table::{
    build_row_colmap_all, build_row_search_text, names_from, pairs_view, single_colmap_all,
    spec_row_text, visible_columns, ProjectRow, Table,
};
use crate::text::{
    chars_of, contains_chars, lex_lt, lower_of, push_all, seq_contains, string_from_chars,
    trim_chars, trim_seq,
};
use crate::value::{cell_search_chars, clone_cell, value_to_search_string, Cell, CellVal};

verus! {

/// An IOC rule: the flag it assigns, a memo tag, and a boolean query.
#[derive(Debug)]
pub struct IocEntry {
    pub flag: String,
    pub tag: String,
    pub query: String,
}

/// The view of a rule.
pub open spec fn ioc_view(e: IocEntry) -> (Seq<char>, Seq<char>, Seq<char>) {
    (e.flag@, e.tag@, e.query@)
}

/// The views of a rule vector.
pub open spec fn iocs_view(s: Seq<IocEntry>) -> Seq<(Seq<char>, Seq<char>, Seq<char>)> {
    Seq::new(s.len(), |i: int| ioc_view(s[i]))
}

/// Copies a rule, preserving its view.
pub fn clone_ioc(e: &IocEntry) -> (r: IocEntry)
    ensures
        ioc_view(r) == ioc_view(*e),
{
    IocEntry { flag: e.flag.clone(), tag: e.tag.clone(), query: e.query.clone() }
}

// ---------------------------------------------------------------------------
// Normalisation.
// ---------------------------------------------------------------------------

/// The normalised rules of a list, in order: flag normalised, tag and query
/// trimmed, rules with a blank query dropped.
pub open spec fn norm_iocs(
    s: Seq<(Seq<char>, Seq<char>, Seq<char>)>,
    i: int,
) -> Seq<(Seq<char>, Seq<char>, Seq<char>)>
    decreases s.len() - i,
{
    if !(0 <= i < s.len()) {
        Seq::empty()
    } else {
        let ne = (flag_chars(parse_flag(s[i].0)), trim_seq(s[i].1), trim_seq(s[i].2));
        if ne.2.len() > 0 {
            seq![ne] + norm_iocs(s, i + 1)
        } else {
            norm_iocs(s, i + 1)
        }
    }
}

/// Inserts a rule into a tag-sorted list, before the first rule whose tag it
/// strictly precedes (so equal tags keep their arrival order).
pub open spec fn insert_by_tag(
    sorted: Seq<(Seq<char>, Seq<char>, Seq<char>)>,
    x: (Seq<char>, Seq<char>, Seq<char>),
) -> Seq<(Seq<char>, Seq<char>, Seq<char>)>
    decreases sorted.len(),
{
    if sorted.len() == 0 {
        seq![x]
    } else if lex_lt(x.1, sorted[0].1) {
        seq![x] + sorted
    } else {
        seq![sorted[0]] + insert_by_tag(sorted.drop_first(), x)
    }
}

/// The first `n` rules, stably sorted by tag.
pub open spec fn sort_by_tag_upto(
    s: Seq<(Seq<char>, Seq<char>, Seq<char>)>,
    n: int,
) -> Seq<(Seq<char>, Seq<char>, Seq<char>)>
    decreases n,
{
    if n <= 0 {
        Seq::empty()
    } else {
        insert_by_tag(sort_by_tag_upto(s, n - 1), s[n - 1])
    }
}

/// The prepared form of a rule list: normalised, blank queries dropped, and
/// stably sorted by tag.
pub open spec fn spec_prepare_iocs(
    s: Seq<(Seq<char>, Seq<char>, Seq<char>)>,
) -> Seq<(Seq<char>, Seq<char>, Seq<char>)> {
    let ns = norm_iocs(s, 0);
    sort_by_tag_upto(ns, ns.len() as int)
}

proof fn lemma_insert_by_tag_at(
    s: Seq<(Seq<char>, Seq<char>, Seq<char>)>,
    x: (Seq<char>, Seq<char>, Seq<char>),
    pos: int,
)
    requires
        0 <= pos <= s.len(),
        forall|k: int| 0 <= k < pos ==> !lex_lt(x.1, (#[trigger] s[k]).1),
        pos < s.len() ==> lex_lt(x.1, s[pos].1),
    ensures
        insert_by_tag(s, x) == s.subrange(0, pos) + seq![x] + s.subrange(pos, s.len() as int),
    decreases s.len(),
{
    if s.len() == 0 {
        assert(insert_by_tag(s, x) =~= s.subrange(0, 0) + seq![x] + s.subrange(0, 0));
    } else if pos == 0 {
        assert(insert_by_tag(s, x) =~= s.subrange(0, 0) + seq![x] + s.subrange(0, s.len() as int));
    } else {
        lemma_insert_by_tag_at(s.drop_first(), x, pos - 1);
        assert(s.drop_first().subrange(0, pos - 1) =~= s.subrange(1, pos));
        assert(s.drop_first().subrange(pos - 1, s.drop_first().len() as int) =~= s.subrange(
            pos,
            s.len() as int,
        ));
        assert(insert_by_tag(s, x) =~= s.subrange(0, pos) + seq![x] + s.subrange(
            pos,
            s.len() as int,
        ));
    }
}

/// Normalises a rule list: flags to their canonical spelling, tags and
/// queries trimmed, rules with blank queries dropped, and the result stably
/// sorted by tag.
pub fn prepare_ioc_entries(entries: Vec<IocEntry>) -> (r: Vec<IocEntry>)
    ensures
        iocs_view(r@) == spec_prepare_iocs(iocs_view(entries@)),
{
    let ghost ev = iocs_view(entries@);
    let n = entries.len();
    let mut normed: Vec<IocEntry> = Vec::new();
    let mut i: usize = 0;
    proof {
        assert(iocs_view(normed@) =~= Seq::<(Seq<char>, Seq<char>, Seq<char>)>::empty());
        assert(Seq::<(Seq<char>, Seq<char>, Seq<char>)>::empty() + norm_iocs(ev, 0) =~= norm_iocs(
            ev,
            0,
        ));
    }
    while i < n
        invariant
            n == entries@.len(),
            ev == iocs_view(entries@),
            0 <= i <= n,
            iocs_view(normed@) + norm_iocs(ev, i as int) == norm_iocs(ev, 0),
        decreases n - i,
    {
        let e = &entries[i];
        let k = flag_kind_of(e.flag.as_str());
        let tag_cs = chars_of(e.tag.as_str());
        let tag_t = trim_chars(&tag_cs);
        let q_cs = chars_of(e.query.as_str());
        let q_t = trim_chars(&q_cs);
        let ghost before = iocs_view(normed@);
        if q_t.len() > 0 {
            normed.push(
                IocEntry {
                    flag: flag_text(k),
                    tag: string_from_chars(&tag_t),
                    query: string_from_chars(&q_t),
                },
            );
            proof {
                assert(iocs_view(normed@) =~= before.push(
                    (flag_chars(parse_flag(ev[i as int].0)), trim_seq(ev[i as int].1), trim_seq(
                        ev[i as int].2,
                    )),
                ));
                assert(iocs_view(normed@) + norm_iocs(ev, i as int + 1) =~= before + norm_iocs(
                    ev,
                    i as int,
                ));
            }
        }
        i += 1;
    }
    proof {
        assert(iocs_view(normed@) + Seq::<(Seq<char>, Seq<char>, Seq<char>)>::empty() =~= iocs_view(
            normed@,
        ));
    }
    // Stable insertion sort by tag.
    let ghost nv = iocs_view(normed@);
    let m = normed.len();
    let mut out: Vec<IocEntry> = Vec::new();
    let mut j: usize = 0;
    proof {
        assert(iocs_view(out@) =~= Seq::<(Seq<char>, Seq<char>, Seq<char>)>::empty());
    }
    while j < m
        invariant
            m == normed@.len(),
            nv == iocs_view(normed@),
            0 <= j <= m,
            iocs_view(out@) == sort_by_tag_upto(nv, j as int),
            out@.len() == j,
        decreases m - j,
    {
        let x = clone_ioc(&normed[j]);
        let x_tag = chars_of(x.tag.as_str());
        let k = out.len();
        let mut pos: usize = 0;
        loop
            invariant
                k == out@.len(),
                x_tag@ == nv[j as int].1,
                0 <= pos <= k,
                forall|p: int|
                    0 <= p < pos ==> !lex_lt(nv[j as int].1, (#[trigger] iocs_view(out@)[p]).1),
            ensures
                0 <= pos <= k,
                forall|p: int|
                    0 <= p < pos ==> !lex_lt(nv[j as int].1, (#[trigger] iocs_view(out@)[p]).1),
                pos < k ==> lex_lt(nv[j as int].1, iocs_view(out@)[pos as int].1),
            decreases k - pos,
        {
            if pos >= k {
                break ;
            }
            let o_tag = chars_of(out[pos].tag.as_str());
            proof {
                assert(iocs_view(out@)[pos as int].1 == out@[pos as int].tag@);
            }
            if crate::text::chars_lex_lt(&x_tag, &o_tag) {
                break ;
            }
            pos += 1;
        }
        let ghost sorted = iocs_view(out@);
        proof {
            if pos < k {
                assert(sorted[pos as int].1 == out@[pos as int].tag@);
            }
            lemma_insert_by_tag_at(sorted, nv[j as int], pos as int);
        }
        out.insert(pos, x);
        proof {
            assert(iocs_view(out@) =~= sorted.subrange(0, pos as int) + seq![nv[j as int]]
                + sorted.subrange(pos as int, sorted.len() as int));
        }
        j += 1;
    }
    out
}

// ---------------------------------------------------------------------------
// Single-row matching.
// ---------------------------------------------------------------------------

/// The lowercase search piece of one cell value.
pub open spec fn pair_piece(c: CellVal) -> Seq<char> {
    match cell_search_chars(c) {
        Option::Some(s) => lower_of(s),
        Option::None => Seq::empty(),
    }
}

/// The concatenated row text of a row's data pairs.
pub open spec fn pairs_row_text(data: Seq<(Seq<char>, CellVal)>, i: int, acc: Seq<char>) -> Seq<
    char,
>
    decreases data.len() - i,
{
    if !(0 <= i < data.len()) {
        acc
    } else {
        let piece = pair_piece(data[i].1);
        let acc2 = if piece.len() == 0 {
            acc
        } else if acc.len() == 0 {
            piece
        } else {
            acc + seq![' '] + piece
        };
        pairs_row_text(data, i + 1, acc2)
    }
}

/// The single-row per-column map of a row's data pairs, later pairs first.
pub open spec fn pairs_colmap(data: Seq<(Seq<char>, CellVal)>, i: int) -> Seq<
    (Seq<char>, Seq<Seq<char>>),
>
    decreases i,
{
    if i <= 0 {
        Seq::empty()
    } else {
        let piece = pair_piece(data[i - 1].1);
        (if piece.len() > 0 {
            seq![(lower_of(data[i - 1].0), seq![piece])]
        } else {
            Seq::<(Seq<char>, Seq<Seq<char>>)>::empty()
        }) + pairs_colmap(data, i - 1)
    }
}

/// Whether a row's data matches a boolean query: blank queries, rows with no
/// text, and queries without terms never match; otherwise the query's mask is
/// evaluated over the row text and per-column texts.
pub open spec fn spec_row_contains(data: Seq<(Seq<char>, CellVal)>, q: Seq<char>) -> bool {
    if trim_seq(q).len() == 0 {
        false
    } else {
        let row_text = pairs_row_text(data, 0, Seq::empty());
        if row_text.len() == 0 {
            false
        } else {
            let tokens = spec_tokenize(q);
            let keys = keys_from(tokens, 0, Seq::empty());
            if keys.len() == 0 {
                false
            } else {
                spec_row_mask(
                    spec_rpn(tokens),
                    keys,
                    seq![row_text],
                    Option::Some(pairs_colmap(data, data.len() as int)),
                    0,
                )
            }
        }
    }
}

/// Evaluates a boolean query against a single row's data.
pub fn row_contains_query(row: &ProjectRow, query: &str) -> (r: bool)
    ensures
        r == spec_row_contains(pairs_view(row.data@), query@),
{
    let ghost dv = pairs_view(row.data@);
    let q_cs = chars_of(query);
    let q_t = trim_chars(&q_cs);
    if q_t.len() == 0 {
        return false;
    }
    // Row text, forward over the pairs.
    let nd = row.data.len();
    let mut acc: Vec<char> = Vec::new();
    let mut i: usize = 0;
    proof {
        assert(acc@ =~= Seq::<char>::empty());
    }
    while i < nd
        invariant
            nd == row.data@.len(),
            dv == pairs_view(row.data@),
            0 <= i <= nd,
            pairs_row_text(dv, i as int, acc@) == pairs_row_text(dv, 0, Seq::empty()),
        decreases nd - i,
    {
        let piece = pair_piece_exec(&row.data[i].1);
        proof {
            assert(piece@ == pair_piece(dv[i as int].1));
        }
        let ghost acc0 = acc@;
        if piece.len() > 0 {
            if acc.len() == 0 {
                acc = piece;
            } else {
                acc.push(' ');
                push_all(&mut acc, &piece);
                proof {
                    assert(acc@ =~= acc0 + seq![' '] + piece@);
                }
            }
        }
        i += 1;
    }
    if acc.len() == 0 {
        return false;
    }
    // Per-column map, backward over the pairs.
    let mut per_col: Vec<(String, Vec<String>)> = Vec::new();
    let mut bi: usize = nd;
    proof {
        assert(crate::mask::colmap_view(per_col@) =~= Seq::<(Seq<char>, Seq<Seq<char>>)>::empty());
        assert(Seq::<(Seq<char>, Seq<Seq<char>>)>::empty() + pairs_colmap(dv, nd as int)
            =~= pairs_colmap(dv, nd as int));
    }
    while bi > 0
        invariant
            nd == row.data@.len(),
            dv == pairs_view(row.data@),
            0 <= bi <= nd,
            crate::mask::colmap_view(per_col@) + pairs_colmap(dv, bi as int) == pairs_colmap(
                dv,
                nd as int,
            ),
        decreases bi,
    {
        bi -= 1;
        let piece = pair_piece_exec(&row.data[bi].1);
        proof {
            assert(piece@ == pair_piece(dv[bi as int].1));
        }
        let ghost before = crate::mask::colmap_view(per_col@);
        if piece.len() > 0 {
            let name_cs = chars_of(row.data[bi].0.as_str());
            let lowered = crate::text::lowercase_chars(&name_cs);
            let key = string_from_chars(&lowered);
            let mut one: Vec<String> = Vec::new();
            one.push(string_from_chars(&piece));
            proof {
                assert(strs_view(one@) =~= seq![piece@]);
            }
            per_col.push((key, one));
            proof {
                assert(crate::mask::colmap_view(per_col@) =~= before.push((
                    lower_of(dv[bi as int].0),
                    seq![piece@],
                )));
                assert(crate::mask::colmap_view(per_col@) + pairs_colmap(dv, bi as int) =~= before
                    + pairs_colmap(dv, bi as int + 1));
            }
        } else {
            proof {
                assert(Seq::<(Seq<char>, Seq<Seq<char>>)>::empty() + pairs_colmap(dv, bi as int)
                    =~= pairs_colmap(dv, bi as int));
            }
        }
    }
    proof {
        assert(crate::mask::colmap_view(per_col@) + Seq::<(Seq<char>, Seq<Seq<char>>)>::empty()
            =~= crate::mask::colmap_view(per_col@));
    }
    let tokens = tokenize_search_query(query);
    let (terms, _cols) = collect_terms(&tokens);
    if terms.len() == 0 {
        return false;
    }
    let rpn = to_rpn(&tokens);
    let mut single_row: Vec<String> = Vec::new();
    single_row.push(string_from_chars(&acc));
    proof {
        assert(strs_view(single_row@) =~= seq![acc@]);
    }
    let mask = build_search_mask_boolean(&rpn, &terms, &single_row, Option::Some(&per_col));
    if mask.len() > 0 {
        mask[0]
    } else {
        false
    }
}

fn pair_piece_exec(c: &Cell) -> (r: Vec<char>)
    ensures
        r@ == pair_piece(c@),
{
    match value_to_search_string(c) {
        Option::Some(s) => {
            let cs = chars_of(s.as_str());
            crate::text::lowercase_chars(&cs)
        },
        Option::None => Vec::new(),
    }
}

// ---------------------------------------------------------------------------
// Applying rules to materialised rows.
// ---------------------------------------------------------------------------

/// The fold over the rules for one row: the first matching rule with a
/// non-absent flag supplies the flag (when the row had none, `user` absent),
/// and — only on a row without a user flag — each matching rule's non-blank
/// tag is appended to the memo as `[tag]` unless already present,
/// space-separated.
pub open spec fn apply_fold(
    data: Seq<(Seq<char>, CellVal)>,
    iocs: Seq<(Seq<char>, Seq<char>, Seq<char>)>,
    j: int,
    user: FlagKind,
    best: FlagKind,
    memo: Seq<char>,
    changed: bool,
) -> (FlagKind, Seq<char>, bool)
    decreases iocs.len() - j,
{
    if !(0 <= j < iocs.len()) {
        (best, memo, changed)
    } else {
        let q = trim_seq(iocs[j].2);
        if q.len() == 0 || !spec_row_contains(data, q) {
            apply_fold(data, iocs, j + 1, user, best, memo, changed)
        } else {
            let sev = parse_flag(iocs[j].0);
            let best2 = if best == FlagKind::Empty && sev != FlagKind::Empty {
                sev
            } else {
                best
            };
            let tag = trim_seq(iocs[j].1);
            if user == FlagKind::Empty && tag.len() > 0 {
                let token = seq!['['] + tag + seq![']'];
                if !seq_contains(memo, token) {
                    let memo2 = if memo.len() > 0 && memo.last() != ' ' {
                        memo + seq![' '] + token
                    } else {
                        memo + token
                    };
                    apply_fold(data, iocs, j + 1, user, best2, memo2, true)
                } else {
                    apply_fold(data, iocs, j + 1, user, best2, memo, changed)
                }
            } else {
                apply_fold(data, iocs, j + 1, user, best2, memo, changed)
            }
        }
    }
}

/// The flag and memo of one row after the IOC overlay.
pub open spec fn spec_apply_row(
    rv: (int, Seq<(Seq<char>, CellVal)>, Seq<char>, Option<Seq<char>>),
    iocs: Seq<(Seq<char>, Seq<char>, Seq<char>)>,
) -> (Seq<char>, Option<Seq<char>>) {
    let init = parse_flag(rv.2);
    let memo0 = match rv.3 {
        Option::Some(m) => m,
        Option::None => Seq::empty(),
    };
    let folded = apply_fold(rv.1, iocs, 0, init, init, memo0, false);
    let flag2 = if init == FlagKind::Empty && folded.0 != FlagKind::Empty {
        flag_chars(folded.0)
    } else {
        rv.2
    };
    let memo2 = if folded.2 {
        if trim_seq(folded.1).len() == 0 {
            Option::<Seq<char>>::None
        } else {
            Option::Some(trim_seq(folded.1))
        }
    } else {
        rv.3
    };
    (flag2, memo2)
}

fn clone_pairs(data: &Vec<(String, Cell)>) -> (r: Vec<(String, Cell)>)
    ensures
        pairs_view(r@) == pairs_view(data@),
{
    let n = data.len();
    let mut out: Vec<(String, Cell)> = Vec::new();
    let mut i: usize = 0;
    proof {
        assert(pairs_view(out@) =~= pairs_view(data@).subrange(0, 0));
    }
    while i < n
        invariant
            n == data@.len(),
            0 <= i <= n,
            pairs_view(out@) == pairs_view(data@).subrange(0, i as int),
        decreases n - i,
    {
        let ghost before = pairs_view(out@);
        out.push((data[i].0.clone(), clone_cell(&data[i].1)));
        proof {
            assert(pairs_view(out@) =~= before.push((data@[i as int].0@, data@[i as int].1@)));
            assert(pairs_view(out@) =~= pairs_view(data@).subrange(0, i + 1));
        }
        i += 1;
    }
    proof {
        assert(pairs_view(data@).subrange(0, n as int) =~= pairs_view(data@));
    }
    out
}

/// Applies the IOC rules to already-materialised rows: rows keep their
/// position and data; a row with no user flag takes the flag of the first
/// matching rule that has one and gains the matching rules' memo tags, while
/// a row with a user flag keeps both its flag and its memo verbatim.
pub fn apply_iocs_to_rows(rows: &mut Vec<ProjectRow>, entries: &Vec<IocEntry>)
    ensures
        final(rows)@.len() == old(rows)@.len(),
        forall|i: int|
            0 <= i < old(rows)@.len() ==> {
                let old_rv = crate::table::row_view(old(rows)@[i]);
                let new_rv = crate::table::row_view(#[trigger] final(rows)@[i]);
                new_rv.0 == old_rv.0 && new_rv.1 == old_rv.1 && (new_rv.2, new_rv.3)
                    == spec_apply_row(old_rv, iocs_view(entries@))
            },
{
    let ghost ev = iocs_view(entries@);
    let n = rows.len();
    let m = entries.len();
    let mut i: usize = 0;
    while i < n
        invariant
            n == rows@.len(),
            n == old(rows)@.len(),
            m == entries@.len(),
            ev == iocs_view(entries@),
            0 <= i <= n,
            forall|k: int| i <= k < n ==> #[trigger] rows@[k] == old(rows)@[k],
            forall|k: int|
                0 <= k < i ==> {
                    let old_rv = crate::table::row_view(old(rows)@[k]);
                    let new_rv = crate::table::row_view(#[trigger] rows@[k]);
                    new_rv.0 == old_rv.0 && new_rv.1 == old_rv.1 && (new_rv.2, new_rv.3)
                        == spec_apply_row(old_rv, ev)
                },
        decreases n - i,
    {
        let ghost old_rv = crate::table::row_view(old(rows)@[i as int]);
        let row_index = rows[i].row_index;
        let flag0 = rows[i].flag.clone();
        let memo0: Vec<char> = match &rows[i].memo {
            Option::Some(ms) => chars_of(ms.as_str()),
            Option::None => Vec::new(),
        };
        let user_kind = flag_kind_of(flag0.as_str());
        let mut best = user_kind;
        let ghost init = best;
        let mut memo = memo0;
        let mut changed: bool = false;
        proof {
            assert(memo@ == (match old_rv.3 {
                Option::Some(x) => x,
                Option::None => Seq::empty(),
            }));
        }
        let mut j: usize = 0;
        while j < m
            invariant
                m == entries@.len(),
                ev == iocs_view(entries@),
                0 <= j <= m,
                i < n,
                n == rows@.len(),
                rows@[i as int] == old(rows)@[i as int],
                old_rv == crate::table::row_view(old(rows)@[i as int]),
                user_kind == init,
                apply_fold(old_rv.1, ev, j as int, init, best, memo@, changed) == apply_fold(
                    old_rv.1,
                    ev,
                    0,
                    init,
                    init,
                    (match old_rv.3 {
                        Option::Some(x) => x,
                        Option::None => Seq::empty(),
                    }),
                    false,
                ),
            decreases m - j,
        {
            let q_cs = chars_of(entries[j].query.as_str());
            let q_t = trim_chars(&q_cs);
            let matched = if q_t.len() == 0 {
                false
            } else {
                let q_str = string_from_chars(&q_t);
                row_contains_query(&rows[i], q_str.as_str())
            };
            if matched {
                let sev = flag_kind_of(entries[j].flag.as_str());
                if best == FlagKind::Empty && sev != FlagKind::Empty {
                    best = sev;
                }
                let tag_cs = chars_of(entries[j].tag.as_str());
                let tag_t = trim_chars(&tag_cs);
                if matches!(user_kind, FlagKind::Empty) && tag_t.len() > 0 {
                    let mut token: Vec<char> = Vec::new();
                    token.push('[');
                    push_all(&mut token, &tag_t);
                    token.push(']');
                    proof {
                        assert(token@ =~= seq!['['] + trim_seq(ev[j as int].1) + seq![']']);
                    }
                    if !contains_chars(&memo, &token) {
                        let ghost memo_before = memo@;
                        if memo.len() > 0 && memo[memo.len() - 1] != ' ' {
                            memo.push(' ');
                            push_all(&mut memo, &token);
                            proof {
                                assert(memo@ =~= memo_before + seq![' '] + token@);
                            }
                        } else {
                            push_all(&mut memo, &token);
                        }
                        changed = true;
                    }
                }
            }
            j += 1;
        }
        // Rebuild the row with the folded flag and memo.
        let new_flag: String = if matches!(user_kind, FlagKind::Empty) && !matches!(
            best,
            FlagKind::Empty,
        ) {
            flag_text(best)
        } else {
            flag0
        };
        let new_memo: Option<String> = if changed {
            let t = trim_chars(&memo);
            if t.len() == 0 {
                Option::None
            } else {
                Option::Some(string_from_chars(&t))
            }
        } else {
            match &rows[i].memo {
                Option::Some(ms) => Option::Some(ms.clone()),
                Option::None => Option::None,
            }
        };
        let new_data = clone_pairs(&rows[i].data);
        let new_row = ProjectRow { row_index, data: new_data, flag: new_flag, memo: new_memo };
        proof {
            let new_rv = crate::table::row_view(new_row);
            assert(new_rv.1 =~= old_rv.1);
            assert((new_rv.2, new_rv.3) == spec_apply_row(old_rv, ev));
        }
        rows.set(i, new_row);
        i += 1;
    }
}

// ---------------------------------------------------------------------------
// Counting rows an IOC applies to.
// ---------------------------------------------------------------------------

/// Whether one rule's trimmed query matches row `row` of the table over the
/// visible columns, as the full-scan counting pass evaluates it.
pub open spec fn spec_rule_matches(
    tv: Seq<(Seq<char>, Seq<CellVal>)>,
    names: Seq<Seq<char>>,
    row: int,
    q: Seq<char>,
) -> bool {
    let tokens = spec_tokenize(q);
    let keys = keys_from(tokens, 0, Seq::empty());
    if keys.len() == 0 {
        false
    } else {
        spec_row_mask(
            spec_rpn(tokens),
            keys,
            seq![spec_row_text(tv, names, row)],
            Option::Some(single_colmap_all(tv, names, names.len() as int, row)),
            0,
        )
    }
}

/// Whether any rule from position `j` on matches row `row`.
pub open spec fn any_rule_matches(
    tv: Seq<(Seq<char>, Seq<CellVal>)>,
    names: Seq<Seq<char>>,
    iocs: Seq<(Seq<char>, Seq<char>, Seq<char>)>,
    j: int,
    row: int,
) -> bool
    decreases iocs.len() - j,
{
    if !(0 <= j < iocs.len()) {
        false
    } else {
        let q = trim_seq(iocs[j].2);
        (q.len() > 0 && spec_rule_matches(tv, names, row, q)) || any_rule_matches(
            tv,
            names,
            iocs,
            j + 1,
            row,
        )
    }
}

/// The number of rows in `0..row` with no user flag that at least one rule
/// matches.
pub open spec fn spec_ioc_applied_count(
    tv: Seq<(Seq<char>, Seq<CellVal>)>,
    names: Seq<Seq<char>>,
    flags: FlagStore,
    iocs: Seq<(Seq<char>, Seq<char>, Seq<char>)>,
    row: int,
) -> int
    decreases row,
{
    if row <= 0 {
        0
    } else {
        spec_ioc_applied_count(tv, names, flags, iocs, row - 1) + (if store_user_flag(
            flags,
            row - 1,
        ) == FlagKind::Empty && iocs.len() > 0 && any_rule_matches(tv, names, iocs, 0, row - 1) {
            1int
        } else {
            0int
        })
    }
}

/// Counts the rows with no user flag that at least one IOC rule matches, by a
/// full scan of the table over its visible columns.
pub fn calculate_ioc_applied_records(table: &Table, flags: &FlagStore, iocs: &Vec<IocEntry>) -> (r:
    usize)
    ensures
        r == spec_ioc_applied_count(
            table@,
            names_from(table@, 0),
            *flags,
            iocs_view(iocs@),
            table.row_count as int,
        ),
{
    let ghost tv = table@;
    let ghost ev = iocs_view(iocs@);
    let names = visible_columns(table);
    let ghost nv = names_from(tv, 0);
    let n = table.row_count;
    let m = iocs.len();
    let mut count: usize = 0;
    let mut row: usize = 0;
    while row < n
        invariant
            tv == table@,
            ev == iocs_view(iocs@),
            nv == names_from(tv, 0),
            strs_view(names@) == nv,
            n == table.row_count,
            m == iocs@.len(),
            0 <= row <= n,
            count <= row,
            count == spec_ioc_applied_count(tv, nv, *flags, ev, row as int),
        decreases n - row,
    {
        let user_kind = match flags.get_flag(row) {
            Option::Some(e) => flag_kind_of(e.flag.as_str()),
            Option::None => FlagKind::Empty,
        };
        if matches!(user_kind, FlagKind::Empty) && m > 0 {
            let (row_text, _unused) = build_row_search_text(&names, table, row);
            let colmap = build_row_colmap_all(&names, table, row);
            let mut found: bool = false;
            let mut j: usize = 0;
            while j < m && !found
                invariant
                    tv == table@,
                    ev == iocs_view(iocs@),
                    nv == names_from(tv, 0),
                    strs_view(names@) == nv,
                    m == iocs@.len(),
                    row < n,
                    n == table.row_count,
                    0 <= j <= m,
                    row_text@ == spec_row_text(tv, nv, row as int),
                    crate::mask::colmap_view(colmap@) == single_colmap_all(
                        tv,
                        nv,
                        nv.len() as int,
                        row as int,
                    ),
                    !found ==> any_rule_matches(tv, nv, ev, 0, row as int) == any_rule_matches(
                        tv,
                        nv,
                        ev,
                        j as int,
                        row as int,
                    ),
                    found ==> any_rule_matches(tv, nv, ev, 0, row as int),
                decreases m - j,
            {
                let q_cs = chars_of(iocs[j].query.as_str());
                let q_t = trim_chars(&q_cs);
                if q_t.len() > 0 {
                    let q_str = string_from_chars(&q_t);
                    let tokens = tokenize_search_query(q_str.as_str());
                    let (terms, _cols) = collect_terms(&tokens);
                    if terms.len() > 0 {
                        let rpn = to_rpn(&tokens);
                        let mut single_row: Vec<String> = Vec::new();
                        single_row.push(row_text.clone());
                        proof {
                            assert(strs_view(single_row@) =~= seq![spec_row_text(
                                tv,
                                nv,
                                row as int,
                            )]);
                        }
                        let mask = build_search_mask_boolean(
                            &rpn,
                            &terms,
                            &single_row,
                            Option::Some(&colmap),
                        );
                        if mask.len() > 0 && mask[0] {
                            found = true;
                        }
                    }
                }
                j += 1;
            }
            if found {
                count += 1;
            }
        }
        row += 1;
    }
    count
}

} // verus!
