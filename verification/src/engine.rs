//! The row-query engine: scope selection, the row-text cache, search-mask
//! evaluation, the IOC flag overlay with its cache, sorting, flag filtering,
//! totals and pagination, and the materialisation of page rows with composed
//! memos.

use vstd::prelude::*;

use crate::cache::ProjectCaches;
use crate::flags::{
    filter_admits, flag_chars, flag_kind_of, flag_rank, flag_text, parse_flag,
    spec_matches_flag_filter, FlagKind,
};
use crate::ioc::{clone_ioc, iocs_view, IocEntry};
use crate::mask::{build_search_mask_boolean, colmap_view, spec_mask, spec_row_mask};
use crate::search::{
    collect_terms, cols_from, keys_from, spec_rpn, spec_tokenize, strs_view, to_rpn,
    tokenize_search_query,
};
use crate::sort::{
    extract_key, keys_vals, sort_indices, spec_sort_indices, spec_sort_key, SortKey,
};
use crate::store::{store_lookup, store_user_flag, FlagStore};
use crate::table::{
    build_row_search_text, build_searchable_text, cells_view, collect_row_record,
    ensure_column_text_cache, find_col, find_column, names_from, record_from, single_colmap,
    spec_ensure_col, spec_row_text, visible_columns, ProjectRow, Table,
};
use crate::text::{
    chars_of, contains_chars, push_all, seq_contains, string_from_chars, trim_chars, trim_seq,
};
use crate::value::CellVal;

verus! {

/// A row query: search text, scope columns, flag filter, paging and sorting.
#[derive(Debug)]
pub struct QueryRequest {
    pub search: Option<String>,
    pub columns: Option<Vec<String>>,
    pub flag_filter: Option<String>,
    pub offset: Option<usize>,
    pub limit: Option<usize>,
    pub sort_key: Option<String>,
    pub sort_desc: bool,
}

/// A page of rows with the query's totals.
#[derive(Debug)]
pub struct QueryRowsResponse {
    pub rows: Vec<ProjectRow>,
    pub total_flagged: usize,
    pub total_rows: usize,
    pub total_filtered_rows: usize,
    pub offset: usize,
}

/// The default page size; `limit` is floored at 1.
pub open spec fn default_page_size() -> int {
    250
}

/// Everything a query's outcome depends on: the table view, the visible
/// column names, the search scope, the two cache states, the flag store, the
/// rules and the request.
pub struct QueryInput {
    pub tv: Seq<(Seq<char>, Seq<CellVal>)>,
    pub names: Seq<Seq<char>>,
    pub sc: Seq<Seq<char>>,
    pub rt_cache: Option<Seq<Seq<char>>>,
    pub if_cache: Option<Seq<FlagKind>>,
    pub flags: FlagStore,
    pub iocs: Seq<(Seq<char>, Seq<char>, Seq<char>)>,
    pub search: Option<Seq<char>>,
    pub flag_filter: Option<Seq<char>>,
    pub offset: Option<int>,
    pub limit: Option<int>,
    pub sort_key: Option<Seq<char>>,
    pub sort_desc: bool,
    pub n: int,
}

/// Assembles the query input from the live values.
pub open spec fn qin(
    table: Table,
    caches: ProjectCaches,
    flags: FlagStore,
    iocs: Seq<(Seq<char>, Seq<char>, Seq<char>)>,
    req: QueryRequest,
) -> QueryInput {
    QueryInput {
        tv: table@,
        names: names_from(table@, 0),
        sc: match req.columns {
            Option::Some(c) => strs_view(c@),
            Option::None => names_from(table@, 0),
        },
        rt_cache: match caches.row_text {
            Option::Some(v) => Option::Some(strs_view(v@)),
            Option::None => Option::None,
        },
        if_cache: match caches.ioc_flags {
            Option::Some(v) => Option::Some(v@),
            Option::None => Option::None,
        },
        flags,
        iocs,
        search: match req.search {
            Option::Some(s) => Option::Some(s@),
            Option::None => Option::None,
        },
        flag_filter: match req.flag_filter {
            Option::Some(s) => Option::Some(s@),
            Option::None => Option::None,
        },
        offset: match req.offset {
            Option::Some(o) => Option::Some(o as int),
            Option::None => Option::None,
        },
        limit: match req.limit {
            Option::Some(l) => Option::Some(l as int),
            Option::None => Option::None,
        },
        sort_key: match req.sort_key {
            Option::Some(s) => Option::Some(s@),
            Option::None => Option::None,
        },
        sort_desc: req.sort_desc,
        n: table.row_count as int,
    }
}

// ---------------------------------------------------------------------------
// Row-text cache and search mask.
// ---------------------------------------------------------------------------

/// The freshly built row texts over the scope columns.
pub open spec fn built_texts(q: QueryInput) -> Seq<Seq<char>> {
    Seq::new(q.n as nat, |i: int| spec_row_text(q.tv, q.sc, i))
}

/// The view of an optional row-text vector.
pub open spec fn rt_view(c: Option<Vec<String>>) -> Option<Seq<Seq<char>>> {
    match c {
        Option::Some(v) => Option::Some(strs_view(v@)),
        Option::None => Option::None,
    }
}

/// A cached row-text vector is reused when its length matches the row count
/// and it is non-trivial (some entry non-empty).
pub open spec fn rt_valid(rt: Option<Seq<Seq<char>>>, n: int) -> bool {
    match rt {
        Option::Some(v) => v.len() == n && (exists|i: int| 0 <= i < v.len() && v[i].len() > 0),
        Option::None => false,
    }
}

/// The query's row-text cache is valid.
pub open spec fn rt_cache_valid(q: QueryInput) -> bool {
    rt_valid(q.rt_cache, q.n)
}

/// The row texts the query uses: the valid cache, or a fresh build.
pub open spec fn m_texts(q: QueryInput) -> Seq<Seq<char>> {
    if rt_cache_valid(q) {
        q.rt_cache.unwrap()
    } else {
        built_texts(q)
    }
}

/// The trimmed search text; empty when no search was given.
pub open spec fn search_q(q: QueryInput) -> Seq<char> {
    match q.search {
        Option::Some(s) => trim_seq(s),
        Option::None => Seq::empty(),
    }
}

/// Extends a per-column text table with each of `cols[j..]` in turn.
pub open spec fn ensure_cols_from(
    cm: Seq<(Seq<char>, Seq<Seq<char>>)>,
    tv: Seq<(Seq<char>, Seq<CellVal>)>,
    cols: Seq<Seq<char>>,
    j: int,
    n: int,
) -> Seq<(Seq<char>, Seq<Seq<char>>)>
    decreases cols.len() - j,
{
    if !(0 <= j < cols.len()) {
        cm
    } else {
        ensure_cols_from(spec_ensure_col(cm, tv, cols[j], n), tv, cols, j + 1, n)
    }
}

/// The per-column text table after the search stage.
pub open spec fn m_search_colmap(q: QueryInput) -> Seq<(Seq<char>, Seq<Seq<char>>)> {
    if search_q(q).len() > 0 {
        ensure_cols_from(
            Seq::empty(),
            q.tv,
            cols_from(spec_tokenize(search_q(q)), 0, Seq::empty()),
            0,
            q.n,
        )
    } else {
        Seq::empty()
    }
}

/// The search mask: absent when there is no search or the search has no
/// terms; then every row is admitted.
pub open spec fn m_mask(q: QueryInput) -> Option<Seq<bool>> {
    if search_q(q).len() > 0 {
        let tokens = spec_tokenize(search_q(q));
        let keys = keys_from(tokens, 0, Seq::empty());
        if keys.len() > 0 {
            Option::Some(
                spec_mask(spec_rpn(tokens), keys, m_texts(q), Option::Some(m_search_colmap(q))),
            )
        } else {
            Option::None
        }
    } else {
        Option::None
    }
}

/// The search alone forces the row text to exist: it has at least one term.
pub open spec fn search_needs_text(q: QueryInput) -> bool {
    search_q(q).len() > 0 && keys_from(spec_tokenize(search_q(q)), 0, Seq::empty()).len() > 0
}

/// A rule forces the row text to exist: its trimmed query has terms.
pub open spec fn rule_needs_text(rule: (Seq<char>, Seq<char>, Seq<char>)) -> bool {
    trim_seq(rule.2).len() > 0 && keys_from(
        spec_tokenize(trim_seq(rule.2)),
        0,
        Seq::empty(),
    ).len() > 0
}

/// Whether any of the first `j` severity-sorted rules forces the row text.
pub open spec fn rules_need_upto(
    rules: Seq<(Seq<char>, Seq<char>, Seq<char>)>,
    j: int,
) -> bool
    decreases j,
{
    if j <= 0 {
        false
    } else {
        rules_need_upto(rules, j - 1) || rule_needs_text(rules[j - 1])
    }
}

/// Whether the query ever builds or reads the row-text vector — the row-text
/// cache is touched lazily, only on first need.
pub open spec fn m_text_needed(q: QueryInput) -> bool {
    search_needs_text(q) || (all_empty(ioc_candidate(q)) && rules_need_upto(
        sorted_iocs(q.iocs),
        sorted_iocs(q.iocs).len() as int,
    ))
}

// ---------------------------------------------------------------------------
// Flag vectors.
// ---------------------------------------------------------------------------

/// The normalised user flag of each row.
pub open spec fn m_user(q: QueryInput) -> Seq<FlagKind> {
    Seq::new(q.n as nat, |i: int| store_user_flag(q.flags, i))
}

/// Inserts a rule into a severity-sorted list, before the first rule of
/// strictly lower rank (so equal ranks keep their arrival order).
pub open spec fn insert_by_rank(
    sorted: Seq<(Seq<char>, Seq<char>, Seq<char>)>,
    x: (Seq<char>, Seq<char>, Seq<char>),
) -> Seq<(Seq<char>, Seq<char>, Seq<char>)>
    decreases sorted.len(),
{
    if sorted.len() == 0 {
        seq![x]
    } else if flag_rank(parse_flag(x.0)) > flag_rank(parse_flag(sorted[0].0)) {
        seq![x] + sorted
    } else {
        seq![sorted[0]] + insert_by_rank(sorted.drop_first(), x)
    }
}

/// The first `k` rules, stably sorted by descending severity.
pub open spec fn sort_rank_upto(
    s: Seq<(Seq<char>, Seq<char>, Seq<char>)>,
    k: int,
) -> Seq<(Seq<char>, Seq<char>, Seq<char>)>
    decreases k,
{
    if k <= 0 {
        Seq::empty()
    } else {
        insert_by_rank(sort_rank_upto(s, k - 1), s[k - 1])
    }
}

/// The rules stably sorted by descending severity rank.
pub open spec fn sorted_iocs(s: Seq<(Seq<char>, Seq<char>, Seq<char>)>) -> Seq<
    (Seq<char>, Seq<char>, Seq<char>),
> {
    sort_rank_upto(s, s.len() as int)
}

/// The candidate IOC vector from the cache: reused when its length matches,
/// otherwise all-absent.
pub open spec fn ioc_candidate(q: QueryInput) -> Seq<FlagKind> {
    match q.if_cache {
        Option::Some(v) => if v.len() == q.n {
            v
        } else {
            Seq::new(q.n as nat, |i: int| FlagKind::Empty)
        },
        Option::None => Seq::new(q.n as nat, |i: int| FlagKind::Empty),
    }
}

/// All entries absent.
pub open spec fn all_empty(v: Seq<FlagKind>) -> bool {
    forall|i: int| 0 <= i < v.len() ==> v[i] == FlagKind::Empty
}

/// One rebuild step: evaluate one rule's mask and assign its flag to rows
/// that still have neither a user flag nor an IOC flag.
pub open spec fn ioc_step(
    q: QueryInput,
    texts: Seq<Seq<char>>,
    user: Seq<FlagKind>,
    st: (Seq<(Seq<char>, Seq<Seq<char>>)>, Seq<FlagKind>),
    rule: (Seq<char>, Seq<char>, Seq<char>),
) -> (Seq<(Seq<char>, Seq<Seq<char>>)>, Seq<FlagKind>) {
    let qr = trim_seq(rule.2);
    if qr.len() == 0 {
        st
    } else {
        let tokens = spec_tokenize(qr);
        let cm2 = ensure_cols_from(st.0, q.tv, cols_from(tokens, 0, Seq::empty()), 0, q.n);
        let keys = keys_from(tokens, 0, Seq::empty());
        if keys.len() == 0 {
            (cm2, st.1)
        } else {
            let mask = spec_mask(spec_rpn(tokens), keys, texts, Option::Some(cm2));
            (
                cm2,
                Seq::new(
                    q.n as nat,
                    |i: int|
                        if st.1[i] == FlagKind::Empty && user[i] == FlagKind::Empty && mask[i] {
                            parse_flag(rule.0)
                        } else {
                            st.1[i]
                        },
                ),
            )
        }
    }
}

/// The rebuild fold over the severity-sorted rules.
pub open spec fn ioc_fold(
    q: QueryInput,
    texts: Seq<Seq<char>>,
    user: Seq<FlagKind>,
    rules: Seq<(Seq<char>, Seq<char>, Seq<char>)>,
    j: int,
    st: (Seq<(Seq<char>, Seq<Seq<char>>)>, Seq<FlagKind>),
) -> (Seq<(Seq<char>, Seq<Seq<char>>)>, Seq<FlagKind>)
    decreases rules.len() - j,
{
    if !(0 <= j < rules.len()) {
        st
    } else {
        ioc_fold(q, texts, user, rules, j + 1, ioc_step(q, texts, user, st, rules[j]))
    }
}

/// The IOC flag vector the query uses: the cached vector when it has the
/// right length and is not all-absent, else a full rebuild.
pub open spec fn m_ioc(q: QueryInput) -> Seq<FlagKind> {
    let cand = ioc_candidate(q);
    if all_empty(cand) {
        ioc_fold(q, m_texts(q), m_user(q), sorted_iocs(q.iocs), 0, (m_search_colmap(q), cand)).1
    } else {
        cand
    }
}

/// The final flag of each row: the user flag when present, else the IOC flag.
pub open spec fn m_finals(q: QueryInput) -> Seq<FlagKind> {
    Seq::new(
        q.n as nat,
        |i: int|
            if m_user(q)[i] != FlagKind::Empty {
                m_user(q)[i]
            } else {
                m_ioc(q)[i]
            },
    )
}

// ---------------------------------------------------------------------------
// Order, filter, totals, page.
// ---------------------------------------------------------------------------

/// Insertion order of all rows.
pub open spec fn identity_order(n: int) -> Seq<int> {
    Seq::new(n as nat, |i: int| i)
}

/// The row order: sorted by the sort column's keys when it names a column,
/// else insertion order.
pub open spec fn m_order(q: QueryInput) -> Seq<int> {
    match q.sort_key {
        Option::Some(k) => match find_col(q.tv, k) {
            Option::Some(cells) => spec_sort_indices(
                Seq::new(q.n as nat, |i: int| spec_sort_key(cells, i)),
                q.sort_desc,
            ),
            Option::None => identity_order(q.n),
        },
        Option::None => identity_order(q.n),
    }
}

/// Whether the flag filter admits a row's final flag.
pub open spec fn flag_ok(q: QueryInput, idx: int) -> bool {
    match q.flag_filter {
        Option::Some(f) => spec_matches_flag_filter(flag_chars(m_finals(q)[idx]), f),
        Option::None => true,
    }
}

/// Whether the search mask admits a row.
pub open spec fn mask_ok(q: QueryInput, idx: int) -> bool {
    match m_mask(q) {
        Option::Some(m) => m[idx],
        Option::None => true,
    }
}

/// The ordered rows that pass both the flag filter and the search mask.
pub open spec fn filter_from(q: QueryInput, j: int) -> Seq<int>
    decreases m_order(q).len() - j,
{
    if !(0 <= j < m_order(q).len()) {
        Seq::empty()
    } else {
        let idx = m_order(q)[j];
        (if flag_ok(q, idx) && mask_ok(q, idx) {
            seq![idx]
        } else {
            Seq::<int>::empty()
        }) + filter_from(q, j + 1)
    }
}

/// The filtered row list.
pub open spec fn m_filtered(q: QueryInput) -> Seq<int> {
    filter_from(q, 0)
}

/// How many of the filtered rows carry a non-absent final flag.
pub open spec fn count_flagged_in(q: QueryInput, f: Seq<int>, j: int) -> int
    decreases f.len() - j,
{
    if !(0 <= j < f.len()) {
        0
    } else {
        (if m_finals(q)[f[j]] != FlagKind::Empty {
            1int
        } else {
            0int
        }) + count_flagged_in(q, f, j + 1)
    }
}

/// The filtered-list flagged total.
pub open spec fn m_flagged(q: QueryInput) -> int {
    count_flagged_in(q, m_filtered(q), 0)
}

/// The requested offset, defaulted to 0.
pub open spec fn m_offset(q: QueryInput) -> int {
    match q.offset {
        Option::Some(o) => o,
        Option::None => 0,
    }
}

/// The requested limit, defaulted to the page size and floored at 1.
pub open spec fn m_limit(q: QueryInput) -> int {
    let l = match q.limit {
        Option::Some(l) => l,
        Option::None => default_page_size(),
    };
    if l < 1 {
        1
    } else {
        l
    }
}

/// The page window over the filtered list: `limit` rows from `offset`,
/// clamped to what is available.
pub open spec fn m_page(q: QueryInput) -> Seq<int> {
    let f = m_filtered(q);
    let start = if m_offset(q) > f.len() {
        f.len() as int
    } else {
        m_offset(q)
    };
    let end = if m_offset(q) + m_limit(q) > f.len() {
        f.len() as int
    } else {
        m_offset(q) + m_limit(q)
    };
    f.subrange(start, end)
}

// ---------------------------------------------------------------------------
// Page rows and memo composition.
// ---------------------------------------------------------------------------

/// Whether one rule's trimmed query matches a single row, as the memo pass
/// evaluates it (row text and per-column texts of the visible columns).
pub open spec fn page_rule_matches(q: QueryInput, row: int, qr: Seq<char>) -> bool {
    let tokens = spec_tokenize(qr);
    let keys = keys_from(tokens, 0, Seq::empty());
    if keys.len() == 0 {
        false
    } else {
        spec_row_mask(
            spec_rpn(tokens),
            keys,
            seq![spec_row_text(q.tv, q.names, row)],
            Option::Some(single_colmap(q.tv, q.names, q.names.len() as int, row)),
            0,
        )
    }
}

/// The deduplicated `[tag]` tokens of the rules matching a row, in rule
/// order.
pub open spec fn page_tags(q: QueryInput, j: int, row: int, acc: Seq<Seq<char>>) -> Seq<Seq<char>>
    decreases q.iocs.len() - j,
{
    if !(0 <= j < q.iocs.len()) {
        acc
    } else {
        let qr = trim_seq(q.iocs[j].2);
        let tag = trim_seq(q.iocs[j].1);
        let token = seq!['['] + tag + seq![']'];
        let acc2 = if qr.len() > 0 && page_rule_matches(q, row, qr) && tag.len() > 0
            && !acc.contains(token) {
            acc.push(token)
        } else {
            acc
        };
        page_tags(q, j + 1, row, acc2)
    }
}

/// Appends each tag token not already contained in the memo, separated by a
/// single space.
pub open spec fn append_tags(memo: Seq<char>, tags: Seq<Seq<char>>, j: int) -> Seq<char>
    decreases tags.len() - j,
{
    if !(0 <= j < tags.len()) {
        memo
    } else {
        let memo2 = if !seq_contains(memo, tags[j]) {
            if memo.len() > 0 && memo.last() != ' ' {
                memo + seq![' '] + tags[j]
            } else {
                memo + tags[j]
            }
        } else {
            memo
        };
        append_tags(memo2, tags, j + 1)
    }
}

/// The raw user memo of a row, empty when absent.
pub open spec fn user_memo_of(q: QueryInput, idx: int) -> Seq<char> {
    match store_lookup(q.flags, idx) {
        Option::Some(e) => match e.1 {
            Option::Some(m) => m,
            Option::None => Seq::empty(),
        },
        Option::None => Seq::empty(),
    }
}

/// One materialised page row: position, visible data, final flag text, and
/// the memo. A row with a user flag keeps its user memo verbatim; only a row
/// without one gains the `[tag]` tokens of the rules that match it.
pub open spec fn page_row_of(q: QueryInput, idx: int) -> (
    int,
    Seq<(Seq<char>, CellVal)>,
    Seq<char>,
    Option<Seq<char>>,
) {
    let record = record_from(q.tv, q.names, 0, idx);
    let memo0 = user_memo_of(q, idx);
    let memo = if q.iocs.len() > 0 && m_user(q)[idx] == FlagKind::Empty {
        append_tags(memo0, page_tags(q, 0, idx, Seq::empty()), 0)
    } else {
        memo0
    };
    (
        idx,
        record,
        flag_chars(m_finals(q)[idx]),
        if memo.len() == 0 {
            Option::<Seq<char>>::None
        } else {
            Option::Some(memo)
        },
    )
}

/// The materialised page.
pub open spec fn m_rows(q: QueryInput) -> Seq<
    (int, Seq<(Seq<char>, CellVal)>, Seq<char>, Option<Seq<char>>),
> {
    Seq::new(m_page(q).len(), |j: int| page_row_of(q, m_page(q)[j]))
}

// ---------------------------------------------------------------------------
// Executable helpers.
// ---------------------------------------------------------------------------

/// Ensures the lowercase row-text vector exists: a valid cached vector is
/// reused, anything else is rebuilt over the scope columns; the result is
/// installed in the cache and returned.
pub fn ensure_searchable_text(
    caches: &mut ProjectCaches,
    row_count: usize,
    search_cols: &Vec<String>,
    table: &Table,
) -> (r: Vec<String>)
    ensures
        strs_view(r@) == (if rt_valid(rt_view(old(caches).row_text), row_count as int) {
            rt_view(old(caches).row_text).unwrap()
        } else {
            Seq::new(
                row_count as nat,
                |i: int| spec_row_text(table@, strs_view(search_cols@), i),
            )
        }),
        rt_view(final(caches).row_text) == Option::Some(strs_view(r@)),
        final(caches).ioc_flags == old(caches).ioc_flags,
{
    let texts: Vec<String> = match &caches.row_text {
        Option::Some(v) => {
            if v.len() == row_count && any_nonempty(v) {
                clone_strings(v)
            } else {
                let built = build_searchable_text(row_count, search_cols, table);
                proof {
                    assert(strs_view(built@) =~= Seq::new(
                        row_count as nat,
                        |i: int| spec_row_text(table@, strs_view(search_cols@), i),
                    ));
                }
                built
            }
        },
        Option::None => {
            let built = build_searchable_text(row_count, search_cols, table);
            proof {
                assert(strs_view(built@) =~= Seq::new(
                    row_count as nat,
                    |i: int| spec_row_text(table@, strs_view(search_cols@), i),
                ));
            }
            built
        },
    };
    caches.row_text = Option::Some(clone_strings(&texts));
    texts
}

fn clone_strings(v: &Vec<String>) -> (r: Vec<String>)
    ensures
        strs_view(r@) == strs_view(v@),
{
    let n = v.len();
    let mut out: Vec<String> = Vec::new();
    let mut i: usize = 0;
    while i < n
        invariant
            n == v@.len(),
            0 <= i <= n,
            strs_view(out@) == strs_view(v@).subrange(0, i as int),
        decreases n - i,
    {
        let ghost before = strs_view(out@);
        let c = v[i].clone();
        proof {
            assert(c@ == v@[i as int]@);
        }
        out.push(c);
        proof {
            assert(strs_view(out@) =~= before.push(v@[i as int]@));
            assert(strs_view(out@) =~= strs_view(v@).subrange(0, i + 1));
        }
        i += 1;
    }
    proof {
        assert(strs_view(v@).subrange(0, n as int) =~= strs_view(v@));
    }
    out
}

fn any_nonempty(v: &Vec<String>) -> (r: bool)
    ensures
        r == (exists|i: int| 0 <= i < strs_view(v@).len() && strs_view(v@)[i].len() > 0),
{
    let n = v.len();
    let mut i: usize = 0;
    while i < n
        invariant
            n == v@.len(),
            0 <= i <= n,
            forall|k: int| 0 <= k < i ==> strs_view(v@)[k].len() == 0,
        decreases n - i,
    {
        if v[i].as_str().unicode_len() > 0 {
            assert(strs_view(v@)[i as int].len() > 0);
            return true;
        }
        i += 1;
    }
    false
}

fn clone_kinds(v: &Vec<FlagKind>) -> (r: Vec<FlagKind>)
    ensures
        r@ == v@,
{
    let n = v.len();
    let mut out: Vec<FlagKind> = Vec::new();
    let mut i: usize = 0;
    while i < n
        invariant
            n == v@.len(),
            0 <= i <= n,
            out@ == v@.subrange(0, i as int),
        decreases n - i,
    {
        out.push(v[i]);
        proof {
            assert(out@ =~= v@.subrange(0, i + 1));
        }
        i += 1;
    }
    proof {
        assert(v@.subrange(0, n as int) =~= v@);
    }
    out
}

fn all_kinds_empty(v: &Vec<FlagKind>) -> (r: bool)
    ensures
        r == all_empty(v@),
{
    let n = v.len();
    let mut i: usize = 0;
    while i < n
        invariant
            n == v@.len(),
            0 <= i <= n,
            forall|k: int| 0 <= k < i ==> v@[k] == FlagKind::Empty,
        decreases n - i,
    {
        let k = v[i];
        if !matches!(k, FlagKind::Empty) {
            return false;
        }
        i += 1;
    }
    true
}

fn rank_of_entry(e: &IocEntry) -> (r: u8)
    ensures
        r == flag_rank(parse_flag(e.flag@)),
{
    let k = flag_kind_of(e.flag.as_str());
    match k {
        FlagKind::Empty => 0,
        FlagKind::Safe => 1,
        FlagKind::Suspicious => 2,
        FlagKind::Critical => 3,
    }
}

fn sort_iocs_by_rank(iocs: &Vec<IocEntry>) -> (r: Vec<IocEntry>)
    ensures
        iocs_view(r@) == sorted_iocs(iocs_view(iocs@)),
{
    let ghost ev = iocs_view(iocs@);
    let m = iocs.len();
    let mut out: Vec<IocEntry> = Vec::new();
    let mut j: usize = 0;
    proof {
        assert(iocs_view(out@) =~= Seq::<(Seq<char>, Seq<char>, Seq<char>)>::empty());
    }
    while j < m
        invariant
            m == iocs@.len(),
            ev == iocs_view(iocs@),
            0 <= j <= m,
            iocs_view(out@) == sort_rank_upto(ev, j as int),
            out@.len() == j,
        decreases m - j,
    {
        let x = clone_ioc(&iocs[j]);
        let rx = rank_of_entry(&x);
        let k = out.len();
        let mut pos: usize = 0;
        loop
            invariant
                k == out@.len(),
                rx == flag_rank(parse_flag(ev[j as int].0)),
                ioc_view_eq(x, ev[j as int]),
                0 <= pos <= k,
                forall|p: int|
                    0 <= p < pos ==> !(flag_rank(parse_flag(ev[j as int].0)) > flag_rank(
                        parse_flag((#[trigger] iocs_view(out@)[p]).0),
                    )),
            ensures
                0 <= pos <= k,
                forall|p: int|
                    0 <= p < pos ==> !(flag_rank(parse_flag(ev[j as int].0)) > flag_rank(
                        parse_flag((#[trigger] iocs_view(out@)[p]).0),
                    )),
                pos < k ==> flag_rank(parse_flag(ev[j as int].0)) > flag_rank(
                    parse_flag(iocs_view(out@)[pos as int].0),
                ),
            decreases k - pos,
        {
            if pos >= k {
                break ;
            }
            let ry = rank_of_entry(&out[pos]);
            proof {
                assert(iocs_view(out@)[pos as int].0 == out@[pos as int].flag@);
            }
            if rx > ry {
                break ;
            }
            pos += 1;
        }
        let ghost sorted = iocs_view(out@);
        proof {
            lemma_insert_by_rank_at(sorted, ev[j as int], pos as int);
        }
        out.insert(pos, x);
        proof {
            assert(iocs_view(out@) =~= sorted.subrange(0, pos as int) + seq![ev[j as int]]
                + sorted.subrange(pos as int, sorted.len() as int));
        }
        j += 1;
    }
    out
}

/// A rule value equals a rule view.
pub open spec fn ioc_view_eq(e: IocEntry, v: (Seq<char>, Seq<char>, Seq<char>)) -> bool {
    crate::ioc::ioc_view(e) == v
}

proof fn lemma_insert_by_rank_at(
    s: Seq<(Seq<char>, Seq<char>, Seq<char>)>,
    x: (Seq<char>, Seq<char>, Seq<char>),
    pos: int,
)
    requires
        0 <= pos <= s.len(),
        forall|p: int|
            0 <= p < pos ==> !(flag_rank(parse_flag(x.0)) > flag_rank(
                parse_flag((#[trigger] s[p]).0),
            )),
        pos < s.len() ==> flag_rank(parse_flag(x.0)) > flag_rank(parse_flag(s[pos].0)),
    ensures
        insert_by_rank(s, x) == s.subrange(0, pos) + seq![x] + s.subrange(pos, s.len() as int),
    decreases s.len(),
{
    if s.len() == 0 {
        assert(insert_by_rank(s, x) =~= s.subrange(0, 0) + seq![x] + s.subrange(0, 0));
    } else if pos == 0 {
        assert(insert_by_rank(s, x) =~= s.subrange(0, 0) + seq![x] + s.subrange(0, s.len() as int));
    } else {
        lemma_insert_by_rank_at(s.drop_first(), x, pos - 1);
        assert(s.drop_first().subrange(0, pos - 1) =~= s.subrange(1, pos));
        assert(s.drop_first().subrange(pos - 1, s.drop_first().len() as int) =~= s.subrange(
            pos,
            s.len() as int,
        ));
        assert(insert_by_rank(s, x) =~= s.subrange(0, pos) + seq![x] + s.subrange(
            pos,
            s.len() as int,
        ));
    }
}

fn tags_contain(tags: &Vec<Vec<char>>, token: &Vec<char>) -> (r: bool)
    ensures
        r == tags_view(tags@).contains(token@),
{
    let n = tags.len();
    let mut i: usize = 0;
    while i < n
        invariant
            n == tags@.len(),
            0 <= i <= n,
            forall|k: int| 0 <= k < i ==> tags_view(tags@)[k] != token@,
        decreases n - i,
    {
        if crate::text::chars_eq(&tags[i], token) {
            assert(tags_view(tags@)[i as int] == token@);
            return true;
        }
        i += 1;
    }
    assert(forall|k: int| 0 <= k < tags_view(tags@).len() ==> tags_view(tags@)[k] != token@);
    false
}

/// The views of a tag-token vector.
pub open spec fn tags_view(s: Seq<Vec<char>>) -> Seq<Seq<char>> {
    Seq::new(s.len(), |i: int| s[i]@)
}

// ---------------------------------------------------------------------------
// The query.
// ---------------------------------------------------------------------------

/// Answers a row query: filters, sorts and paginates the table's rows under
/// the user flags, the IOC overlay and the search mask, maintaining the
/// per-project caches.
pub fn query_rows(
    table: &Table,
    flags: &FlagStore,
    iocs: &Vec<IocEntry>,
    caches: &mut ProjectCaches,
    req: &QueryRequest,
) -> (r: QueryRowsResponse)
    ensures
        ({
            let q = qin(*table, *old(caches), *flags, iocs_view(iocs@), *req);
            &&& r.total_rows == table.row_count
            &&& r.offset as int == m_offset(q)
            &&& r.total_filtered_rows as int == m_filtered(q).len()
            &&& r.total_flagged as int == m_flagged(q)
            &&& crate::table::rows_view(r.rows@) == m_rows(q)
            &&& (if m_text_needed(q) {
                match final(caches).row_text {
                    Option::Some(v) => strs_view(v@) == m_texts(q),
                    Option::None => false,
                }
            } else {
                final(caches).row_text == old(caches).row_text
            })
            &&& (match final(caches).ioc_flags {
                Option::Some(v) => v@ == m_ioc(q),
                Option::None => false,
            })
        }),
{
    let ghost q = qin(*table, *old(caches), *flags, iocs_view(iocs@), *req);
    let n = table.row_count;
    let names = visible_columns(table);
    proof {
        assert(strs_view(names@) == q.names);
    }

    // Scope selection.
    let search_cols: Vec<String> = match &req.columns {
        Option::Some(c) => clone_strings(c),
        Option::None => clone_strings(&names),
    };
    proof {
        assert(strs_view(search_cols@) == q.sc);
    }

    // The row texts are built lazily, on first need; `have_texts` tracks
    // whether the cache has been consulted and filled.
    let mut texts: Vec<String> = Vec::new();
    let mut have_texts: bool = false;

    // Search mask.
    let mut cm: Vec<(String, Vec<String>)> = Vec::new();
    proof {
        assert(colmap_view(cm@) =~= Seq::<(Seq<char>, Seq<Seq<char>>)>::empty());
    }
    let mut mask: Option<Vec<bool>> = Option::None;
    let search_trimmed: Vec<char> = match &req.search {
        Option::Some(s) => {
            let cs = chars_of(s.as_str());
            trim_chars(&cs)
        },
        Option::None => Vec::new(),
    };
    proof {
        assert(search_trimmed@ == search_q(q));
    }
    if search_trimmed.len() > 0 {
        let s_str = string_from_chars(&search_trimmed);
        let tokens = tokenize_search_query(s_str.as_str());
        let (terms, needed) = collect_terms(&tokens);
        let ghost needed_v = cols_from(spec_tokenize(search_q(q)), 0, Seq::empty());
        proof {
            assert(strs_view(needed@) == needed_v);
        }
        let nn = needed.len();
        let mut ci: usize = 0;
        while ci < nn
            invariant
                nn == needed@.len(),
                needed_v == strs_view(needed@),
                q == qin(*table, *old(caches), *flags, iocs_view(iocs@), *req),
                q.tv == table@,
                q.n == table.row_count as int,
                n == table.row_count,
                0 <= ci <= nn,
                colmap_view(cm@) == ensure_cols_from(
                    Seq::empty(),
                    q.tv,
                    needed_v.subrange(0, ci as int),
                    0,
                    q.n,
                ),
            decreases nn - ci,
        {
            let ghost before = colmap_view(cm@);
            ensure_column_text_cache(&needed[ci], table, n, &mut cm);
            proof {
                assert(needed_v.subrange(0, ci as int + 1) =~= needed_v.subrange(
                    0,
                    ci as int,
                ).push(needed_v[ci as int]));
                lemma_ensure_cols_snoc(
                    Seq::empty(),
                    q.tv,
                    needed_v.subrange(0, ci as int),
                    0,
                    needed_v[ci as int],
                    q.n,
                );
            }
            ci += 1;
        }
        proof {
            assert(needed_v.subrange(0, nn as int) =~= needed_v);
            assert(colmap_view(cm@) == m_search_colmap(q));
        }
        if terms.len() > 0 {
            texts = ensure_searchable_text(caches, n, &search_cols, table);
            have_texts = true;
            proof {
                if rt_cache_valid(q) {
                    assert(strs_view(texts@) == m_texts(q));
                } else {
                    assert(strs_view(texts@) =~= built_texts(q));
                }
            }
            let m = build_search_mask_boolean(&to_rpn(&tokens), &terms, &texts, Option::Some(&cm));
            proof {
                assert(m@ == m_mask(q).unwrap());
            }
            mask = Option::Some(m);
        }
    }
    proof {
        match &mask {
            Option::Some(m) => {
                assert(m_mask(q) is Some && m@ == m_mask(q).unwrap());
            },
            Option::None => {
                assert(m_mask(q) is None);
            },
        }
        assert(have_texts == search_needs_text(q));
    }

    // User flag vector.
    let mut user: Vec<FlagKind> = Vec::new();
    let mut i: usize = 0;
    while i < n
        invariant
            q == qin(*table, *old(caches), *flags, iocs_view(iocs@), *req),
            q.flags == *flags,
            q.n == n as int,
            0 <= i <= n,
            user@.len() == i,
            forall|k: int| 0 <= k < i ==> user@[k] == store_user_flag(q.flags, k),
        decreases n - i,
    {
        let k = match flags.get_flag(i) {
            Option::Some(e) => flag_kind_of(e.flag.as_str()),
            Option::None => FlagKind::Empty,
        };
        user.push(k);
        i += 1;
    }
    proof {
        assert(user@ =~= m_user(q));
    }

    // IOC flag vector: reuse or rebuild.
    let mut ioc_vec: Vec<FlagKind> = match &caches.ioc_flags {
        Option::Some(v) => {
            if v.len() == n {
                clone_kinds(v)
            } else {
                empty_kinds(n)
            }
        },
        Option::None => empty_kinds(n),
    };
    proof {
        assert(ioc_vec@ =~= ioc_candidate(q));
    }
    if all_kinds_empty(&ioc_vec) {
        let sorted = sort_iocs_by_rank(iocs);
        let ghost sv = sorted_iocs(q.iocs);
        proof {
            assert(iocs_view(sorted@) == sv);
        }
        let m = sorted.len();
        let mut j: usize = 0;
        while j < m
            invariant
                m == sorted@.len(),
                sv == iocs_view(sorted@),
                q == qin(*table, *old(caches), *flags, iocs_view(iocs@), *req),
                q.tv == table@,
                q.n == n as int,
                n == table.row_count,
                strs_view(search_cols@) == q.sc,
                have_texts ==> strs_view(texts@) == m_texts(q),
                have_texts ==> (match caches.row_text {
                    Option::Some(v) => strs_view(v@) == m_texts(q),
                    Option::None => false,
                }),
                !have_texts ==> caches.row_text == old(caches).row_text,
                have_texts == (search_needs_text(q) || rules_need_upto(sv, j as int)),
                user@ == m_user(q),
                ioc_vec@.len() == n,
                0 <= j <= m,
                ioc_fold(q, m_texts(q), m_user(q), sv, j as int, (colmap_view(cm@), ioc_vec@))
                    == ioc_fold(
                    q,
                    m_texts(q),
                    m_user(q),
                    sv,
                    0,
                    (m_search_colmap(q), ioc_candidate(q)),
                ),
            decreases m - j,
        {
            let ghost st0 = (colmap_view(cm@), ioc_vec@);
            let q_cs = chars_of(sorted[j].query.as_str());
            let q_t = trim_chars(&q_cs);
            if q_t.len() > 0 {
                let q_str = string_from_chars(&q_t);
                let tokens = tokenize_search_query(q_str.as_str());
                let (terms, needed) = collect_terms(&tokens);
                let ghost needed_v = cols_from(spec_tokenize(trim_seq(sv[j as int].2)), 0, Seq::empty());
                proof {
                    assert(strs_view(needed@) == needed_v);
                }
                let nn = needed.len();
                let ghost cm_before = colmap_view(cm@);
                let mut ci: usize = 0;
                while ci < nn
                    invariant
                        nn == needed@.len(),
                        needed_v == strs_view(needed@),
                        q.tv == table@,
                        q.n == n as int,
                        n == table.row_count,
                        0 <= ci <= nn,
                        colmap_view(cm@) == ensure_cols_from(
                            cm_before,
                            q.tv,
                            needed_v.subrange(0, ci as int),
                            0,
                            q.n,
                        ),
                    decreases nn - ci,
                {
                    ensure_column_text_cache(&needed[ci], table, n, &mut cm);
                    proof {
                        assert(needed_v.subrange(0, ci as int + 1) =~= needed_v.subrange(
                            0,
                            ci as int,
                        ).push(needed_v[ci as int]));
                        lemma_ensure_cols_snoc(
                            cm_before,
                            q.tv,
                            needed_v.subrange(0, ci as int),
                            0,
                            needed_v[ci as int],
                            q.n,
                        );
                    }
                    ci += 1;
                }
                proof {
                    assert(needed_v.subrange(0, nn as int) =~= needed_v);
                }
                if terms.len() > 0 {
                    proof {
                        assert(rule_needs_text(sv[j as int]));
                    }
                    if !have_texts {
                        texts = ensure_searchable_text(caches, n, &search_cols, table);
                        have_texts = true;
                        proof {
                            if rt_cache_valid(q) {
                                assert(strs_view(texts@) == m_texts(q));
                            } else {
                                assert(strs_view(texts@) =~= built_texts(q));
                            }
                        }
                    }
                    let m2 = build_search_mask_boolean(
                        &to_rpn(&tokens),
                        &terms,
                        &texts,
                        Option::Some(&cm),
                    );
                    let rule_kind = flag_kind_of(sorted[j].flag.as_str());
                    let ghost vec_before = ioc_vec@;
                    let mut ri: usize = 0;
                    while ri < n
                        invariant
                            q.n == n as int,
                            ioc_vec@.len() == n,
                            user@.len() == n,
                            m2@.len() == n,
                            user@ == m_user(q),
                            0 <= ri <= n,
                            rule_kind == parse_flag(sv[j as int].0),
                            vec_before.len() == n,
                            forall|k: int|
                                0 <= k < ri ==> ioc_vec@[k] == (if vec_before[k] == FlagKind::Empty
                                    && user@[k] == FlagKind::Empty && m2@[k] {
                                    parse_flag(sv[j as int].0)
                                } else {
                                    vec_before[k]
                                }),
                            forall|k: int| ri <= k < n ==> ioc_vec@[k] == vec_before[k],
                        decreases n - ri,
                    {
                        let cur = ioc_vec[ri];
                        let uk = user[ri];
                        if matches!(cur, FlagKind::Empty) && matches!(uk, FlagKind::Empty)
                            && m2[ri] {
                            ioc_vec.set(ri, rule_kind);
                        }
                        ri += 1;
                    }
                    proof {
                        let st1 = ioc_step(q, m_texts(q), m_user(q), st0, sv[j as int]);
                        assert(colmap_view(cm@) == st1.0);
                        assert(ioc_vec@ =~= st1.1);
                    }
                } else {
                    proof {
                        let st1 = ioc_step(q, m_texts(q), m_user(q), st0, sv[j as int]);
                        assert(colmap_view(cm@) == st1.0);
                        assert(ioc_vec@ == st1.1);
                        assert(!rule_needs_text(sv[j as int]));
                    }
                }
            } else {
                proof {
                    assert(ioc_step(q, m_texts(q), m_user(q), st0, sv[j as int]) == st0);
                    assert(!rule_needs_text(sv[j as int]));
                }
            }
            j += 1;
        }
        proof {
            assert(ioc_vec@ == m_ioc(q));
            assert(have_texts == m_text_needed(q));
        }
    } else {
        proof {
            assert(ioc_vec@ == m_ioc(q));
            assert(!all_empty(ioc_candidate(q)));
            assert(have_texts == m_text_needed(q));
        }
    }
    caches.ioc_flags = Option::Some(clone_kinds(&ioc_vec));
    proof {
        if m_text_needed(q) {
            assert(match caches.row_text {
                Option::Some(v) => strs_view(v@) == m_texts(q),
                Option::None => false,
            });
        } else {
            assert(caches.row_text == old(caches).row_text);
        }
    }

    // Final flags.
    let mut finals: Vec<FlagKind> = Vec::new();
    let mut fi: usize = 0;
    while fi < n
        invariant
            q.n == n as int,
            user@ == m_user(q),
            ioc_vec@ == m_ioc(q),
            user@.len() == n,
            ioc_vec@.len() == n,
            0 <= fi <= n,
            finals@.len() == fi,
            forall|k: int| 0 <= k < fi ==> finals@[k] == m_finals(q)[k],
        decreases n - fi,
    {
        let uk = user[fi];
        let v = if !matches!(uk, FlagKind::Empty) {
            uk
        } else {
            ioc_vec[fi]
        };
        finals.push(v);
        fi += 1;
    }
    proof {
        assert(finals@ =~= m_finals(q));
    }

    // Order.
    let order: Vec<usize> = match &req.sort_key {
        Option::Some(k) => {
            match find_column(table, k) {
                Option::Some(col) => {
                    let mut keys: Vec<SortKey> = Vec::new();
                    let mut ki: usize = 0;
                    while ki < n
                        invariant
                            q.n == n as int,
                            find_col(q.tv, k@) == Option::Some(cells_view(col.cells@)),
                            0 <= ki <= n,
                            keys@.len() == ki,
                            forall|p: int|
                                0 <= p < ki ==> keys_vals(keys@)[p] == spec_sort_key(
                                    cells_view(col.cells@),
                                    p,
                                ),
                        decreases n - ki,
                    {
                        let ghost before = keys_vals(keys@);
                        let key = if ki < col.cells.len() {
                            extract_key(&col.cells[ki])
                        } else {
                            SortKey::Missing
                        };
                        proof {
                            if ki < col.cells@.len() {
                                assert(cells_view(col.cells@)[ki as int] == col.cells@[ki as int]@);
                            }
                            assert(key@ == spec_sort_key(cells_view(col.cells@), ki as int));
                        }
                        keys.push(key);
                        proof {
                            assert(keys_vals(keys@) =~= before.push(
                                spec_sort_key(cells_view(col.cells@), ki as int),
                            ));
                        }
                        ki += 1;
                    }
                    proof {
                        assert(keys_vals(keys@) =~= Seq::new(
                            q.n as nat,
                            |i: int| spec_sort_key(cells_view(col.cells@), i),
                        ));
                    }
                    let o = sort_indices(&keys, req.sort_desc);
                    proof {
                        assert(crate::sort::idxs_view(o@) == m_order(q));
                    }
                    o
                },
                Option::None => {
                    let o = identity_indices(n);
                    proof {
                        assert(crate::sort::idxs_view(o@) =~= m_order(q));
                    }
                    o
                },
            }
        },
        Option::None => {
            let o = identity_indices(n);
            proof {
                assert(crate::sort::idxs_view(o@) =~= m_order(q));
            }
            o
        },
    };

    // Filter.
    let on = order.len();
    proof {
        assert(crate::sort::idxs_view(order@) == m_order(q));
        assert(on == m_order(q).len());
    }
    let mut filtered: Vec<usize> = Vec::new();
    let mut oi: usize = 0;
    proof {
        assert(crate::sort::idxs_view(filtered@) =~= Seq::<int>::empty());
        assert(Seq::<int>::empty() + filter_from(q, 0) =~= filter_from(q, 0));
    }
    while oi < on
        invariant
            q == qin(*table, *old(caches), *flags, iocs_view(iocs@), *req),
            on == order@.len(),
            crate::sort::idxs_view(order@) == m_order(q),
            q.n == n as int,
            finals@ == m_finals(q),
            finals@.len() == n,
            forall|k: int| 0 <= k < on ==> 0 <= #[trigger] order@[k] < n,
            (match mask {
                Option::Some(m) => m_mask(q) is Some && m@ == m_mask(q).unwrap() && m@.len()
                    == n,
                Option::None => m_mask(q) is None,
            }),
            0 <= oi <= on,
            forall|k: int| 0 <= k < crate::sort::idxs_view(filtered@).len() ==> 0 <= #[trigger] crate::sort::idxs_view(filtered@)[k] < n,
            crate::sort::idxs_view(filtered@) + filter_from(q, oi as int) == m_filtered(q),
        decreases on - oi,
    {
        let idx = order[oi];
        let fk = finals[idx];
        let pass_flag = match &req.flag_filter {
            Option::Some(f) => filter_admits(fk, f.as_str()),
            Option::None => true,
        };
        let pass_mask = match &mask {
            Option::Some(m) => m[idx],
            Option::None => true,
        };
        let ghost before = crate::sort::idxs_view(filtered@);
        if pass_flag && pass_mask {
            filtered.push(idx);
            proof {
                assert(crate::sort::idxs_view(filtered@) =~= before.push(idx as int));
                assert(crate::sort::idxs_view(filtered@) + filter_from(q, oi as int + 1)
                    =~= before + filter_from(q, oi as int));
            }
        } else {
            proof {
                assert(filter_from(q, oi as int) =~= Seq::<int>::empty() + filter_from(
                    q,
                    oi as int + 1,
                ));
            }
        }
        oi += 1;
    }
    proof {
        assert(crate::sort::idxs_view(filtered@) + Seq::<int>::empty() =~= crate::sort::idxs_view(
            filtered@,
        ));
        assert(crate::sort::idxs_view(filtered@) == m_filtered(q));
    }
    let flen = filtered.len();
    proof {
        assert forall|k: int| 0 <= k < filtered@.len() implies 0 <= (#[trigger] filtered@[k])
            < n by {
            assert(crate::sort::idxs_view(filtered@)[k] == filtered@[k] as int);
        }
    }

    // Totals.
    let mut total_flagged: usize = 0;
    let mut ti: usize = 0;
    while ti < flen
        invariant
            flen == filtered@.len(),
            crate::sort::idxs_view(filtered@) == m_filtered(q),
            finals@ == m_finals(q),
            q.n == n as int,
            finals@.len() == n,
            forall|k: int| 0 <= k < flen ==> 0 <= #[trigger] filtered@[k] < n,
            0 <= ti <= flen,
            total_flagged <= ti,
            total_flagged + count_flagged_in(q, m_filtered(q), ti as int) == m_flagged(q),
        decreases flen - ti,
    {
        let idx = filtered[ti];
        let fk = finals[idx];
        if !matches!(fk, FlagKind::Empty) {
            total_flagged += 1;
        }
        ti += 1;
    }

    // Page bounds.
    let offset: usize = match &req.offset {
        Option::Some(o) => *o,
        Option::None => 0,
    };
    let limit0: usize = match &req.limit {
        Option::Some(l) => *l,
        Option::None => 250,
    };
    let limit: usize = if limit0 < 1 {
        1
    } else {
        limit0
    };
    let start: usize = if offset > flen {
        flen
    } else {
        offset
    };
    let remaining = flen - start;
    let take: usize = if limit < remaining {
        limit
    } else {
        remaining
    };
    let end = start + take;
    proof {
        assert(m_page(q) =~= m_filtered(q).subrange(start as int, end as int));
    }

    // Page rows.
    let mut rows: Vec<ProjectRow> = Vec::new();
    let mut pi: usize = start;
    proof {
        assert(crate::table::rows_view(rows@) =~= m_rows(q).subrange(0, 0));
    }
    while pi < end
        invariant
            q == qin(*table, *old(caches), *flags, iocs_view(iocs@), *req),
            q.tv == table@,
            q.names == strs_view(names@),
            q.flags == *flags,
            q.n == n as int,
            flen == filtered@.len(),
            crate::sort::idxs_view(filtered@) == m_filtered(q),
            finals@ == m_finals(q),
            user@ == m_user(q),
            finals@.len() == n,
            user@.len() == n,
            forall|k: int| 0 <= k < flen ==> 0 <= #[trigger] filtered@[k] < n,
            start <= pi <= end,
            end <= flen,
            m_page(q) == m_filtered(q).subrange(start as int, end as int),
            crate::table::rows_view(rows@) == m_rows(q).subrange(0, pi - start),
        decreases end - pi,
    {
        let idx = filtered[pi];
        let record = collect_row_record(table, &names, idx);
        let user_memo: Vec<char> = match flags.get_flag(idx) {
            Option::Some(e) => match &e.memo {
                Option::Some(m) => chars_of(m.as_str()),
                Option::None => Vec::new(),
            },
            Option::None => Vec::new(),
        };
        proof {
            assert(user_memo@ == user_memo_of(q, idx as int));
        }
        let fk = finals[idx];
        let uk = user[idx];
        let mut memo: Vec<char> = user_memo;
        if iocs.len() > 0 && matches!(uk, FlagKind::Empty) {
            // Collect the tags of matching rules, then append missing ones.
            let mut tags: Vec<Vec<char>> = Vec::new();
            let mi = iocs.len();
            let mut j: usize = 0;
            proof {
                assert(tags_view(tags@) =~= Seq::<Seq<char>>::empty());
            }
            while j < mi
                invariant
                    q == qin(*table, *old(caches), *flags, iocs_view(iocs@), *req),
                    q.tv == table@,
                    q.names == strs_view(names@),
                    q.n == n as int,
                    mi == iocs@.len(),
                    idx < n,
                    0 <= j <= mi,
                    page_tags(q, j as int, idx as int, tags_view(tags@)) == page_tags(
                        q,
                        0,
                        idx as int,
                        Seq::empty(),
                    ),
                decreases mi - j,
            {
                let ghost acc0 = tags_view(tags@);
                let q_cs = chars_of(iocs[j].query.as_str());
                let q_t = trim_chars(&q_cs);
                let tag_cs = chars_of(iocs[j].tag.as_str());
                let tag_t = trim_chars(&tag_cs);
                let mut token: Vec<char> = Vec::new();
                token.push('[');
                push_all(&mut token, &tag_t);
                token.push(']');
                proof {
                    assert(token@ =~= seq!['['] + trim_seq(iocs_view(iocs@)[j as int].1) + seq![
                        ']',
                    ]);
                }
                let mut matched: bool = false;
                if q_t.len() > 0 {
                    let q_str = string_from_chars(&q_t);
                    let tokens = tokenize_search_query(q_str.as_str());
                    let (terms, _ncols) = collect_terms(&tokens);
                    if terms.len() > 0 {
                        let rpn = to_rpn(&tokens);
                        let (row_text, single_pc) = build_row_search_text(&names, table, idx);
                        let mut single_row: Vec<String> = Vec::new();
                        single_row.push(row_text);
                        proof {
                            assert(strs_view(single_row@) =~= seq![spec_row_text(
                                q.tv,
                                q.names,
                                idx as int,
                            )]);
                        }
                        let m3 = build_search_mask_boolean(
                            &rpn,
                            &terms,
                            &single_row,
                            Option::Some(&single_pc),
                        );
                        if m3.len() > 0 && m3[0] {
                            matched = true;
                        }
                    }
                }
                proof {
                    assert(matched == (trim_seq(iocs_view(iocs@)[j as int].2).len() > 0
                        && page_rule_matches(q, idx as int, trim_seq(
                        iocs_view(iocs@)[j as int].2,
                    ))));
                }
                if matched && tag_t.len() > 0 && !tags_contain(&tags, &token) {
                    tags.push(token);
                    proof {
                        assert(tags_view(tags@) =~= acc0.push(seq!['['] + trim_seq(
                            iocs_view(iocs@)[j as int].1,
                        ) + seq![']']));
                    }
                }
                j += 1;
            }
            // Append tags not already present in the memo.
            let tn = tags.len();
            let ghost tagsv = tags_view(tags@);
            let mut aj: usize = 0;
            while aj < tn
                invariant
                    tn == tags@.len(),
                    tagsv == tags_view(tags@),
                    0 <= aj <= tn,
                    append_tags(memo@, tagsv, aj as int) == append_tags(
                        user_memo_of(q, idx as int),
                        tagsv,
                        0,
                    ),
                decreases tn - aj,
            {
                let ghost memo0 = memo@;
                if !contains_chars(&memo, &tags[aj]) {
                    if memo.len() > 0 && memo[memo.len() - 1] != ' ' {
                        memo.push(' ');
                        push_all(&mut memo, &tags[aj]);
                        proof {
                            assert(memo@ =~= memo0 + seq![' '] + tagsv[aj as int]);
                        }
                    } else {
                        push_all(&mut memo, &tags[aj]);
                    }
                }
                aj += 1;
            }
            proof {
                assert(memo@ == append_tags(user_memo_of(q, idx as int), page_tags(
                    q,
                    0,
                    idx as int,
                    Seq::empty(),
                ), 0));
            }
        }
        let memo_opt: Option<String> = if memo.len() == 0 {
            Option::None
        } else {
            Option::Some(string_from_chars(&memo))
        };
        let row = ProjectRow { row_index: idx, data: record, flag: flag_text(fk), memo: memo_opt };
        let ghost rows_before = crate::table::rows_view(rows@);
        proof {
            assert(crate::table::row_view(row) == page_row_of(q, idx as int));
            assert(m_page(q)[pi - start] == idx as int);
            assert(m_rows(q)[pi - start] == page_row_of(q, idx as int));
        }
        rows.push(row);
        proof {
            assert(crate::table::rows_view(rows@) =~= rows_before.push(page_row_of(
                q,
                idx as int,
            )));
            assert(crate::table::rows_view(rows@) =~= m_rows(q).subrange(0, pi - start + 1));
        }
        pi += 1;
    }
    proof {
        assert(m_rows(q).subrange(0, end - start) =~= m_rows(q));
    }

    QueryRowsResponse {
        rows,
        total_flagged,
        total_rows: n,
        total_filtered_rows: flen,
        offset,
    }
}

fn empty_kinds(n: usize) -> (r: Vec<FlagKind>)
    ensures
        r@ == Seq::new(n as nat, |i: int| FlagKind::Empty),
{
    let mut out: Vec<FlagKind> = Vec::new();
    let mut i: usize = 0;
    while i < n
        invariant
            0 <= i <= n,
            out@.len() == i,
            forall|k: int| 0 <= k < i ==> out@[k] == FlagKind::Empty,
        decreases n - i,
    {
        out.push(FlagKind::Empty);
        i += 1;
    }
    proof {
        assert(out@ =~= Seq::new(n as nat, |i: int| FlagKind::Empty));
    }
    out
}

fn identity_indices(n: usize) -> (r: Vec<usize>)
    ensures
        crate::sort::idxs_view(r@) == identity_order(n as int),
        r@.len() == n,
        forall|k: int| 0 <= k < r@.len() ==> (#[trigger] r@[k]) < n,
{
    let mut out: Vec<usize> = Vec::new();
    let mut i: usize = 0;
    while i < n
        invariant
            0 <= i <= n,
            out@.len() == i,
            forall|k: int| 0 <= k < i ==> (#[trigger] out@[k]) == k,
        decreases n - i,
    {
        out.push(i);
        i += 1;
    }
    proof {
        assert(crate::sort::idxs_view(out@) =~= identity_order(n as int));
    }
    out
}

proof fn lemma_ensure_cols_snoc(
    cm: Seq<(Seq<char>, Seq<Seq<char>>)>,
    tv: Seq<(Seq<char>, Seq<CellVal>)>,
    cols: Seq<Seq<char>>,
    j: int,
    x: Seq<char>,
    n: int,
)
    requires
        0 <= j <= cols.len(),
    ensures
        ensure_cols_from(cm, tv, cols.push(x), j, n) == spec_ensure_col(
            ensure_cols_from(cm, tv, cols, j, n),
            tv,
            x,
            n,
        ),
    decreases cols.len() - j,
{
    let p = cols.push(x);
    if j == cols.len() {
        assert(p[j] == x);
        assert(ensure_cols_from(cm, tv, p, j, n) == ensure_cols_from(
            spec_ensure_col(cm, tv, x, n),
            tv,
            p,
            j + 1,
            n,
        ));
        assert(ensure_cols_from(spec_ensure_col(cm, tv, x, n), tv, p, j + 1, n)
            == spec_ensure_col(cm, tv, x, n));
    } else {
        assert(p[j] == cols[j]);
        lemma_ensure_cols_snoc(spec_ensure_col(cm, tv, cols[j], n), tv, cols, j + 1, x, n);
    }
}

} // verus!
