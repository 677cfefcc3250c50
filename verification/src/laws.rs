//! Engine-wide laws: properties of the query model that hold for every
//! input, stated over the same spec functions the engine's contracts use.

use vstd::prelude::*;

use crate::engine::{
    all_empty, filter_from, identity_order, ioc_candidate, ioc_fold, ioc_step, m_filtered,
    m_finals, m_flagged, m_ioc, m_limit, m_mask, m_offset, m_order, m_page, m_search_colmap,
    m_texts, m_user, page_row_of, search_q, sorted_iocs, user_memo_of, QueryInput,
};
use crate::flags::FlagKind;
use crate::search::{
    carry_from, is_operand, keys_from, lower_tokens, map_parts, parts_from, spec_flush,
    spec_tokenize, spec_tokenize_raw, with_and, SpecToken,
};
use crate::store::store_user_flag;
use crate::text::{is_space_char, trim_seq};

verus! {

/// The final flag of every row is the user flag when one is set, and the IOC
/// flag otherwise.
pub proof fn law_final_flag_resolution(q: QueryInput, i: int)
    requires
        0 <= i < q.n,
    ensures
        m_user(q)[i] != FlagKind::Empty ==> m_finals(q)[i] == m_user(q)[i],
        m_user(q)[i] == FlagKind::Empty ==> m_finals(q)[i] == m_ioc(q)[i],
{
}

proof fn lemma_ioc_fold_respects_user(
    q: QueryInput,
    texts: Seq<Seq<char>>,
    user: Seq<FlagKind>,
    rules: Seq<(Seq<char>, Seq<char>, Seq<char>)>,
    j: int,
    st: (Seq<(Seq<char>, Seq<Seq<char>>)>, Seq<FlagKind>),
    i: int,
)
    requires
        0 <= i < q.n,
        st.1.len() == q.n,
        user[i] != FlagKind::Empty,
        st.1[i] == FlagKind::Empty,
    ensures
        0 <= i < ioc_fold(q, texts, user, rules, j, st).1.len() && ioc_fold(
            q,
            texts,
            user,
            rules,
            j,
            st,
        ).1[i] == FlagKind::Empty,
    decreases rules.len() - j,
{
    if 0 <= j < rules.len() {
        let st2 = ioc_step(q, texts, user, st, rules[j]);
        assert(st2.1.len() == q.n && st2.1[i] == FlagKind::Empty);
        lemma_ioc_fold_respects_user(q, texts, user, rules, j + 1, st2, i);
    }
}

/// A row with a user flag keeps its user memo verbatim in the returned page:
/// IOC memo tags are appended only to rows whose user flag is absent, and the
/// row's final flag is the user flag.
pub proof fn law_user_flag_wins(q: QueryInput, i: int)
    requires
        0 <= i < q.n,
        store_user_flag(q.flags, i) != FlagKind::Empty,
    ensures
        m_finals(q)[i] == store_user_flag(q.flags, i),
        page_row_of(q, i).3 == (if user_memo_of(q, i).len() == 0 {
            Option::<Seq<char>>::None
        } else {
            Option::Some(user_memo_of(q, i))
        }),
{
    assert(m_user(q)[i] == store_user_flag(q.flags, i));
    assert(m_finals(q)[i] == m_user(q)[i]);
}

/// The IOC rebuild assigns no flag to a row that carries a user flag: with a
/// cold cache, its IOC flag stays absent.
pub proof fn law_rebuild_skips_user_flagged(q: QueryInput, i: int)
    requires
        0 <= i < q.n,
        q.if_cache is None,
        store_user_flag(q.flags, i) != FlagKind::Empty,
    ensures
        m_ioc(q)[i] == FlagKind::Empty,
{
    let cand = ioc_candidate(q);
    assert(cand =~= Seq::new(q.n as nat, |k: int| FlagKind::Empty));
    assert(all_empty(cand));
    lemma_ioc_fold_respects_user(
        q,
        m_texts(q),
        m_user(q),
        sorted_iocs(q.iocs),
        0,
        (m_search_colmap(q), cand),
        i,
    );
}

proof fn lemma_count_user(q: QueryInput, f: Seq<int>, j: int)
    requires
        forall|k: int| 0 <= k < f.len() ==> 0 <= #[trigger] f[k] < q.n,
        forall|i: int| 0 <= i < q.n ==> #[trigger] m_finals(q)[i] == m_user(q)[i],
    ensures
        crate::engine::count_flagged_in(q, f, j) == count_user_flagged(q, f, j),
    decreases f.len() - j,
{
    if 0 <= j < f.len() {
        lemma_count_user(q, f, j + 1);
    }
}

/// The filtered rows with a non-absent user flag.
pub open spec fn count_user_flagged(q: QueryInput, f: Seq<int>, j: int) -> int
    decreases f.len() - j,
{
    if !(0 <= j < f.len()) {
        0
    } else {
        (if store_user_flag(q.flags, f[j]) != FlagKind::Empty {
            1int
        } else {
            0int
        }) + count_user_flagged(q, f, j + 1)
    }
}

proof fn lemma_order_in_range(q: QueryInput)
    requires
        q.n >= 0,
    ensures
        forall|k: int| 0 <= k < m_order(q).len() ==> 0 <= #[trigger] m_order(q)[k] < q.n,
{
    match q.sort_key {
        Option::Some(key) => {
            match crate::table::find_col(q.tv, key) {
                Option::Some(cells) => {
                    let keys = Seq::new(q.n as nat, |i: int| crate::sort::spec_sort_key(cells, i));
                    lemma_sort_upto_range(keys, q.sort_desc, q.n);
                },
                Option::None => {},
            }
        },
        Option::None => {},
    }
}

proof fn lemma_insert_one_range(
    keys: Seq<crate::sort::KeyVal>,
    desc: bool,
    sorted: Seq<int>,
    x: int,
    n: int,
)
    requires
        0 <= x < n,
        forall|k: int| 0 <= k < sorted.len() ==> 0 <= #[trigger] sorted[k] < n,
    ensures
        forall|k: int|
            0 <= k < crate::sort::insert_one(keys, desc, sorted, x).len() ==> 0 <= #[trigger] crate::sort::insert_one(
                keys,
                desc,
                sorted,
                x,
            )[k] < n,
    decreases sorted.len(),
{
    let r = crate::sort::insert_one(keys, desc, sorted, x);
    if sorted.len() == 0 {
        assert(r =~= seq![x]);
    } else if crate::sort::full_lt(keys, desc, x, sorted[0]) {
        assert forall|k: int| 0 <= k < r.len() implies 0 <= #[trigger] r[k] < n by {
            if k == 0 {
            } else {
                assert(r[k] == sorted[k - 1]);
            }
        }
    } else {
        lemma_insert_one_range(keys, desc, sorted.drop_first(), x, n);
        assert forall|k: int| 0 <= k < r.len() implies 0 <= #[trigger] r[k] < n by {
            if k == 0 {
                assert(r[k] == sorted[0]);
            } else {
                assert(r[k] == crate::sort::insert_one(keys, desc, sorted.drop_first(), x)[k
                    - 1]);
            }
        }
    }
}

proof fn lemma_sort_upto_range(keys: Seq<crate::sort::KeyVal>, desc: bool, n: int)
    requires
        n == keys.len(),
    ensures
        forall|k: int|
            0 <= k < crate::sort::spec_sort_indices(keys, desc).len() ==> 0 <= #[trigger] crate::sort::spec_sort_indices(
                keys,
                desc,
            )[k] < n,
{
    lemma_sort_upto_range_rec(keys, desc, n);
}

proof fn lemma_sort_upto_range_rec(keys: Seq<crate::sort::KeyVal>, desc: bool, m: int)
    requires
        0 <= m <= keys.len(),
    ensures
        forall|k: int|
            0 <= k < crate::sort::sort_upto(keys, desc, m).len() ==> 0 <= #[trigger] crate::sort::sort_upto(
                keys,
                desc,
                m,
            )[k] < keys.len(),
    decreases m,
{
    if m > 0 {
        lemma_sort_upto_range_rec(keys, desc, m - 1);
        lemma_insert_one_range(
            keys,
            desc,
            crate::sort::sort_upto(keys, desc, m - 1),
            m - 1,
            keys.len() as int,
        );
    }
}

proof fn lemma_filtered_in_range(q: QueryInput, j: int)
    requires
        forall|k: int| 0 <= k < m_order(q).len() ==> 0 <= #[trigger] m_order(q)[k] < q.n,
    ensures
        forall|k: int|
            0 <= k < filter_from(q, j).len() ==> 0 <= #[trigger] filter_from(q, j)[k] < q.n,
    decreases m_order(q).len() - j,
{
    if 0 <= j < m_order(q).len() {
        lemma_filtered_in_range(q, j + 1);
        let r = filter_from(q, j);
        let idx = m_order(q)[j];
        if crate::engine::flag_ok(q, idx) && crate::engine::mask_ok(q, idx) {
            assert forall|k: int| 0 <= k < r.len() implies 0 <= #[trigger] r[k] < q.n by {
                if k == 0 {
                    assert(r[k] == idx);
                } else {
                    assert(r[k] == filter_from(q, j + 1)[k - 1]);
                }
            }
        } else {
            assert forall|k: int| 0 <= k < r.len() implies 0 <= #[trigger] r[k] < q.n by {
                assert(r[k] == filter_from(q, j + 1)[k]);
            }
        }
    }
}

/// With no IOC rules and the cache state that removing all rules leaves
/// behind (cleared, or holding no flags), every final flag is the user flag
/// and the flagged total counts exactly the filtered rows with a non-absent
/// user flag.
pub proof fn law_no_rules_flagged_total(q: QueryInput)
    requires
        q.n >= 0,
        q.iocs.len() == 0,
        q.if_cache is None || all_empty(ioc_candidate(q)),
    ensures
        forall|i: int| 0 <= i < q.n ==> #[trigger] m_finals(q)[i] == m_user(q)[i],
        m_flagged(q) == count_user_flagged(q, m_filtered(q), 0),
{
    let cand = ioc_candidate(q);
    if q.if_cache is None {
        assert(cand =~= Seq::new(q.n as nat, |k: int| FlagKind::Empty));
    }
    assert(all_empty(cand));
    assert(sorted_iocs(q.iocs) =~= Seq::<(Seq<char>, Seq<char>, Seq<char>)>::empty());
    assert(m_ioc(q) == cand);
    assert(forall|i: int| 0 <= i < q.n ==> #[trigger] m_finals(q)[i] == m_user(q)[i]) by {
        assert(forall|i: int| 0 <= i < q.n ==> #[trigger] m_ioc(q)[i] == FlagKind::Empty);
    }
    lemma_order_in_range(q);
    lemma_filtered_in_range(q, 0);
    lemma_count_user(q, m_filtered(q), 0);
}

/// Invalidating the IOC cache and rebuilding reproduces the cached vector:
/// when the cache holds what a rebuild produces, a query that reuses it and a
/// query that rebuilds from a cold cache agree.
pub proof fn law_ioc_rebuild_stable(q: QueryInput, q_cold: QueryInput)
    requires
        q_cold == (QueryInput { if_cache: Option::<Seq<FlagKind>>::None, ..q }),
        q.if_cache == (Option::Some(m_ioc(q_cold))),
        m_ioc(q_cold).len() == q.n,
    ensures
        m_ioc(q) == m_ioc(q_cold),
{
    let v = m_ioc(q_cold);
    let cand = ioc_candidate(q);
    assert(cand == v);
    let cold_cand = ioc_candidate(q_cold);
    assert(cold_cand =~= Seq::new(q.n as nat, |k: int| FlagKind::Empty));
    assert(all_empty(cold_cand));
    assert(m_texts(q) == m_texts(q_cold));
    assert(m_user(q) == m_user(q_cold));
    assert(m_search_colmap(q) == m_search_colmap(q_cold));
    if all_empty(v) {
        assert(v =~= cold_cand);
        assert(m_ioc(q) == ioc_fold(
            q,
            m_texts(q),
            m_user(q),
            sorted_iocs(q.iocs),
            0,
            (m_search_colmap(q), v),
        ).1);
        lemma_ioc_fold_input_congruence(
            q,
            q_cold,
            m_texts(q),
            m_user(q),
            sorted_iocs(q.iocs),
            0,
            (m_search_colmap(q), v),
        );
    }
}

proof fn lemma_ioc_fold_input_congruence(
    q1: QueryInput,
    q2: QueryInput,
    texts: Seq<Seq<char>>,
    user: Seq<FlagKind>,
    rules: Seq<(Seq<char>, Seq<char>, Seq<char>)>,
    j: int,
    st: (Seq<(Seq<char>, Seq<Seq<char>>)>, Seq<FlagKind>),
)
    requires
        q1.tv == q2.tv,
        q1.n == q2.n,
    ensures
        ioc_fold(q1, texts, user, rules, j, st) == ioc_fold(q2, texts, user, rules, j, st),
    decreases rules.len() - j,
{
    if 0 <= j < rules.len() {
        assert(ioc_step(q1, texts, user, st, rules[j]) == ioc_step(q2, texts, user, st, rules[j]));
        lemma_ioc_fold_input_congruence(
            q1,
            q2,
            texts,
            user,
            rules,
            j + 1,
            ioc_step(q1, texts, user, st, rules[j]),
        );
    }
}

/// Concatenating the non-overlapping page windows of size `limit` covers the
/// whole filtered list.
pub open spec fn chunks_from(f: Seq<int>, limit: int, start: int) -> Seq<int>
    decreases f.len() - start,
{
    if limit < 1 || !(0 <= start < f.len()) {
        Seq::empty()
    } else {
        let end = if start + limit > f.len() {
            f.len() as int
        } else {
            start + limit
        };
        f.subrange(start, end) + chunks_from(f, limit, end)
    }
}

/// Paging is a partition: the chunks of size `limit` concatenate to the full
/// filtered list.
pub proof fn law_pages_cover(f: Seq<int>, limit: int)
    requires
        limit >= 1,
    ensures
        chunks_from(f, limit, 0) == f,
{
    lemma_chunks_skip(f, limit, 0);
    assert(f.skip(0) =~= f);
}

proof fn lemma_chunks_skip(f: Seq<int>, limit: int, start: int)
    requires
        limit >= 1,
        0 <= start <= f.len(),
    ensures
        chunks_from(f, limit, start) == f.skip(start),
    decreases f.len() - start,
{
    if start < f.len() {
        let end = if start + limit > f.len() {
            f.len() as int
        } else {
            start + limit
        };
        lemma_chunks_skip(f, limit, end);
        assert(f.subrange(start, end) + f.skip(end) =~= f.skip(start));
    } else {
        assert(f.skip(start) =~= Seq::<int>::empty());
    }
}

/// The page window the engine serves is exactly the chunk of the filtered
/// list starting at the requested offset, clamped to what is available; in
/// particular a limit beyond the available rows clamps without error.
pub proof fn law_page_window(q: QueryInput)
    ensures
        m_page(q) == m_filtered(q).subrange(
            if m_offset(q) > m_filtered(q).len() {
                m_filtered(q).len() as int
            } else {
                m_offset(q)
            },
            if m_offset(q) + m_limit(q) > m_filtered(q).len() {
                m_filtered(q).len() as int
            } else {
                m_offset(q) + m_limit(q)
            },
        ),
        m_offset(q) == 0 && m_limit(q) >= m_filtered(q).len() ==> m_page(q) == m_filtered(q),
{
    if m_offset(q) == 0 && m_limit(q) >= m_filtered(q).len() {
        assert(m_page(q) =~= m_filtered(q));
    }
}

proof fn lemma_filter_identity(q: QueryInput, j: int)
    requires
        m_mask(q) is None,
        q.flag_filter is None,
        m_order(q) == identity_order(q.n),
        0 <= j <= q.n,
    ensures
        filter_from(q, j) == identity_order(q.n).skip(j),
    decreases q.n - j,
{
    if j < q.n {
        lemma_filter_identity(q, j + 1);
        assert(m_order(q)[j] == j);
        assert(filter_from(q, j) =~= seq![j as int] + filter_from(q, j + 1));
        assert(seq![j as int] + identity_order(q.n).skip(j + 1) =~= identity_order(q.n).skip(j));
    } else {
        assert(filter_from(q, j) =~= Seq::<int>::empty());
        assert(identity_order(q.n).skip(j) =~= Seq::<int>::empty());
    }
}

/// With no search, no flag filter and no sort, the filtered list is exactly
/// `0..N` in insertion order.
pub proof fn law_trivial_query_all_rows(q: QueryInput)
    requires
        q.n >= 0,
        match q.search {
            Option::Some(s) => trim_seq(s).len() == 0,
            Option::None => true,
        },
        q.flag_filter is None,
        q.sort_key is None,
    ensures
        m_filtered(q) == identity_order(q.n),
{
    assert(search_q(q).len() == 0);
    assert(m_mask(q) is None);
    lemma_filter_identity(q, 0);
    assert(identity_order(q.n).skip(0) =~= identity_order(q.n));
}

// ---------------------------------------------------------------------------
// Tokenizer round trip on canonical queries.
// ---------------------------------------------------------------------------

/// A plain term word: non-empty, free of whitespace, pipes, quotes and
/// colons, and not negated.
pub open spec fn plain_word(w: Seq<char>) -> bool {
    term_word(w) && forall|i: int| 0 <= i < w.len() ==> (#[trigger] w[i]) != ':'
}

/// A term word, possibly column-scoped at its first colon: non-empty, free of
/// whitespace, pipes and quotes, not negated, and not ending in a colon.
pub open spec fn term_word(w: Seq<char>) -> bool {
    w.len() > 0 && w[0] != '-' && w.last() != ':' && forall|i: int|
        0 <= i < w.len() ==> !is_space_char(#[trigger] w[i]) && w[i] != '|' && w[i] != '"'
}

/// The term a word parses to: column-scoped at its first colon when it has
/// one.
pub open spec fn word_term(w: Seq<char>) -> SpecToken {
    match crate::search::find_from(w, ':', 0) {
        Option::Some(j) => SpecToken::Term {
            col: Option::Some(w.subrange(0, j)),
            text: w.subrange(j + 1, w.len() as int),
        },
        Option::None => SpecToken::Term { col: Option::None, text: w },
    }
}

/// The words joined by single spaces, from position `j` on.
pub open spec fn joined(ws: Seq<Seq<char>>, j: int) -> Seq<char>
    decreases ws.len() - j,
{
    if !(0 <= j < ws.len()) {
        Seq::empty()
    } else if j == ws.len() - 1 {
        ws[j]
    } else {
        ws[j] + seq![' '] + joined(ws, j + 1)
    }
}

/// The canonical token stream of those words: their terms with implicit ANDs.
pub open spec fn canon_tokens(ws: Seq<Seq<char>>, j: int) -> Seq<SpecToken>
    decreases ws.len() - j,
{
    if !(0 <= j < ws.len()) {
        Seq::empty()
    } else if j == ws.len() - 1 {
        seq![word_term(ws[j])]
    } else {
        seq![word_term(ws[j]), SpecToken::And] + canon_tokens(ws, j + 1)
    }
}

/// The raw parts of those words.
pub open spec fn word_parts(ws: Seq<Seq<char>>, j: int) -> Seq<(Seq<char>, bool)>
    decreases ws.len() - j,
{
    if !(0 <= j < ws.len()) {
        Seq::empty()
    } else {
        seq![(ws[j], false)] + word_parts(ws, j + 1)
    }
}

proof fn lemma_pass1_word(s: Seq<char>, i: int, w: Seq<char>, buf: Seq<char>, acc: Seq<(Seq<char>, bool)>)
    requires
        0 <= i,
        i + w.len() <= s.len(),
        s.subrange(i, i + w.len()) == w,
        forall|k: int|
            0 <= k < w.len() ==> !is_space_char(#[trigger] w[k]) && w[k] != '|' && w[k] != '"',
    ensures
        parts_from(s, i, false, false, buf, acc) == parts_from(
            s,
            i + w.len(),
            false,
            false,
            buf + w,
            acc,
        ),
    decreases w.len(),
{
    if w.len() == 0 {
        assert(buf + w =~= buf);
    } else {
        assert(s[i] == w[0]);
        assert(parts_from(s, i, false, false, buf, acc) == parts_from(
            s,
            i + 1,
            false,
            false,
            buf.push(w[0]),
            acc,
        ));
        assert(s.subrange(i + 1, i + w.len()) =~= w.subrange(1, w.len() as int));
        assert(w.subrange(1, w.len() as int) =~= w.drop_first());
        assert forall|k: int|
            0 <= k < w.drop_first().len() implies !is_space_char(#[trigger] w.drop_first()[k])
            && w.drop_first()[k] != '|' && w.drop_first()[k] != '"' by {
            assert(w.drop_first()[k] == w[k + 1]);
        }
        lemma_pass1_word(s, i + 1, w.drop_first(), buf.push(w[0]), acc);
        assert(buf.push(w[0]) + w.drop_first() =~= buf + w);
    }
}

proof fn lemma_pass1_words(s: Seq<char>, i: int, ws: Seq<Seq<char>>, j: int, acc: Seq<(Seq<char>, bool)>)
    requires
        0 <= i <= s.len(),
        0 <= j < ws.len(),
        i + joined(ws, j).len() == s.len(),
        s.subrange(i, s.len() as int) == joined(ws, j),
        forall|k: int| 0 <= k < ws.len() ==> term_word(#[trigger] ws[k]),
    ensures
        parts_from(s, i, false, false, Seq::empty(), acc) == acc + word_parts(ws, j),
    decreases ws.len() - j,
{
    let w = ws[j];
    assert(term_word(w));
    crate::text::lemma_trim_fixed(w);
    if j == ws.len() - 1 {
        assert(joined(ws, j) == w);
        assert(s.subrange(i, i + w.len()) =~= w);
        lemma_pass1_word(s, i, w, Seq::empty(), acc);
        assert(Seq::<char>::empty() + w =~= w);
        assert(parts_from(s, i + w.len(), false, false, w, acc) == spec_flush(acc, w, false));
        assert(spec_flush(acc, w, false) == acc.push((w, false)));
        assert(word_parts(ws, j + 1) == Seq::<(Seq<char>, bool)>::empty());
        assert(acc.push((w, false)) =~= acc + word_parts(ws, j));
    } else {
        assert(joined(ws, j) == w + seq![' '] + joined(ws, j + 1));
        assert(s.subrange(i, i + w.len()) =~= w);
        lemma_pass1_word(s, i, w, Seq::empty(), acc);
        assert(Seq::<char>::empty() + w =~= w);
        let p = i + w.len();
        assert(s[p] == joined(ws, j)[w.len() as int]);
        assert(s[p] == ' ');
        assert(is_space_char(' '));
        assert(parts_from(s, p, false, false, w, acc) == parts_from(
            s,
            p + 1,
            false,
            false,
            Seq::empty(),
            spec_flush(acc, w, false),
        ));
        assert(spec_flush(acc, w, false) == acc.push((w, false)));
        let wl = w.len() as int;
        let jl = joined(ws, j).len() as int;
        assert(s.subrange(p + 1, s.len() as int) =~= joined(ws, j).subrange(wl + 1, jl));
        assert(joined(ws, j).subrange(wl + 1, jl) =~= joined(ws, j + 1));
        lemma_pass1_words(s, p + 1, ws, j + 1, acc.push((w, false)));
        assert(acc.push((w, false)) + word_parts(ws, j + 1) =~= acc + word_parts(ws, j));
    }
}

proof fn lemma_find_from_none(s: Seq<char>, c: char, i: int)
    requires
        0 <= i,
        forall|k: int| i <= k < s.len() ==> s[k] != c,
    ensures
        crate::search::find_from(s, c, i) is None,
    decreases s.len() - i,
{
    if i < s.len() {
        lemma_find_from_none(s, c, i + 1);
    }
}

proof fn lemma_map_plain(ps: Seq<(Seq<char>, bool)>, k: int)
    requires
        0 <= k,
        forall|m: int|
            0 <= m < ps.len() ==> !(#[trigger] ps[m]).1 && term_word(ps[m].0),
    ensures
        map_parts(ps, k).len() == (if k < ps.len() {
            ps.len() - k
        } else {
            0int
        }),
        forall|m: int|
            0 <= m < map_parts(ps, k).len() ==> #[trigger] map_parts(ps, k)[m] == word_term(
                ps[k + m].0,
            ),
    decreases ps.len() - k,
{
    if k < ps.len() {
        let p = ps[k].0;
        assert(term_word(p));
        assert(p != seq!['|']) by {
            if p == seq!['|'] {
                assert(p[0] == '|');
            }
        }
        assert(p.last() != ':');
        assert(!(p.len() > 1 && p[0] == '-'));
        assert(crate::search::map_part(p, false) =~= seq![word_term(p)]);
        lemma_map_plain(ps, k + 1);
        assert(map_parts(ps, k) == crate::search::map_part(p, false) + map_parts(ps, k + 1));
        assert forall|m: int|
            0 <= m < map_parts(ps, k).len() implies #[trigger] map_parts(ps, k)[m] == word_term(
            ps[k + m].0,
        ) by {
            if m > 0 {
                assert(map_parts(ps, k)[m] == map_parts(ps, k + 1)[m - 1]);
            }
        }
    }
}

proof fn lemma_carry_plain(ts: Seq<SpecToken>, i: int, last: Option<Seq<char>>, acc: Seq<SpecToken>)
    requires
        0 <= i <= ts.len(),
        forall|k: int|
            0 <= k < ts.len() ==> (#[trigger] ts[k]) matches (SpecToken::Term { col: _, text: _ }),
    ensures
        carry_from(ts, i, last, Option::None, acc) == acc + ts.skip(i),
    decreases ts.len() - i,
{
    if i < ts.len() {
        assert(ts[i] matches (SpecToken::Term { col: _, text: _ }));
        match ts[i] {
            SpecToken::Term { col, text } => {
                match col {
                    Option::None => {
                        lemma_carry_plain(ts, i + 1, Option::None, acc.push(ts[i]));
                    },
                    Option::Some(c) => {
                        lemma_carry_plain(ts, i + 1, Option::Some(c), acc.push(ts[i]));
                    },
                }
            },
            _ => {},
        }
        assert(acc.push(ts[i]) + ts.skip(i + 1) =~= acc + ts.skip(i));
    } else {
        assert(ts.skip(i) =~= Seq::<SpecToken>::empty());
        assert(acc + ts.skip(i) =~= acc);
    }
}

proof fn lemma_with_and_operands(ts: Seq<SpecToken>, ws: Seq<Seq<char>>, j: int)
    requires
        ts.len() == ws.len(),
        0 <= j <= ts.len(),
        forall|k: int| 0 <= k < ts.len() ==> (#[trigger] ts[k]) == word_term(ws[k]),
    ensures
        with_and(ts, j) == canon_tokens(ws, j),
    decreases ts.len() - j,
{
    if j < ts.len() {
        lemma_with_and_operands(ts, ws, j + 1);
        assert(ts[j] == word_term(ws[j]));
        assert(is_operand(ts[j]));
        if j == ts.len() - 1 {
            assert(with_and(ts, j) =~= canon_tokens(ws, j));
        } else {
            assert(is_operand(ts[j + 1]));
            assert(with_and(ts, j) =~= seq![ts[j], SpecToken::And] + with_and(ts, j + 1));
            assert(with_and(ts, j) =~= canon_tokens(ws, j));
        }
    }
}

proof fn lemma_render_offset(a: Seq<SpecToken>, b: Seq<SpecToken>, k: int)
    requires
        0 <= k <= b.len(),
    ensures
        crate::search::spec_render(a + b, a.len() + k) == crate::search::spec_render(b, k),
    decreases b.len() - k,
{
    if k < b.len() {
        assert((a + b)[a.len() + k] == b[k]);
        lemma_render_offset(a, b, k + 1);
    }
}

proof fn lemma_render_concat(a: Seq<SpecToken>, b: Seq<SpecToken>, i: int)
    requires
        0 <= i <= a.len(),
    ensures
        crate::search::spec_render(a + b, i) == crate::search::spec_render(a, i)
            + crate::search::spec_render(b, 0),
    decreases a.len() - i,
{
    if i == a.len() {
        lemma_render_offset(a, b, 0);
        assert(Seq::<char>::empty() + crate::search::spec_render(b, 0) =~= crate::search::spec_render(
            b,
            0,
        ));
    } else {
        assert((a + b)[i] == a[i]);
        lemma_render_concat(a, b, i + 1);
        assert(crate::search::render_token(a[i]) + (crate::search::spec_render(a, i + 1)
            + crate::search::spec_render(b, 0)) =~= (crate::search::render_token(a[i])
            + crate::search::spec_render(a, i + 1)) + crate::search::spec_render(b, 0));
    }
}

proof fn lemma_find_from_some(s: Seq<char>, c: char, i: int)
    requires
        0 <= i,
    ensures
        match crate::search::find_from(s, c, i) {
            Option::Some(j) => i <= j < s.len() && s[j] == c,
            Option::None => true,
        },
    decreases s.len() - i,
{
    if i < s.len() && s[i] != c {
        lemma_find_from_some(s, c, i + 1);
    }
}

proof fn lemma_render_word_term(w: Seq<char>)
    requires
        term_word(w),
    ensures
        crate::search::render_token(word_term(w)) == w,
{
    lemma_find_from_some(w, ':', 0);
    match crate::search::find_from(w, ':', 0) {
        Option::Some(j) => {
            assert(w[j] == ':');
            assert(w.subrange(0, j) + seq![':'] + w.subrange(j + 1, w.len() as int) =~= w);
        },
        Option::None => {},
    }
}

proof fn lemma_render_canon(ws: Seq<Seq<char>>, j: int)
    requires
        0 <= j <= ws.len(),
        forall|k: int| 0 <= k < ws.len() ==> term_word(#[trigger] ws[k]),
    ensures
        crate::search::spec_render(canon_tokens(ws, j), 0) == joined(ws, j),
    decreases ws.len() - j,
{
    if j < ws.len() {
        let t = word_term(ws[j]);
        lemma_render_word_term(ws[j]);
        if j == ws.len() - 1 {
            assert(canon_tokens(ws, j) == seq![t]);
            assert(crate::search::spec_render(seq![t], 1) == Seq::<char>::empty());
            assert(seq![t][0] == t);
            assert(crate::search::spec_render(seq![t], 0) =~= ws[j]);
        } else {
            lemma_render_canon(ws, j + 1);
            let head = seq![t, SpecToken::And];
            lemma_render_concat(head, canon_tokens(ws, j + 1), 0);
            assert(crate::search::spec_render(head, 2) == Seq::<char>::empty());
            assert(head[1] == SpecToken::And);
            assert(crate::search::spec_render(head, 1) =~= seq![' ']);
            assert(head[0] == t);
            assert(crate::search::spec_render(head, 0) =~= ws[j] + seq![' ']);
            assert(ws[j] + seq![' '] + joined(ws, j + 1) =~= joined(ws, j));
        }
    }
}

/// Tokenising a canonical query of space-separated terms (bare or
/// column-scoped) and rendering the raw token stream back reproduces the
/// query text exactly; hence re-tokenising the rendering gives the same
/// tokens as tokenising it. Queries with quoted phrases or explicit operators
/// are exercised by tests instead.
pub proof fn law_tokenize_round_trip(ws: Seq<Seq<char>>)
    requires
        ws.len() > 0,
        forall|k: int| 0 <= k < ws.len() ==> term_word(#[trigger] ws[k]),
    ensures
        spec_tokenize_raw(joined(ws, 0)) == canon_tokens(ws, 0),
        crate::search::spec_render(canon_tokens(ws, 0), 0) == joined(ws, 0),
        spec_tokenize(crate::search::spec_render(spec_tokenize_raw(joined(ws, 0)), 0))
            == spec_tokenize(joined(ws, 0)),
{
    let q = joined(ws, 0);
    assert(q.subrange(0, q.len() as int) =~= q);
    lemma_pass1_words(q, 0, ws, 0, Seq::empty());
    assert(crate::search::spec_parts(q) == Seq::<(Seq<char>, bool)>::empty() + word_parts(ws, 0));
    assert(Seq::<(Seq<char>, bool)>::empty() + word_parts(ws, 0) =~= word_parts(ws, 0));
    let ps = word_parts(ws, 0);
    lemma_word_parts_index(ws, 0);
    lemma_map_plain(ps, 0);
    let raw = map_parts(ps, 0);
    assert forall|k: int| 0 <= k < raw.len() implies (#[trigger] raw[k]) == word_term(ws[k]) by {
        assert(raw[k] == word_term(ps[k].0));
        assert(ps[k].0 == ws[k]);
    }
    assert forall|k: int|
        0 <= k < raw.len() implies (#[trigger] raw[k]) matches (SpecToken::Term {
        col: _,
        text: _,
    }) by {
        assert(raw[k] == word_term(ws[k]));
    }
    lemma_carry_plain(raw, 0, Option::None, Seq::empty());
    let carried = carry_from(raw, 0, Option::None, Option::None, Seq::empty());
    assert(carried =~= raw);
    assert(raw.len() == ws.len());
    lemma_with_and_operands(carried, ws, 0);
    lemma_render_canon(ws, 0);
}

proof fn lemma_word_parts_index(ws: Seq<Seq<char>>, j: int)
    requires
        0 <= j <= ws.len(),
    ensures
        word_parts(ws, j).len() == ws.len() - j,
        forall|m: int|
            0 <= m < word_parts(ws, j).len() ==> #[trigger] word_parts(ws, j)[m] == (
            ws[j + m],
            false,
        ),
    decreases ws.len() - j,
{
    if j < ws.len() {
        lemma_word_parts_index(ws, j + 1);
        assert forall|m: int|
            0 <= m < word_parts(ws, j).len() implies #[trigger] word_parts(ws, j)[m] == (
        ws[j + m], false) by {
            if m > 0 {
                assert(word_parts(ws, j)[m] == word_parts(ws, j + 1)[m - 1]);
            }
        }
    }
}

// ---------------------------------------------------------------------------
// Case folding.
// ---------------------------------------------------------------------------

/// Containment uses the same Unicode lowering on both sides: for a
/// single-term search, the mask bit of a row is exactly containment of the
/// lowered term in the row text — which `spec_row_text` itself assembles from
/// lowered cell renderings. (When the lowered term is empty the search has no
/// terms and no mask.)
pub proof fn law_case_folding_single_term(q: QueryInput, w: Seq<char>, i: int)
    requires
        q.search == (Option::Some(w)),
        plain_word(w),
        0 <= i < q.n,
    ensures
        crate::text::lower_of(w).len() > 0 ==> m_mask(q) is Some && m_mask(q).unwrap()[i] == (
        m_texts(q)[i].len() > 0 && crate::text::seq_contains(
            m_texts(q)[i],
            crate::text::lower_of(w),
        )),
        crate::text::lower_of(w).len() == 0 ==> m_mask(q) is None,
        !crate::engine::rt_cache_valid(q) ==> m_texts(q)[i] == crate::table::spec_row_text(
            q.tv,
            q.sc,
            i,
        ),
{
    assert(forall|k: int| 0 <= k < w.len() ==> !is_space_char(#[trigger] w[k]));
    crate::text::lemma_trim_fixed(w);
    assert(search_q(q) == w);
    let ws: Seq<Seq<char>> = seq![w];
    assert(forall|k: int| 0 <= k < ws.len() ==> term_word(#[trigger] ws[k]));
    law_tokenize_round_trip(ws);
    assert(joined(ws, 0) == w);
    let raw = spec_tokenize_raw(w);
    let t = SpecToken::Term { col: Option::None, text: w };
    assert(forall|i: int| 0 <= i < w.len() ==> (#[trigger] w[i]) != ':');
    lemma_find_from_none(w, ':', 0);
    assert(word_term(w) == t);
    assert(canon_tokens(ws, 0) =~= seq![t]);
    assert(raw == seq![t]);
    let lowered = lower_tokens(raw);
    let lt = SpecToken::Term { col: Option::None, text: crate::text::lower_of(w) };
    assert(lowered =~= seq![lt]);
    assert(spec_tokenize(w) == lowered);
    let lw = crate::text::lower_of(w);
    let keys = keys_from(lowered, 0, Seq::empty());
    assert(keys_from(lowered, 1, Seq::empty().push((Option::<Seq<char>>::None, lw)))
        == Seq::empty().push((Option::<Seq<char>>::None, lw)));
    assert(keys_from(lowered, 1, Seq::<(Option<Seq<char>>, Seq<char>)>::empty()) == Seq::<
        (Option<Seq<char>>, Seq<char>),
    >::empty());
    if lw.len() > 0 {
        assert(keys =~= seq![(Option::<Seq<char>>::None, lw)]);
        let rpn = crate::search::spec_rpn(lowered);
        assert(crate::search::rpn_from(lowered, 1, Seq::empty(), seq![lt]) == crate::search::rpn_drain(
            Seq::empty(),
            seq![lt],
        ));
        assert(rpn =~= seq![lt]);
        let texts = m_texts(q);
        let cm = crate::engine::m_search_colmap(q);
        assert(m_mask(q) == Option::Some(crate::mask::spec_mask(rpn, keys, texts, Option::Some(cm))));
        let st = crate::mask::eval_stack(rpn, 0, Seq::empty(), keys, texts, Option::Some(cm), i);
        let v = crate::mask::key_mask_at((Option::None, lw), texts, Option::Some(cm), i);
        assert(keys.contains((Option::<Seq<char>>::None, lw))) by {
            assert(keys[0] == (Option::<Seq<char>>::None, lw));
        }
        assert(crate::mask::eval_stack(rpn, 1, Seq::empty().push(v), keys, texts, Option::Some(cm), i)
            == Seq::empty().push(v));
        assert(st =~= seq![v]);
        assert(m_mask(q).unwrap()[i] == v);
        assert(v == (texts[i].len() > 0 && crate::text::seq_contains(texts[i], lw)));
    } else {
        assert(keys =~= Seq::<(Option<Seq<char>>, Seq<char>)>::empty());
    }
}

// ---------------------------------------------------------------------------
// Operator-only searches.
// ---------------------------------------------------------------------------

/// A character that is only search punctuation: a pipe or whitespace.
pub open spec fn pipe_or_space(c: char) -> bool {
    c == '|' || is_space_char(c)
}

proof fn lemma_trim_pipe_space(s: Seq<char>)
    requires
        forall|i: int| 0 <= i < s.len() ==> pipe_or_space(#[trigger] s[i]),
    ensures
        forall|i: int|
            0 <= i < trim_seq(s).len() ==> pipe_or_space(#[trigger] trim_seq(s)[i]),
{
    let p = |c: char| pipe_or_space(c);
    crate::text::lemma_trim_preserves(s, p);
    assert forall|i: int| 0 <= i < trim_seq(s).len() implies pipe_or_space(
        #[trigger] trim_seq(s)[i],
    ) by {
        assert(p(trim_seq(s)[i]));
    }
}

proof fn lemma_parts_pipe_only(
    s: Seq<char>,
    i: int,
    lwp: bool,
    acc: Seq<(Seq<char>, bool)>,
)
    requires
        0 <= i <= s.len(),
        forall|k: int| i <= k < s.len() ==> pipe_or_space(#[trigger] s[k]),
        forall|k: int| 0 <= k < acc.len() ==> #[trigger] acc[k] == (seq!['|'], false),
    ensures
        forall|k: int|
            0 <= k < parts_from(s, i, false, lwp, Seq::empty(), acc).len()
                ==> #[trigger] parts_from(s, i, false, lwp, Seq::empty(), acc)[k] == (
                seq!['|'],
                false,
            ),
    decreases s.len() - i,
{
    crate::text::lemma_trim_fixed(Seq::<char>::empty());
    assert(trim_seq(Seq::<char>::empty()).len() == 0);
    let r = parts_from(s, i, false, lwp, Seq::empty(), acc);
    if i < s.len() {
        let c = s[i];
        assert(pipe_or_space(c));
        assert(c != '"');
        if c == '|' {
            if lwp {
                lemma_parts_pipe_only(s, i + 1, true, acc);
                assert(r == parts_from(s, i + 1, false, true, Seq::empty(), acc));
            } else {
                assert(spec_flush(acc, Seq::empty(), false) == acc);
                let acc2 = acc.push((seq!['|'], false));
                assert forall|k: int| 0 <= k < acc2.len() implies #[trigger] acc2[k] == (
                    seq!['|'],
                    false,
                ) by {
                    if k < acc.len() {
                        assert(acc2[k] == acc[k]);
                    }
                }
                lemma_parts_pipe_only(s, i + 1, true, acc2);
                assert(r == parts_from(s, i + 1, false, true, Seq::empty(), acc2));
            }
        } else {
            assert(is_space_char(c));
            assert(spec_flush(acc, Seq::empty(), false) == acc);
            lemma_parts_pipe_only(s, i + 1, false, acc);
            assert(r == parts_from(s, i + 1, false, false, Seq::empty(), acc));
        }
    } else {
        assert(spec_flush(acc, Seq::empty(), false) == acc);
        assert(r == acc);
    }
}

proof fn lemma_map_parts_pipe_only(ps: Seq<(Seq<char>, bool)>, i: int)
    requires
        forall|k: int| 0 <= k < ps.len() ==> #[trigger] ps[k] == (seq!['|'], false),
    ensures
        forall|k: int|
            0 <= k < map_parts(ps, i).len() ==> #[trigger] map_parts(ps, i)[k] == SpecToken::Or,
    decreases ps.len() - i,
{
    if 0 <= i < ps.len() {
        lemma_map_parts_pipe_only(ps, i + 1);
        assert(ps[i].0.last() != ':');
        assert(crate::search::map_part(ps[i].0, ps[i].1) =~= seq![SpecToken::Or]);
    }
}

proof fn lemma_carry_or_only(
    ts: Seq<SpecToken>,
    i: int,
    last: Option<Seq<char>>,
    carry: Option<Seq<char>>,
    acc: Seq<SpecToken>,
)
    requires
        0 <= i <= ts.len(),
        forall|k: int| 0 <= k < ts.len() ==> #[trigger] ts[k] == SpecToken::Or,
        forall|k: int| 0 <= k < acc.len() ==> #[trigger] acc[k] == SpecToken::Or,
    ensures
        forall|k: int|
            0 <= k < carry_from(ts, i, last, carry, acc).len() ==> #[trigger] carry_from(
                ts,
                i,
                last,
                carry,
                acc,
            )[k] == SpecToken::Or,
    decreases ts.len() - i,
{
    if i < ts.len() {
        lemma_carry_or_only(ts, i + 1, last, last, acc.push(SpecToken::Or));
    }
}

proof fn lemma_with_and_or_only(ts: Seq<SpecToken>, i: int)
    requires
        forall|k: int| 0 <= k < ts.len() ==> #[trigger] ts[k] == SpecToken::Or,
    ensures
        forall|k: int|
            0 <= k < with_and(ts, i).len() ==> #[trigger] with_and(ts, i)[k] == SpecToken::Or,
    decreases ts.len() - i,
{
    if 0 <= i < ts.len() {
        lemma_with_and_or_only(ts, i + 1);
        assert(!is_operand(ts[i]));
    }
}

proof fn lemma_keys_or_only(ts: Seq<SpecToken>, i: int)
    requires
        forall|k: int| 0 <= k < ts.len() ==> #[trigger] ts[k] == SpecToken::Or,
        0 <= i,
    ensures
        keys_from(ts, i, Seq::empty()) == Seq::<(Option<Seq<char>>, Seq<char>)>::empty(),
    decreases ts.len() - i,
{
    if i < ts.len() {
        lemma_keys_or_only(ts, i + 1);
    }
}

/// A search made only of pipes and whitespace tokenises to OR operators
/// alone, so it yields no mask and behaves as an empty search.
pub proof fn law_operator_only_search(q: QueryInput)
    requires
        match q.search {
            Option::Some(s) => forall|i: int| 0 <= i < s.len() ==> pipe_or_space(#[trigger] s[i]),
            Option::None => true,
        },
    ensures
        m_mask(q) is None,
{
    match q.search {
        Option::Some(s) => {
            let st = trim_seq(s);
            lemma_trim_pipe_space(s);
            if st.len() > 0 {
                let parts = crate::search::spec_parts(st);
                lemma_parts_pipe_only(st, 0, false, Seq::empty());
                let raw = map_parts(parts, 0);
                lemma_map_parts_pipe_only(parts, 0);
                let carried = carry_from(raw, 0, Option::None, Option::None, Seq::empty());
                lemma_carry_or_only(raw, 0, Option::None, Option::None, Seq::empty());
                let anded = with_and(carried, 0);
                lemma_with_and_or_only(carried, 0);
                assert(forall|k: int|
                    0 <= k < lower_tokens(anded).len() ==> #[trigger] lower_tokens(anded)[k]
                        == SpecToken::Or) by {
                    assert(forall|k: int|
                        0 <= k < anded.len() ==> crate::search::lower_token(#[trigger] anded[k])
                            == SpecToken::Or);
                }
                lemma_keys_or_only(spec_tokenize(st), 0);
            }
        },
        Option::None => {},
    }
}

} // verus!
