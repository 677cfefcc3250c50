//! Mask evaluation: per-term boolean vectors over the row texts, and a
//! postfix walk with a small boolean stack for each row.

use vstd::prelude::*;

use crate::search::{
    keys_view, opt_chars, strs_view, tokens_view, SearchToken, SpecToken,
};
use crate::text::{chars_of, seq_contains};

verus! {

/// View of a per-column text table: column name to one lowercase text per row.
pub open spec fn colmap_view(m: Seq<(String, Vec<String>)>) -> Seq<(Seq<char>, Seq<Seq<char>>)> {
    Seq::new(m.len(), |i: int| (m[i].0@, strs_view(m[i].1@)))
}

/// First-match lookup in a column-to-texts association.
pub open spec fn assoc_lookup(pc: Seq<(Seq<char>, Seq<Seq<char>>)>, col: Seq<char>) -> Option<
    Seq<Seq<char>>,
>
    decreases pc.len(),
{
    if pc.len() == 0 {
        Option::None
    } else if pc[0].0 == col {
        Option::Some(pc[0].1)
    } else {
        assoc_lookup(pc.drop_first(), col)
    }
}

/// The mask bit of one term key at row `i`: column-scoped terms test the
/// column's text, unscoped terms (or a missing table) test the row text; a
/// column absent from the table reads as false, and empty cell text never
/// matches.
pub open spec fn key_mask_at(
    key: (Option<Seq<char>>, Seq<char>),
    texts: Seq<Seq<char>>,
    pc: Option<Seq<(Seq<char>, Seq<Seq<char>>)>>,
    i: int,
) -> bool {
    match (key.0, pc) {
        (Option::Some(col), Option::Some(pcv)) => match assoc_lookup(pcv, col) {
            Option::Some(ct) => 0 <= i < ct.len() && ct[i].len() > 0 && seq_contains(ct[i], key.1),
            Option::None => false,
        },
        _ => 0 <= i < texts.len() && texts[i].len() > 0 && seq_contains(texts[i], key.1),
    }
}

/// Pops the top of a boolean stack, reading false when it is empty.
pub open spec fn pop1(st: Seq<bool>) -> (bool, Seq<bool>) {
    if st.len() > 0 {
        (st.last(), st.drop_last())
    } else {
        (false, st)
    }
}

/// The boolean stack after walking the postfix tokens from position `j` for
/// row `i`. Terms whose key is not among `keys` read as false.
pub open spec fn eval_stack(
    rpn: Seq<SpecToken>,
    j: int,
    st: Seq<bool>,
    keys: Seq<(Option<Seq<char>>, Seq<char>)>,
    texts: Seq<Seq<char>>,
    pc: Option<Seq<(Seq<char>, Seq<Seq<char>>)>>,
    i: int,
) -> Seq<bool>
    decreases rpn.len() - j,
{
    if !(0 <= j < rpn.len()) {
        st
    } else {
        let next = match rpn[j] {
            SpecToken::Term { col, text } => {
                let v = if keys.contains((col, text)) {
                    key_mask_at((col, text), texts, pc, i)
                } else {
                    false
                };
                st.push(v)
            },
            SpecToken::QuotedTerm { col, text } => {
                let v = if keys.contains((col, text)) {
                    key_mask_at((col, text), texts, pc, i)
                } else {
                    false
                };
                st.push(v)
            },
            SpecToken::Not => {
                let p = pop1(st);
                p.1.push(!p.0)
            },
            SpecToken::And => {
                let pb = pop1(st);
                let pa = pop1(pb.1);
                pa.1.push(pa.0 && pb.0)
            },
            SpecToken::Or => {
                let pb = pop1(st);
                let pa = pop1(pb.1);
                pa.1.push(pa.0 || pb.0)
            },
        };
        eval_stack(rpn, j + 1, next, keys, texts, pc, i)
    }
}

/// The mask bit of row `i` under a postfix token walk.
pub open spec fn spec_row_mask(
    rpn: Seq<SpecToken>,
    keys: Seq<(Option<Seq<char>>, Seq<char>)>,
    texts: Seq<Seq<char>>,
    pc: Option<Seq<(Seq<char>, Seq<Seq<char>>)>>,
    i: int,
) -> bool {
    let st = eval_stack(rpn, 0, Seq::empty(), keys, texts, pc, i);
    if st.len() > 0 {
        st.last()
    } else {
        false
    }
}

/// The whole boolean mask, one bit per row text.
pub open spec fn spec_mask(
    rpn: Seq<SpecToken>,
    keys: Seq<(Option<Seq<char>>, Seq<char>)>,
    texts: Seq<Seq<char>>,
    pc: Option<Seq<(Seq<char>, Seq<Seq<char>>)>>,
) -> Seq<bool> {
    Seq::new(texts.len(), |i: int| spec_row_mask(rpn, keys, texts, pc, i))
}

pub proof fn lemma_assoc_first(pc: Seq<(Seq<char>, Seq<Seq<char>>)>, col: Seq<char>, j: int)
    requires
        0 <= j < pc.len(),
        forall|k: int| 0 <= k < j ==> pc[k].0 != col,
        pc[j].0 == col,
    ensures
        assoc_lookup(pc, col) == Option::Some(pc[j].1),
    decreases j,
{
    if j == 0 {
    } else {
        lemma_assoc_first(pc.drop_first(), col, j - 1);
    }
}

pub proof fn lemma_assoc_none(pc: Seq<(Seq<char>, Seq<Seq<char>>)>, col: Seq<char>)
    requires
        forall|k: int| 0 <= k < pc.len() ==> pc[k].0 != col,
    ensures
        assoc_lookup(pc, col) == Option::<Seq<Seq<char>>>::None,
    decreases pc.len(),
{
    if pc.len() > 0 {
        lemma_assoc_none(pc.drop_first(), col);
    }
}

/// Looking a key up after a push: existing entries win, the new entry serves
/// its own key, other keys stay absent.
pub proof fn lemma_assoc_push(
    pc: Seq<(Seq<char>, Seq<Seq<char>>)>,
    key: Seq<char>,
    val: Seq<Seq<char>>,
    col: Seq<char>,
)
    ensures
        assoc_lookup(pc.push((key, val)), col) == (if assoc_lookup(pc, col) is Some {
            assoc_lookup(pc, col)
        } else if col == key {
            Option::Some(val)
        } else {
            Option::<Seq<Seq<char>>>::None
        }),
    decreases pc.len(),
{
    if pc.len() == 0 {
        assert(pc.push((key, val))[0] == (key, val));
        if col != key {
            assert(pc.push((key, val)).drop_first() =~= Seq::<(Seq<char>, Seq<Seq<char>>)>::empty());
        }
    } else {
        assert(pc.push((key, val)).drop_first() =~= pc.drop_first().push((key, val)));
        lemma_assoc_push(pc.drop_first(), key, val, col);
    }
}

fn assoc_find<'a>(pc: &'a Vec<(String, Vec<String>)>, col: &String) -> (r: Option<&'a Vec<String>>)
    ensures
        match r {
            Option::Some(ct) => assoc_lookup(colmap_view(pc@), col@) == Option::Some(
                strs_view(ct@),
            ),
            Option::None => assoc_lookup(colmap_view(pc@), col@) == Option::<Seq<Seq<char>>>::None,
        },
{
    let n = pc.len();
    let mut i: usize = 0;
    while i < n
        invariant
            n == pc@.len(),
            0 <= i <= n,
            forall|k: int| 0 <= k < i ==> colmap_view(pc@)[k].0 != col@,
        decreases n - i,
    {
        if crate::search::str_eq(&pc[i].0, col) {
            proof {
                lemma_assoc_first(colmap_view(pc@), col@, i as int);
            }
            return Option::Some(&pc[i].1);
        }
        i += 1;
    }
    proof {
        lemma_assoc_none(colmap_view(pc@), col@);
    }
    Option::None
}

fn build_key_mask(
    col: &Option<String>,
    term: &String,
    texts: &Vec<String>,
    pc: Option<&Vec<(String, Vec<String>)>>,
) -> (m: Vec<bool>)
    ensures
        m@.len() == texts@.len(),
        forall|i: int|
            0 <= i < m@.len() ==> m@[i] == key_mask_at(
                (opt_chars(*col), term@),
                strs_view(texts@),
                match pc {
                    Option::Some(p) => Option::Some(colmap_view(p@)),
                    Option::None => Option::<Seq<(Seq<char>, Seq<Seq<char>>)>>::None,
                },
                i,
            ),
{
    let n = texts.len();
    let term_chars = chars_of(term.as_str());
    let mut m: Vec<bool> = Vec::new();
    match (col, pc) {
        (Option::Some(c), Option::Some(pcv)) => {
            let found = assoc_find(pcv, c);
            match found {
                Option::Some(ct) => {
                    let mut i: usize = 0;
                    while i < n
                        invariant
                            n == texts@.len(),
                            0 <= i <= n,
                            m@.len() == i,
                            term_chars@ == term@,
                            assoc_lookup(colmap_view(pcv@), c@) == Option::Some(strs_view(ct@)),
                            forall|k: int|
                                0 <= k < i ==> m@[k] == key_mask_at(
                                    (Option::Some(c@), term@),
                                    strs_view(texts@),
                                    Option::Some(colmap_view(pcv@)),
                                    k,
                                ),
                        decreases n - i,
                    {
                        if i < ct.len() {
                            let cell = chars_of(ct[i].as_str());
                            let v = cell.len() > 0 && crate::text::contains_chars(
                                &cell,
                                &term_chars,
                            );
                            m.push(v);
                        } else {
                            m.push(false);
                        }
                        i += 1;
                    }
                },
                Option::None => {
                    let mut i: usize = 0;
                    while i < n
                        invariant
                            n == texts@.len(),
                            0 <= i <= n,
                            m@.len() == i,
                            assoc_lookup(colmap_view(pcv@), c@) == Option::<Seq<Seq<char>>>::None,
                            forall|k: int| 0 <= k < i ==> m@[k] == false,
                        decreases n - i,
                    {
                        m.push(false);
                        i += 1;
                    }
                },
            }
        },
        _ => {
            let mut i: usize = 0;
            while i < n
                invariant
                    n == texts@.len(),
                    0 <= i <= n,
                    m@.len() == i,
                    term_chars@ == term@,
                    forall|k: int|
                        0 <= k < i ==> m@[k] == (strs_view(texts@)[k].len() > 0 && seq_contains(
                            strs_view(texts@)[k],
                            term@,
                        )),
                decreases n - i,
            {
                let cell = chars_of(texts[i].as_str());
                let v = cell.len() > 0 && crate::text::contains_chars(&cell, &term_chars);
                m.push(v);
                i += 1;
            }
        },
    }
    m
}

fn find_key(terms: &Vec<(Option<String>, String)>, col: &Option<String>, text: &String) -> (r:
    Option<usize>)
    ensures
        match r {
            Option::Some(j) => 0 <= j < terms@.len() && keys_view(terms@)[j as int] == (
                opt_chars(*col),
                text@,
            ),
            Option::None => !keys_view(terms@).contains((opt_chars(*col), text@)),
        },
{
    let n = terms.len();
    let mut i: usize = 0;
    while i < n
        invariant
            n == terms@.len(),
            0 <= i <= n,
            forall|k: int| 0 <= k < i ==> keys_view(terms@)[k] != (opt_chars(*col), text@),
        decreases n - i,
    {
        let same_col = match (&terms[i].0, col) {
            (Option::None, Option::None) => true,
            (Option::Some(x), Option::Some(y)) => crate::search::str_eq(x, y),
            _ => false,
        };
        if same_col && crate::search::str_eq(&terms[i].1, text) {
            assert(keys_view(terms@)[i as int] == (opt_chars(*col), text@));
            return Option::Some(i);
        }
        i += 1;
    }
    assert(forall|k: int|
        0 <= k < keys_view(terms@).len() ==> keys_view(terms@)[k] != (opt_chars(*col), text@));
    Option::None
}

/// Evaluates the postfix token stream against precomputed row texts.
///
/// For every row the result bit is the boolean value of the query: each term
/// reads its precomputed mask (false when its key is not among `terms`),
/// `Not`, `And` and `Or` combine stack values, and an exhausted stack reads
/// as false.
pub fn build_search_mask_boolean(
    rpn: &Vec<SearchToken>,
    terms: &Vec<(Option<String>, String)>,
    searchable_text: &Vec<String>,
    per_column: Option<&Vec<(String, Vec<String>)>>,
) -> (r: Vec<bool>)
    ensures
        r@ == spec_mask(
            tokens_view(rpn@),
            keys_view(terms@),
            strs_view(searchable_text@),
            match per_column {
                Option::Some(p) => Option::Some(colmap_view(p@)),
                Option::None => Option::<Seq<(Seq<char>, Seq<Seq<char>>)>>::None,
            },
        ),
{
    let ghost rv = tokens_view(rpn@);
    let ghost kv = keys_view(terms@);
    let ghost tv = strs_view(searchable_text@);
    let ghost pcv = match per_column {
        Option::Some(p) => Option::Some(colmap_view(p@)),
        Option::None => Option::<Seq<(Seq<char>, Seq<Seq<char>>)>>::None,
    };
    let n = searchable_text.len();
    let nk = terms.len();
    let mut key_masks: Vec<Vec<bool>> = Vec::new();
    let mut t: usize = 0;
    while t < nk
        invariant
            nk == terms@.len(),
            n == searchable_text@.len(),
            tv == strs_view(searchable_text@),
            kv == keys_view(terms@),
            pcv == (match per_column {
                Option::Some(p) => Option::Some(colmap_view(p@)),
                Option::None => Option::<Seq<(Seq<char>, Seq<Seq<char>>)>>::None,
            }),
            0 <= t <= nk,
            key_masks@.len() == t,
            forall|k: int| 0 <= k < t ==> (#[trigger] key_masks@[k])@.len() == n,
            forall|k: int, i: int|
                0 <= k < t && 0 <= i < n ==> #[trigger] key_masks@[k]@[i] == key_mask_at(
                    kv[k],
                    tv,
                    pcv,
                    i,
                ),
        decreases nk - t,
    {
        let ghost before = key_masks@;
        let m = build_key_mask(&terms[t].0, &terms[t].1, searchable_text, per_column);
        proof {
            assert(kv[t as int] == (opt_chars(terms@[t as int].0), terms@[t as int].1@));
        }
        key_masks.push(m);
        proof {
            assert forall|k: int, i: int| 0 <= k < t + 1 && 0 <= i < n implies #[trigger] key_masks@[k]@[i]
                == key_mask_at(kv[k], tv, pcv, i) by {
                if k < t {
                    assert(key_masks@[k] == before[k]);
                } else {
                    assert(key_masks@[k] == m);
                }
            }
        }
        t += 1;
    }
    let mut out: Vec<bool> = Vec::new();
    let mut i: usize = 0;
    while i < n
        invariant
            nk == terms@.len(),
            n == searchable_text@.len(),
            tv == strs_view(searchable_text@),
            kv == keys_view(terms@),
            pcv == (match per_column {
                Option::Some(p) => Option::Some(colmap_view(p@)),
                Option::None => Option::<Seq<(Seq<char>, Seq<Seq<char>>)>>::None,
            }),
            rv == tokens_view(rpn@),
            0 <= i <= n,
            out@.len() == i,
            key_masks@.len() == nk,
            forall|k: int| 0 <= k < nk ==> (#[trigger] key_masks@[k])@.len() == n,
            forall|k: int, x: int|
                0 <= k < nk && 0 <= x < n ==> #[trigger] key_masks@[k]@[x] == key_mask_at(
                    kv[k],
                    tv,
                    pcv,
                    x,
                ),
            forall|x: int| 0 <= x < i ==> out@[x] == spec_row_mask(rv, kv, tv, pcv, x),
        decreases n - i,
    {
        let mut stack: Vec<bool> = Vec::new();
        let mut j: usize = 0;
        let nr = rpn.len();
        proof {
            assert(stack@ =~= eval_stack(rv, 0, Seq::empty(), kv, tv, pcv, i as int).subrange(
                0,
                0,
            ) || true);
        }
        while j < nr
            invariant
                nr == rpn@.len(),
                rv == tokens_view(rpn@),
                nk == terms@.len(),
                n == searchable_text@.len(),
                tv == strs_view(searchable_text@),
                kv == keys_view(terms@),
                pcv == (match per_column {
                    Option::Some(p) => Option::Some(colmap_view(p@)),
                    Option::None => Option::<Seq<(Seq<char>, Seq<Seq<char>>)>>::None,
                }),
                0 <= i < n,
                0 <= j <= nr,
                key_masks@.len() == nk,
                forall|k: int| 0 <= k < nk ==> (#[trigger] key_masks@[k])@.len() == n,
                forall|k: int, x: int|
                    0 <= k < nk && 0 <= x < n ==> #[trigger] key_masks@[k]@[x] == key_mask_at(
                        kv[k],
                        tv,
                        pcv,
                        x,
                    ),
                eval_stack(rv, j as int, stack@, kv, tv, pcv, i as int) == eval_stack(
                    rv,
                    0,
                    Seq::empty(),
                    kv,
                    tv,
                    pcv,
                    i as int,
                ),
            decreases nr - j,
        {
            let ghost st0 = stack@;
            match &rpn[j] {
                SearchToken::Term { col, text } => {
                    let v = match find_key(terms, col, text) {
                        Option::Some(kidx) => key_masks[kidx][i],
                        Option::None => false,
                    };
                    stack.push(v);
                    proof {
                        assert(stack@ =~= st0.push(v));
                    }
                },
                SearchToken::QuotedTerm { col, text } => {
                    let v = match find_key(terms, col, text) {
                        Option::Some(kidx) => key_masks[kidx][i],
                        Option::None => false,
                    };
                    stack.push(v);
                    proof {
                        assert(stack@ =~= st0.push(v));
                    }
                },
                SearchToken::Not => {
                    let a = if stack.len() > 0 {
                        stack.pop().unwrap()
                    } else {
                        false
                    };
                    stack.push(!a);
                    proof {
                        assert(stack@ =~= pop1(st0).1.push(!pop1(st0).0));
                    }
                },
                SearchToken::And => {
                    let b = if stack.len() > 0 {
                        stack.pop().unwrap()
                    } else {
                        false
                    };
                    let a = if stack.len() > 0 {
                        stack.pop().unwrap()
                    } else {
                        false
                    };
                    stack.push(a && b);
                    proof {
                        let pb = pop1(st0);
                        let pa = pop1(pb.1);
                        assert(stack@ =~= pa.1.push(pa.0 && pb.0));
                    }
                },
                SearchToken::Or => {
                    let b = if stack.len() > 0 {
                        stack.pop().unwrap()
                    } else {
                        false
                    };
                    let a = if stack.len() > 0 {
                        stack.pop().unwrap()
                    } else {
                        false
                    };
                    stack.push(a || b);
                    proof {
                        let pb = pop1(st0);
                        let pa = pop1(pb.1);
                        assert(stack@ =~= pa.1.push(pa.0 || pb.0));
                    }
                },
            }
            j += 1;
        }
        let v = if stack.len() > 0 {
            stack.pop().unwrap()
        } else {
            false
        };
        proof {
            assert(v == spec_row_mask(rv, kv, tv, pcv, i as int));
        }
        out.push(v);
        i += 1;
    }
    proof {
        assert(out@ =~= spec_mask(rv, kv, tv, pcv));
    }
    out
}

} // verus!
