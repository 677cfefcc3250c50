//! The flag store: a per-project mapping from row position to `{flag, memo}`,
//! held in memory. Loading, saving, upserting, removal, counting, and the
//! update rule that removes an entry when both flag and memo trim to blank.

use vstd::prelude::*;

use crate::flags::{flag_chars, flag_kind_of, flag_text, parse_flag, FlagEntry};
use crate::search::opt_chars;
use crate::text::{chars_of, trim_chars, trim_seq};

verus! {

/// The view of a flag entry: flag text and optional memo text.
pub open spec fn entry_view(e: FlagEntry) -> (Seq<char>, Option<Seq<char>>) {
    (e.flag@, opt_chars(e.memo))
}

/// The view of a `(row, entry)` pair list.
pub open spec fn entries_view(s: Seq<(usize, FlagEntry)>) -> Seq<
    (int, (Seq<char>, Option<Seq<char>>)),
> {
    Seq::new(s.len(), |i: int| (s[i].0 as int, entry_view(s[i].1)))
}

/// First entry for row `idx` in a pair list.
pub open spec fn find_entry(
    es: Seq<(int, (Seq<char>, Option<Seq<char>>))>,
    idx: int,
) -> Option<(Seq<char>, Option<Seq<char>>)>
    decreases es.len(),
{
    if es.len() == 0 {
        Option::None
    } else if es[0].0 == idx {
        Option::Some(es[0].1)
    } else {
        find_entry(es.drop_first(), idx)
    }
}

/// Last entry for row `idx` in a pair list (later pairs win, as when loading
/// persisted pairs in write order).
pub open spec fn find_entry_last(
    es: Seq<(int, (Seq<char>, Option<Seq<char>>))>,
    idx: int,
) -> Option<(Seq<char>, Option<Seq<char>>)>
    decreases es.len(),
{
    if es.len() == 0 {
        Option::None
    } else if es.last().0 == idx {
        Option::Some(es.last().1)
    } else {
        find_entry_last(es.drop_last(), idx)
    }
}

/// The in-memory flag store of one project.
#[derive(Debug)]
pub struct FlagStore {
    pub entries: Vec<(usize, FlagEntry)>,
}

/// Row positions are unique within the store.
pub open spec fn store_wf(s: FlagStore) -> bool {
    forall|i: int, j: int|
        0 <= i < j < s.entries@.len() ==> (#[trigger] s.entries@[i]).0 != (
        #[trigger] s.entries@[j]).0
}

/// The entry stored for row `idx`, if any.
pub open spec fn store_lookup(s: FlagStore, idx: int) -> Option<(Seq<char>, Option<Seq<char>>)> {
    find_entry(entries_view(s.entries@), idx)
}

/// The user flag of row `idx`: the normalised flag of its entry, or absent.
pub open spec fn store_user_flag(s: FlagStore, idx: int) -> crate::flags::FlagKind {
    match store_lookup(s, idx) {
        Option::Some(e) => parse_flag(e.0),
        Option::None => crate::flags::FlagKind::Empty,
    }
}

proof fn lemma_find_entry_at(
    es: Seq<(int, (Seq<char>, Option<Seq<char>>))>,
    idx: int,
    j: int,
)
    requires
        0 <= j < es.len(),
        forall|k: int| 0 <= k < j ==> es[k].0 != idx,
        es[j].0 == idx,
    ensures
        find_entry(es, idx) == Option::Some(es[j].1),
    decreases j,
{
    if j > 0 {
        lemma_find_entry_at(es.drop_first(), idx, j - 1);
    }
}

proof fn lemma_find_entry_none(es: Seq<(int, (Seq<char>, Option<Seq<char>>))>, idx: int)
    requires
        forall|k: int| 0 <= k < es.len() ==> es[k].0 != idx,
    ensures
        find_entry(es, idx) == Option::<(Seq<char>, Option<Seq<char>>)>::None,
    decreases es.len(),
{
    if es.len() > 0 {
        lemma_find_entry_none(es.drop_first(), idx);
    }
}

fn clone_entry(e: &FlagEntry) -> (r: FlagEntry)
    ensures
        entry_view(r) == entry_view(*e),
{
    FlagEntry {
        flag: e.flag.clone(),
        memo: match &e.memo {
            Option::Some(m) => Option::Some(m.clone()),
            Option::None => Option::None,
        },
    }
}

fn find_index(s: &FlagStore, row_index: usize) -> (r: Option<usize>)
    ensures
        match r {
            Option::Some(j) => 0 <= j < s.entries@.len() && s.entries@[j as int].0 == row_index
                && (forall|k: int|
                0 <= k < j ==> (#[trigger] s.entries@[k]).0 != row_index),
            Option::None => forall|k: int|
                0 <= k < s.entries@.len() ==> (#[trigger] s.entries@[k]).0 != row_index,
        },
{
    let n = s.entries.len();
    let mut i: usize = 0;
    while i < n
        invariant
            n == s.entries@.len(),
            0 <= i <= n,
            forall|k: int| 0 <= k < i ==> (#[trigger] s.entries@[k]).0 != row_index,
        decreases n - i,
    {
        if s.entries[i].0 == row_index {
            return Option::Some(i);
        }
        i += 1;
    }
    Option::None
}

impl FlagStore {
    /// An empty store.
    pub fn new() -> (r: FlagStore)
        ensures
            store_wf(r),
            forall|idx: int| store_lookup(r, idx) == Option::<(Seq<char>, Option<Seq<char>>)>::None,
    {
        let s = FlagStore { entries: Vec::new() };
        proof {
            assert(entries_view(s.entries@) =~= Seq::<
                (int, (Seq<char>, Option<Seq<char>>)),
            >::empty());
        }
        s
    }

    /// Inserts or replaces the entry of one row.
    pub fn upsert_flag(&mut self, row_index: usize, entry: FlagEntry)
        requires
            store_wf(*old(self)),
        ensures
            store_wf(*final(self)),
            store_lookup(*final(self), row_index as int) == Option::Some(entry_view(entry)),
            forall|idx: int|
                idx != row_index as int ==> #[trigger] store_lookup(*final(self), idx)
                    == store_lookup(*old(self), idx),
    {
        let found = find_index(self, row_index);
        match found {
            Option::Some(j) => {
                self.entries.set(j, (row_index, entry));
                proof {
                    let ev = entries_view(self.entries@);
                    let old_ev = entries_view(old(self).entries@);
                    assert(ev =~= old_ev.update(j as int, (row_index as int, entry_view(entry))));
                    assert forall|idx: int| true implies #[trigger] store_lookup(
                        *final(self),
                        idx,
                    ) == (if idx == row_index as int {
                        Option::Some(entry_view(entry))
                    } else {
                        store_lookup(*old(self), idx)
                    }) by {
                        if idx == row_index as int {
                            assert(forall|k: int| 0 <= k < j ==> ev[k].0 != idx);
                            lemma_find_entry_at(ev, idx, j as int);
                        } else {
                            lemma_find_entry_update_other(old_ev, j as int, (
                                row_index as int,
                                entry_view(entry),
                            ), idx);
                        }
                    }
                }
            },
            Option::None => {
                self.entries.push((row_index, entry));
                proof {
                    let ev = entries_view(self.entries@);
                    let old_ev = entries_view(old(self).entries@);
                    assert(ev =~= old_ev.push((row_index as int, entry_view(entry))));
                    assert forall|idx: int| true implies #[trigger] store_lookup(
                        *final(self),
                        idx,
                    ) == (if idx == row_index as int {
                        Option::Some(entry_view(entry))
                    } else {
                        store_lookup(*old(self), idx)
                    }) by {
                        lemma_find_entry_push(old_ev, (row_index as int, entry_view(entry)), idx);
                        if idx == row_index as int {
                            lemma_find_entry_none(old_ev, idx);
                        }
                    }
                }
            },
        }
    }

    /// Removes the entry of one row, if present.
    pub fn remove_flag(&mut self, row_index: usize)
        requires
            store_wf(*old(self)),
        ensures
            store_wf(*final(self)),
            store_lookup(*final(self), row_index as int) == Option::<
                (Seq<char>, Option<Seq<char>>),
            >::None,
            forall|idx: int|
                idx != row_index as int ==> #[trigger] store_lookup(*final(self), idx)
                    == store_lookup(*old(self), idx),
    {
        let found = find_index(self, row_index);
        match found {
            Option::Some(j) => {
                self.entries.remove(j);
                proof {
                    let ev = entries_view(self.entries@);
                    let old_ev = entries_view(old(self).entries@);
                    assert(ev =~= old_ev.remove(j as int));
                    assert forall|idx: int| true implies #[trigger] store_lookup(
                        *final(self),
                        idx,
                    ) == (if idx == row_index as int {
                        Option::<(Seq<char>, Option<Seq<char>>)>::None
                    } else {
                        store_lookup(*old(self), idx)
                    }) by {
                        if idx != row_index as int {
                            lemma_find_entry_remove(old_ev, j as int, idx);
                        }
                        if idx == row_index as int {
                            assert(forall|k: int|
                                0 <= k < ev.len() ==> #[trigger] ev[k].0 != idx) by {
                                assert(forall|k: int|
                                    0 <= k < old_ev.len() && k != j ==> #[trigger] old_ev[k].0
                                        != idx);
                            }
                            lemma_find_entry_none(ev, idx);
                        }
                    }
                }
            },
            Option::None => {
                proof {
                    lemma_find_entry_none(entries_view(self.entries@), row_index as int);
                }
            },
        }
    }

    /// The entry of one row, copied out.
    pub fn get_flag(&self, row_index: usize) -> (r: Option<FlagEntry>)
        ensures
            match r {
                Option::Some(e) => store_lookup(*self, row_index as int) == Option::Some(
                    entry_view(e),
                ),
                Option::None => store_lookup(*self, row_index as int) == Option::<
                    (Seq<char>, Option<Seq<char>>),
                >::None,
            },
    {
        let found = find_index(self, row_index);
        match found {
            Option::Some(j) => {
                proof {
                    assert(forall|k: int|
                        0 <= k < j ==> entries_view(self.entries@)[k].0 != row_index as int) by {
                        assert(forall|k: int|
                            0 <= k < j ==> (#[trigger] self.entries@[k]).0 != row_index);
                    }
                    lemma_find_entry_at(entries_view(self.entries@), row_index as int, j as int);
                }
                Option::Some(clone_entry(&self.entries[j].1))
            },
            Option::None => {
                proof {
                    lemma_find_entry_none(entries_view(self.entries@), row_index as int);
                }
                Option::None
            },
        }
    }

    /// How many stored entries carry a flag that normalises to a non-absent
    /// kind.
    pub fn count_flagged(&self) -> (r: usize)
        ensures
            r == count_flagged_from(entries_view(self.entries@), 0),
    {
        let n = self.entries.len();
        let mut count: usize = 0;
        let mut i: usize = 0;
        while i < n
            invariant
                n == self.entries@.len(),
                0 <= i <= n,
                count <= i,
                count + count_flagged_from(entries_view(self.entries@), i as int)
                    == count_flagged_from(entries_view(self.entries@), 0),
            decreases n - i,
        {
            let k = crate::flags::flag_kind_of(self.entries[i].1.flag.as_str());
            if !matches!(k, crate::flags::FlagKind::Empty) {
                count += 1;
            }
            i += 1;
        }
        count
    }
}

/// The number of entries from position `i` on whose flag normalises to a
/// non-absent kind.
pub open spec fn count_flagged_from(
    es: Seq<(int, (Seq<char>, Option<Seq<char>>))>,
    i: int,
) -> int
    decreases es.len() - i,
{
    if !(0 <= i < es.len()) {
        0
    } else {
        (if parse_flag(es[i].1.0) != crate::flags::FlagKind::Empty {
            1int
        } else {
            0int
        }) + count_flagged_from(es, i + 1)
    }
}

proof fn lemma_find_entry_push(
    es: Seq<(int, (Seq<char>, Option<Seq<char>>))>,
    e: (int, (Seq<char>, Option<Seq<char>>)),
    idx: int,
)
    ensures
        find_entry(es, idx) is Some ==> find_entry(es.push(e), idx) == find_entry(es, idx),
        find_entry(es, idx) is None && e.0 == idx ==> find_entry(es.push(e), idx) == Option::Some(
            e.1,
        ),
        find_entry(es, idx) is None && e.0 != idx ==> find_entry(es.push(e), idx) is None,
    decreases es.len(),
{
    if es.len() == 0 {
        assert(es.push(e)[0] == e);
        if e.0 != idx {
            assert(es.push(e).drop_first() =~= Seq::<
                (int, (Seq<char>, Option<Seq<char>>)),
            >::empty());
            assert(find_entry(es.push(e).drop_first(), idx) is None);
        }
    } else {
        assert(es.push(e)[0] == es[0]);
        assert(es.push(e).drop_first() =~= es.drop_first().push(e));
        lemma_find_entry_push(es.drop_first(), e, idx);
        if es[0].0 == idx {
            assert(find_entry(es.push(e), idx) == Option::Some(es[0].1));
            assert(find_entry(es, idx) == Option::Some(es[0].1));
        } else {
            assert(find_entry(es.push(e), idx) == find_entry(es.drop_first().push(e), idx));
            assert(find_entry(es, idx) == find_entry(es.drop_first(), idx));
        }
    }
}

proof fn lemma_find_entry_update_other(
    es: Seq<(int, (Seq<char>, Option<Seq<char>>))>,
    j: int,
    e: (int, (Seq<char>, Option<Seq<char>>)),
    idx: int,
)
    requires
        0 <= j < es.len(),
        es[j].0 == e.0,
        idx != es[j].0,
    ensures
        find_entry(es.update(j, e), idx) == find_entry(es, idx),
    decreases j,
{
    if j == 0 {
        assert(es.update(0, e).drop_first() =~= es.drop_first());
    } else {
        assert(es.update(j, e).drop_first() =~= es.drop_first().update(j - 1, e));
        lemma_find_entry_update_other(es.drop_first(), j - 1, e, idx);
    }
}

proof fn lemma_find_entry_remove(
    es: Seq<(int, (Seq<char>, Option<Seq<char>>))>,
    j: int,
    idx: int,
)
    requires
        0 <= j < es.len(),
        idx != es[j].0,
    ensures
        find_entry(es.remove(j), idx) == find_entry(es, idx),
    decreases j,
{
    if j == 0 {
        assert(es.remove(0) =~= es.drop_first());
    } else {
        assert(es.remove(j).drop_first() =~= es.drop_first().remove(j - 1));
        lemma_find_entry_remove(es.drop_first(), j - 1, idx);
    }
}

/// Builds a store from persisted `(row, entry)` pairs; a later pair for the
/// same row wins.
pub fn load_flags(pairs: &Vec<(usize, FlagEntry)>) -> (r: FlagStore)
    ensures
        store_wf(r),
        forall|idx: int|
            #[trigger] store_lookup(r, idx) == find_entry_last(entries_view(pairs@), idx),
{
    let n = pairs.len();
    let mut s = FlagStore::new();
    let mut i: usize = 0;
    while i < n
        invariant
            n == pairs@.len(),
            0 <= i <= n,
            store_wf(s),
            forall|idx: int|
                #[trigger] store_lookup(s, idx) == find_entry_last(
                    entries_view(pairs@).subrange(0, i as int),
                    idx,
                ),
        decreases n - i,
    {
        let row = pairs[i].0;
        let entry = clone_entry(&pairs[i].1);
        s.upsert_flag(row, entry);
        proof {
            let pv = entries_view(pairs@);
            assert(pv.subrange(0, i + 1).drop_last() =~= pv.subrange(0, i as int));
            assert(pv.subrange(0, i + 1).last() == pv[i as int]);
        }
        i += 1;
    }
    proof {
        assert(entries_view(pairs@).subrange(0, n as int) =~= entries_view(pairs@));
    }
    s
}

/// Hands the stored pairs back for persistence.
pub fn save_flags(s: &FlagStore) -> (r: Vec<(usize, FlagEntry)>)
    ensures
        entries_view(r@) == entries_view(s.entries@),
{
    let n = s.entries.len();
    let mut out: Vec<(usize, FlagEntry)> = Vec::new();
    let mut i: usize = 0;
    while i < n
        invariant
            n == s.entries@.len(),
            0 <= i <= n,
            entries_view(out@) == entries_view(s.entries@).subrange(0, i as int),
        decreases n - i,
    {
        let ghost before = entries_view(out@);
        out.push((s.entries[i].0, clone_entry(&s.entries[i].1)));
        proof {
            assert(entries_view(out@) =~= before.push((
                s.entries@[i as int].0 as int,
                entry_view(s.entries@[i as int].1),
            )));
            assert(entries_view(out@) =~= entries_view(s.entries@).subrange(0, i + 1));
        }
        i += 1;
    }
    proof {
        assert(entries_view(s.entries@).subrange(0, n as int) =~= entries_view(s.entries@));
    }
    out
}

/// The big-endian byte encoding of a row position, the key layout under
/// which the persisted flag store orders its rows.
pub open spec fn row_key_bytes(n: u64) -> Seq<u8> {
    seq![
        ((n >> 56) & 0xff) as u8,
        ((n >> 48) & 0xff) as u8,
        ((n >> 40) & 0xff) as u8,
        ((n >> 32) & 0xff) as u8,
        ((n >> 24) & 0xff) as u8,
        ((n >> 16) & 0xff) as u8,
        ((n >> 8) & 0xff) as u8,
        (n & 0xff) as u8,
    ]
}

/// The row position an 8-byte big-endian key denotes.
pub open spec fn row_key_value(b: Seq<u8>) -> u64 {
    (((b[0] as u64) << 56) | ((b[1] as u64) << 48) | ((b[2] as u64) << 40) | ((b[3] as u64) << 32)
        | ((b[4] as u64) << 24) | ((b[5] as u64) << 16) | ((b[6] as u64) << 8) | (b[7] as u64)) as u64
}

/// Encodes a row position as its 8-byte big-endian store key.
pub fn encode_row_key(row_index: usize) -> (r: Vec<u8>)
    ensures
        r@ == row_key_bytes(row_index as u64),
        r@.len() == 8,
{
    let n = row_index as u64;
    let mut r: Vec<u8> = Vec::new();
    r.push(((n >> 56) & 0xff) as u8);
    r.push(((n >> 48) & 0xff) as u8);
    r.push(((n >> 40) & 0xff) as u8);
    r.push(((n >> 32) & 0xff) as u8);
    r.push(((n >> 24) & 0xff) as u8);
    r.push(((n >> 16) & 0xff) as u8);
    r.push(((n >> 8) & 0xff) as u8);
    r.push((n & 0xff) as u8);
    proof {
        assert(r@ =~= row_key_bytes(row_index as u64));
    }
    r
}

/// Decodes an 8-byte big-endian store key back into a row position; any
/// other key length is foreign and yields nothing.
pub fn decode_row_key(bytes: &Vec<u8>) -> (r: Option<usize>)
    ensures
        match r {
            Option::Some(v) => bytes@.len() == 8 && v == row_key_value(bytes@) as usize,
            Option::None => bytes@.len() != 8,
        },
{
    if bytes.len() != 8 {
        return Option::None;
    }
    let v: u64 = ((bytes[0] as u64) << 56) | ((bytes[1] as u64) << 48) | ((bytes[2] as u64) << 40)
        | ((bytes[3] as u64) << 32) | ((bytes[4] as u64) << 24) | ((bytes[5] as u64) << 16) | ((
    bytes[6] as u64) << 8) | (bytes[7] as u64);
    Option::Some(v as usize)
}

/// Decoding an encoded row key recovers the row position.
pub proof fn law_row_key_round_trip(n: u64)
    ensures
        row_key_value(row_key_bytes(n)) == n,
{
    let b = row_key_bytes(n);
    assert(b[0] == ((n >> 56) & 0xff) as u8);
    assert(b[1] == ((n >> 48) & 0xff) as u8);
    assert(b[2] == ((n >> 40) & 0xff) as u8);
    assert(b[3] == ((n >> 32) & 0xff) as u8);
    assert(b[4] == ((n >> 24) & 0xff) as u8);
    assert(b[5] == ((n >> 16) & 0xff) as u8);
    assert(b[6] == ((n >> 8) & 0xff) as u8);
    assert(b[7] == (n & 0xff) as u8);
    assert((((((n >> 56) & 0xff) as u8) as u64) << 56) | (((((n >> 48) & 0xff) as u8) as u64)
        << 48) | (((((n >> 40) & 0xff) as u8) as u64) << 40) | (((((n >> 32) & 0xff) as u8) as u64)
        << 32) | (((((n >> 24) & 0xff) as u8) as u64) << 24) | (((((n >> 16) & 0xff) as u8) as u64)
        << 16) | (((((n >> 8) & 0xff) as u8) as u64) << 8) | (((n & 0xff) as u8) as u64) == n)
        by (bit_vector);
}

/// Whether an update with this flag and memo clears the row's entry: both
/// trim to blank.
pub open spec fn clears_entry(flag: Seq<char>, memo: Option<Seq<char>>) -> bool {
    trim_seq(flag).len() == 0 && (match memo {
        Option::Some(m) => trim_seq(m).len() == 0,
        Option::None => true,
    })
}

/// Applies a user flag update to one row: removes the entry when both flag
/// and memo trim to blank, otherwise stores the normalised flag with the memo
/// as given.
pub fn update_flag(s: &mut FlagStore, row_index: usize, flag: &String, memo: &Option<String>)
    requires
        store_wf(*old(s)),
    ensures
        store_wf(*final(s)),
        clears_entry(flag@, opt_chars(*memo)) ==> store_lookup(*final(s), row_index as int)
            == Option::<(Seq<char>, Option<Seq<char>>)>::None,
        !clears_entry(flag@, opt_chars(*memo)) ==> store_lookup(*final(s), row_index as int)
            == Option::Some((flag_chars(parse_flag(flag@)), opt_chars(*memo))),
        forall|idx: int|
            idx != row_index as int ==> #[trigger] store_lookup(*final(s), idx) == store_lookup(
                *old(s),
                idx,
            ),
{
    let flag_cs = chars_of(flag.as_str());
    let flag_trimmed = trim_chars(&flag_cs);
    let memo_blank = match memo {
        Option::Some(m) => {
            let mc = chars_of(m.as_str());
            let mt = trim_chars(&mc);
            mt.len() == 0
        },
        Option::None => true,
    };
    if flag_trimmed.len() == 0 && memo_blank {
        s.remove_flag(row_index);
    } else {
        let k = flag_kind_of(flag.as_str());
        let entry = FlagEntry {
            flag: flag_text(k),
            memo: match memo {
                Option::Some(m) => Option::Some(m.clone()),
                Option::None => Option::None,
            },
        };
        s.upsert_flag(row_index, entry);
    }
}

} // verus!
