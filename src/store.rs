use vstd::prelude::*;

use crate::date::{Date, Timestamp};
use crate::entry::{
    accepted, all_valid, entries_view, is_sorted, made_entry, normalize_tags_spec, precedes, strings_view,
    Entry, EntryView,
};
use crate::error::JournalError;

verus! {

/// A question put to the store: which entries to return.
#[derive(Clone, Copy, Debug, PartialEq, Eq, Structural)]
pub enum Query {
    /// Entries whose local date is this day.
    OnDate(Date),
    /// Entries whose local date lies in this inclusive range.
    Between(Date, Date),
    /// Entries whose moment, in seconds, lies in this inclusive range.
    Window(i64, i64),
}

/// Whether an entry answers a query.
pub open spec fn answers(q: Query, e: EntryView) -> bool {
    match q {
        Query::OnDate(d) => e.created_at.date == d,
        Query::Between(from, to) => from.rank() <= e.created_at.date.rank() <= to.rank(),
        Query::Window(lo, hi) => lo <= e.created_at.instant() <= hi,
    }
}

/// The entries of `s` that answer `q`, in their order.
pub open spec fn select(s: Seq<EntryView>, q: Query) -> Seq<EntryView>
    decreases s.len(),
{
    if s.len() == 0 {
        Seq::empty()
    } else if answers(q, s.last()) {
        select(s.drop_last(), q).push(s.last())
    } else {
        select(s.drop_last(), q)
    }
}

/// The `n` last entries of `s`, the last one first.
pub open spec fn recent(s: Seq<EntryView>, n: nat) -> Seq<EntryView> {
    let k = if n < s.len() {
        n as int
    } else {
        s.len() as int
    };
    Seq::new(k as nat, |i: int| s[s.len() - 1 - i])
}

/// `new` is `old` with `e` inserted at some place.
pub open spec fn is_insertion(new: Seq<EntryView>, old: Seq<EntryView>, e: EntryView) -> bool {
    exists|p: int| 0 <= p <= old.len() && new == #[trigger] old.insert(p, e)
}

/// Entries read back from a log that a store can be rebuilt from: every id
/// occurs once, and none is the largest id.
pub open spec fn rebuildable(s: Seq<EntryView>) -> bool {
    ids_unique(s) && forall|i: int| 0 <= i < s.len() ==> #[trigger] s[i].id < u64::MAX
}

/// Every id occurs at most once.
pub open spec fn ids_unique(s: Seq<EntryView>) -> bool {
    forall|i: int, j: int| 0 <= i < s.len() && 0 <= j < s.len() && i != j ==> #[trigger] s[i].id
        != #[trigger] s[j].id
}

/// The append-only journal log, held in order of time (then id), so that each
/// query visits the log once and in order.
pub struct Store {
    entries: Vec<Entry>,
    next_id: u64,
}

impl View for Store {
    type V = Seq<EntryView>;

    closed spec fn view(&self) -> Seq<EntryView> {
        entries_view(self.entries@)
    }
}

impl Store {
    /// The store's invariant: entries sorted by time then id, ids unique and
    /// below the next id to be given, every moment valid.
    pub closed spec fn wf(self) -> bool {
        &&& is_sorted(self@)
        &&& ids_unique(self@)
        &&& forall|i: int| 0 <= i < self@.len() ==> #[trigger] self@[i].id < self.next_id
        &&& forall|i: int| 0 <= i < self@.len() ==> (#[trigger] self@[i]).created_at.valid()
    }

    /// Whether an id is left for another entry.
    pub closed spec fn ids_left(self) -> bool {
        self.next_id < u64::MAX
    }

    /// What the invariant says of the entries.
    pub proof fn lemma_wf(&self)
        requires
            self.wf(),
        ensures
            is_sorted(self@),
            ids_unique(self@),
            forall|i: int| 0 <= i < self@.len() ==> (#[trigger] self@[i]).created_at.valid(),
    {
    }

    /// An empty journal.
    pub fn new() -> (r: Store)
        ensures
            r.wf(),
            r@ == Seq::<EntryView>::empty(),
            r.ids_left(),
    {
        let r = Store { entries: Vec::new(), next_id: 0 };
        assert(r@ =~= Seq::<EntryView>::empty());
        r
    }

    /// The number of entries.
    pub fn len(&self) -> (r: usize)
        ensures
            r == self@.len(),
    {
        self.entries.len()
    }

    /// Adds an entry made now from content, media and tags, and returns its
    /// id, which is above every id given before. Fails with a validation error
    /// when the content is blank or a tag cannot be stored, and with a storage
    /// error when no id is left; on failure the log is unchanged.
    pub fn add(&mut self, content: String, media: Vec<String>, tags: &Vec<String>, now: Timestamp) -> (r:
        Result<u64, JournalError>)
        requires
            old(self).wf(),
            now.valid(),
        ensures
            final(self).wf(),
            (r == Err::<u64, JournalError>(JournalError::Validation)) == !accepted(
                content@,
                strings_view(tags@),
            ),
            (r == Err::<u64, JournalError>(JournalError::Storage)) == (accepted(
                content@,
                strings_view(tags@),
            ) && !old(self).ids_left()),
            r is Ok <==> (accepted(content@, strings_view(tags@)) && old(self).ids_left()),
            r is Err ==> final(self)@ == old(self)@,
            r matches Ok(id) ==> {
                &&& forall|i: int| 0 <= i < old(self)@.len() ==> #[trigger] old(self)@[i].id < id
                &&& is_insertion(
                    final(self)@,
                    old(self)@,
                    made_entry(id, now, content@, strings_view(media@), strings_view(tags@)),
                )
            },
    {
        let id = self.next_id;
        let e = match Entry::create(id, now, content, media, tags) {
            Ok(e) => e,
            Err(x) => {
                return Err(x);
            },
        };
        if self.next_id == u64::MAX {
            return Err(JournalError::Storage);
        }
        let ghost s = self@;
        assert(forall|i: int| 0 <= i < s.len() ==> #[trigger] s[i].id < id);
        self.insert_sorted(e);
        Ok(id)
    }

    /// Puts `e` in its place in time, then id.
    fn insert_sorted(&mut self, e: Entry)
        requires
            old(self).wf(),
            e.created_at.valid(),
            e.id < u64::MAX,
            forall|i: int| 0 <= i < old(self)@.len() ==> #[trigger] old(self)@[i].id != e.id,
        ensures
            final(self).wf(),
            is_insertion(final(self)@, old(self)@, e@),
            final(self).next_id == if e.id < old(self).next_id {
                old(self).next_id
            } else {
                (e.id + 1) as u64
            },
    {
        let ghost s = self@;
        let mut p: usize = self.entries.len();
        while p > 0
            invariant
                self.wf(),
                self@ == s,
                p <= s.len(),
                e.created_at.valid(),
                forall|j: int| p <= j < s.len() ==> precedes(e@, #[trigger] s[j]),
            ensures
                p == 0 || !precedes(e@, s[p - 1]),
                forall|j: int| p <= j < s.len() ==> precedes(e@, #[trigger] s[j]),
            decreases p,
        {
            assert(s[p - 1] == self.entries@[p - 1]@);
            if !e.precedes(&self.entries[p - 1]) {
                break;
            }
            p = p - 1;
        }
        assert(forall|j: int| 0 <= j < p ==> precedes(#[trigger] s[j], e@)) by {
            if p > 0 {
                assert(s[p - 1].id != e@.id);
                assert(precedes(s[p - 1], e@));
                assert forall|j: int| 0 <= j < p implies precedes(#[trigger] s[j], e@) by {
                    if j < p - 1 {
                        assert(precedes(s[j], s[p - 1]));
                    }
                }
            }
        }
        let ghost ev = e@;
        if e.id >= self.next_id {
            self.next_id = e.id + 1;
        }
        self.entries.insert(p, e);
        assert(self@ =~= s.insert(p as int, ev));
        assert(is_sorted(self@)) by {
            assert forall|i: int, j: int| 0 <= i < j < self@.len() implies precedes(
                #[trigger] self@[i],
                #[trigger] self@[j],
            ) by {
                if j < p {
                } else if j == p {
                } else if i < p {
                    assert(self@[j] == s[j - 1]);
                } else if i == p {
                    assert(self@[j] == s[j - 1]);
                } else {
                    assert(self@[i] == s[i - 1]);
                    assert(self@[j] == s[j - 1]);
                }
            }
        }
        assert(ids_unique(self@)) by {
            assert forall|i: int, j: int|
                0 <= i < self@.len() && 0 <= j < self@.len() && i != j implies #[trigger] self@[i].id
                != #[trigger] self@[j].id by {
                if i != p && j != p {
                    let i0 = if i < p { i } else { i - 1 };
                    let j0 = if j < p { j } else { j - 1 };
                    assert(self@[i] == s[i0]);
                    assert(self@[j] == s[j0]);
                } else if i == p {
                    let j0 = if j < p { j } else { j - 1 };
                    assert(self@[j] == s[j0]);
                } else {
                    let i0 = if i < p { i } else { i - 1 };
                    assert(self@[i] == s[i0]);
                }
            }
        }
        assert(forall|i: int| 0 <= i < self@.len() ==> #[trigger] self@[i].id < self.next_id) by {
            assert forall|i: int| 0 <= i < self@.len() implies #[trigger] self@[i].id < self.next_id by {
                if i < p {
                    assert(self@[i] == s[i]);
                } else if i > p {
                    assert(self@[i] == s[i - 1]);
                }
            }
        }
        assert(forall|i: int| 0 <= i < self@.len() ==> (#[trigger] self@[i]).created_at.valid()) by {
            assert forall|i: int| 0 <= i < self@.len() implies (#[trigger] self@[i]).created_at.valid() by {
                if i < p {
                    assert(self@[i] == s[i]);
                } else if i > p {
                    assert(self@[i] == s[i - 1]);
                }
            }
        }
        assert(0 <= p <= s.len() && self@ == s.insert(p as int, ev));
        assert(is_insertion(self@, s, ev));
    }

    /// Rebuilds the store from entries read back from the log, in any order.
    /// Fails with a storage error when two entries share an id, or an id is
    /// the largest one.
    pub fn from_entries(entries: Vec<Entry>) -> (r: Result<Store, JournalError>)
        requires
            all_valid(entries_view(entries@)),
        ensures
            r is Ok <==> rebuildable(entries_view(entries@)),
            r matches Ok(st) ==> st.wf() && st@.to_multiset() == entries_view(
                entries@,
            ).to_multiset(),
            r matches Err(x) ==> x == JournalError::Storage,
    {
        let mut st = Store::new();
        let ghost src = entries_view(entries@);
        assert(st@ =~= src.take(0));
        let mut i: usize = 0;
        while i < entries.len()
            invariant
                st.wf(),
                i <= entries@.len(),
                src == entries_view(entries@),
                all_valid(src),
                st@.to_multiset() == src.take(i as int).to_multiset(),
                rebuildable(src.take(i as int)),
            decreases entries@.len() - i,
        {
            let e = entries[i].duplicate();
            assert(e@ == src[i as int]);
            if e.id == u64::MAX {
                assert(src[i as int].id == u64::MAX);
                return Err(JournalError::Storage);
            }
            if st.has_id(e.id) {
                proof {
                    let k = choose|k: int| 0 <= k < st@.len() && #[trigger] st@[k].id == e.id;
                    let x = st@[k];
                    assert(st@.contains(x));
                    vstd::seq_lib::to_multiset_contains(st@, x);
                    vstd::seq_lib::to_multiset_contains(src.take(i as int), x);
                    let j = choose|j: int| 0 <= j < src.take(i as int).len() && src.take(i as int)[j] == x;
                    assert(src[j].id == src[i as int].id);
                }
                return Err(JournalError::Storage);
            }
            proof {
                assert forall|j: int| 0 <= j < i implies src[j].id != src[i as int].id by {
                    let x = src[j];
                    assert(src.take(i as int)[j] == x);
                    assert(src.take(i as int).contains(x));
                    vstd::seq_lib::to_multiset_contains(src.take(i as int), x);
                    vstd::seq_lib::to_multiset_contains(st@, x);
                    let k = choose|k: int| 0 <= k < st@.len() && st@[k] == x;
                    assert(st@[k].id == x.id);
                }
                assert(rebuildable(src.take(i + 1))) by {
                    assert forall|a: int, b: int|
                        0 <= a < src.take(i + 1).len() && 0 <= b < src.take(i + 1).len() && a != b
                        implies #[trigger] src.take(i + 1)[a].id != #[trigger] src.take(i + 1)[b].id by {
                        if a < i && b < i {
                            assert(src.take(i as int)[a] == src[a]);
                            assert(src.take(i as int)[b] == src[b]);
                        }
                    }
                    assert forall|a: int| 0 <= a < src.take(i + 1).len() implies #[trigger] src.take(
                        i + 1,
                    )[a].id < u64::MAX by {
                        if a < i {
                            assert(src.take(i as int)[a] == src[a]);
                        }
                    }
                }
            }
            let ghost before = st@;
            st.insert_sorted(e);
            proof {
                let p = choose|p: int| 0 <= p <= before.len() && st@ == #[trigger] before.insert(p, src[i as int]);
                vstd::seq_lib::to_multiset_insert(before, p, src[i as int]);
                assert(src.take(i + 1) =~= src.take(i as int).push(src[i as int]));
                vstd::seq_lib::to_multiset_build(src.take(i as int), src[i as int]);
            }
            i = i + 1;
        }
        assert(src.take(src.len() as int) =~= src);
        Ok(st)
    }

    /// Whether an entry has this id.
    pub fn has_id(&self, id: u64) -> (r: bool)
        ensures
            r == exists|i: int| 0 <= i < self@.len() && #[trigger] self@[i].id == id,
    {
        let mut i: usize = 0;
        while i < self.entries.len()
            invariant
                i <= self@.len(),
                forall|j: int| 0 <= j < i ==> #[trigger] self@[j].id != id,
            decreases self@.len() - i,
        {
            assert(self@[i as int] == self.entries@[i as int]@);
            if self.entries[i].id == id {
                assert(self@[i as int].id == id);
                return true;
            }
            i = i + 1;
        }
        false
    }

    /// The entries that answer `q`, in the store's order.
    pub fn select(&self, q: Query) -> (r: Vec<Entry>)
        requires
            self.wf(),
        ensures
            entries_view(r@) == select(self@, q),
            all_valid(entries_view(r@)),
    {
        let mut r: Vec<Entry> = Vec::new();
        let mut i: usize = 0;
        while i < self.entries.len()
            invariant
                self.wf(),
                i <= self@.len(),
                entries_view(r@) == select(self@.take(i as int), q),
                all_valid(entries_view(r@)),
            decreases self@.len() - i,
        {
            let e = &self.entries[i];
            assert(self@[i as int] == e@);
            assert(self@.take(i + 1).drop_last() =~= self@.take(i as int));
            let ghost before = r@;
            let hit = match q {
                Query::OnDate(d) => e.created_at.date == d,
                Query::Between(from, to) => !from.is_after(&e.created_at.date) && !e.created_at.date.is_after(&to),
                Query::Window(lo, hi) => {
                    let t = e.created_at.seconds();
                    lo <= t && t <= hi
                },
            };
            if hit {
                r.push(e.duplicate());
                assert(entries_view(r@) =~= entries_view(before).push(e@));
                assert(all_valid(entries_view(r@))) by {
                    assert forall|j: int| 0 <= j < r@.len() implies (#[trigger] entries_view(
                        r@,
                    )[j]).created_at.valid() by {
                        if j < before.len() {
                            assert(entries_view(r@)[j] == entries_view(before)[j]);
                        }
                    }
                }
            }
            i = i + 1;
        }
        assert(self@.take(self@.len() as int) =~= self@);
        r
    }

    /// All entries whose local date is `date`, oldest first.
    pub fn list_by_date(&self, date: Date) -> (r: Vec<Entry>)
        requires
            self.wf(),
        ensures
            entries_view(r@) == select(self@, Query::OnDate(date)),
            all_valid(entries_view(r@)),
    {
        self.select(Query::OnDate(date))
    }

    /// All entries whose local date lies from `from` to `to`, both included,
    /// oldest first. Fails with an invalid range error when `from` lies after
    /// `to`.
    pub fn list_range(&self, from: Date, to: Date) -> (r: Result<Vec<Entry>, JournalError>)
        requires
            self.wf(),
        ensures
            from.rank() > to.rank() ==> r == Err::<Vec<Entry>, JournalError>(
                JournalError::InvalidRange,
            ),
            from.rank() <= to.rank() ==> (r matches Ok(v) && entries_view(v@) == select(
                self@,
                Query::Between(from, to),
            ) && all_valid(entries_view(v@))),
    {
        if from.is_after(&to) {
            Err(JournalError::InvalidRange)
        } else {
            Ok(self.select(Query::Between(from, to)))
        }
    }

    /// All entries made in the `days` times 24 hours up to `now`, `now`
    /// included, oldest first.
    pub fn list_since(&self, now: Timestamp, days: u32) -> (r: Vec<Entry>)
        requires
            self.wf(),
            now.valid(),
        ensures
            entries_view(r@) == select(
                self@,
                Query::Window(
                    (now.instant() - days * 86400) as i64,
                    now.instant() as i64,
                ),
            ),
            all_valid(entries_view(r@)),
    {
        let t = now.seconds();
        let lo = t - days as i64 * 86400;
        self.select(Query::Window(lo, t))
    }

    /// The `n` most recent entries, the most recent first; entries made at
    /// the same moment come by id, the highest first.
    pub fn list_recent(&self, n: usize) -> (r: Vec<Entry>)
        requires
            self.wf(),
        ensures
            entries_view(r@) == recent(self@, n as nat),
            forall|i: int, j: int|
                0 <= i < j < r@.len() ==> precedes(
                    #[trigger] entries_view(r@)[j],
                    #[trigger] entries_view(r@)[i],
                ),
            r@.len() <= n,
            r@.len() == if n < self@.len() {
                n as int
            } else {
                self@.len() as int
            },
    {
        proof {
            lemma_recent_descending(self@, n as nat);
        }
        let len = self.entries.len();
        let k: usize = if n < len {
            n
        } else {
            len
        };
        let mut r: Vec<Entry> = Vec::new();
        let mut i: usize = 0;
        while i < k
            invariant
                k <= len == self@.len(),
                k == recent(self@, n as nat).len(),
                i <= k,
                entries_view(r@) == recent(self@, n as nat).take(i as int),
            decreases k - i,
        {
            let e = &self.entries[len - 1 - i];
            assert(self@[len - 1 - i] == e@);
            let ghost before = r@;
            r.push(e.duplicate());
            assert(entries_view(r@) =~= entries_view(before).push(e@));
            i = i + 1;
            assert(recent(self@, n as nat).take(i as int) =~= recent(self@, n as nat).take(
                i - 1,
            ).push(e@));
        }
        assert(recent(self@, n as nat).take(k as int) =~= recent(self@, n as nat));
        assert(r@.len() == entries_view(r@).len());
        r
    }

    /// Every entry, oldest first.
    pub fn all(&self) -> (r: Vec<Entry>)
        ensures
            entries_view(r@) == self@,
    {
        let mut r: Vec<Entry> = Vec::new();
        let mut i: usize = 0;
        while i < self.entries.len()
            invariant
                i <= self@.len(),
                entries_view(r@) == self@.take(i as int),
            decreases self@.len() - i,
        {
            let ghost before = r@;
            r.push(self.entries[i].duplicate());
            assert(entries_view(r@) =~= entries_view(before).push(self@[i as int]));
            i = i + 1;
            assert(self@.take(i as int) =~= self@.take(i - 1).push(self@[i - 1]));
        }
        assert(self@.take(self@.len() as int) =~= self@);
        r
    }
}

/// An entry of `s` that answers `q` is among the entries that `select` returns.
pub proof fn lemma_select_keeps(s: Seq<EntryView>, q: Query, k: int)
    requires
        0 <= k < s.len(),
        answers(q, s[k]),
    ensures
        select(s, q).contains(s[k]),
    decreases s.len(),
{
    if k == s.len() - 1 {
        assert(select(s, q).last() == s[k]);
    } else {
        assert(s.drop_last()[k] == s[k]);
        lemma_select_keeps(s.drop_last(), q, k);
        let sub = select(s.drop_last(), q);
        let j = choose|j: int| 0 <= j < sub.len() && sub[j] == s[k];
        if answers(q, s.last()) {
            assert(select(s, q)[j] == s[k]);
        }
    }
}

/// An entry added to the store is listed on the date it was made, with the
/// same content and media, and its tags normalized.
pub proof fn lemma_added_entry_listed(
    before: Seq<EntryView>,
    after: Seq<EntryView>,
    id: u64,
    now: Timestamp,
    content: Seq<char>,
    media: Seq<Seq<char>>,
    tags: Seq<Seq<char>>,
)
    requires
        accepted(content, tags),
        is_insertion(after, before, made_entry(id, now, content, media, tags)),
    ensures
        select(after, Query::OnDate(now.date)).contains(made_entry(id, now, content, media, tags)),
        made_entry(id, now, content, media, tags).content == content,
        made_entry(id, now, content, media, tags).media == media,
        Some(made_entry(id, now, content, media, tags).tags) == normalize_tags_spec(tags),
{
    let e = made_entry(id, now, content, media, tags);
    let p = choose|p: int| 0 <= p <= before.len() && after == #[trigger] before.insert(p, e);
    assert(after[p] == e);
    lemma_select_keeps(after, Query::OnDate(now.date), p);
}

/// The most recent entries come in strictly descending order of time, then
/// id; there are `n` of them, or all entries when there are fewer.
pub proof fn lemma_recent_descending(s: Seq<EntryView>, n: nat)
    requires
        is_sorted(s),
    ensures
        forall|i: int, j: int|
            0 <= i < j < recent(s, n).len() ==> precedes(
                #[trigger] recent(s, n)[j],
                #[trigger] recent(s, n)[i],
            ),
        recent(s, n).len() <= n,
        recent(s, n).len() == if n < s.len() {
            n
        } else {
            s.len()
        },
{
    assert forall|i: int, j: int| 0 <= i < j < recent(s, n).len() implies precedes(
        #[trigger] recent(s, n)[j],
        #[trigger] recent(s, n)[i],
    ) by {
        assert(precedes(s[s.len() - 1 - j], s[s.len() - 1 - i]));
    }
}

} // verus!
