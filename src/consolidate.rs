use vstd::prelude::*;

use crate::date::{push_date, Date, Timestamp};
use crate::entry::{all_valid, entries_view, Entry, EntryView};
use crate::error::JournalError;
use crate::export::{push_rendered, render, rendered, Format};
use crate::store::{recent, select, Query, Store};
use crate::text::{push_str, string_of};

verus! {

/// All entries of one day, merged into one document, oldest first.
pub struct DailyDocument {
    pub date: Date,
    /// When the document was made; it is not part of the rendered text.
    pub generated_at: Timestamp,
    pub entries: Vec<Entry>,
}

/// The entries of day `date` in the log `s`, or nothing when there are none.
pub open spec fn day_entries(s: Seq<EntryView>, date: Date) -> Option<Seq<EntryView>> {
    let v = select(s, Query::OnDate(date));
    if v.len() == 0 {
        None
    } else {
        Some(v)
    }
}

/// A day's document in a format: a title with the date, then the entries.
pub open spec fn document_text(date: Date, s: Seq<EntryView>, f: Format) -> Seq<char> {
    match f {
        Format::Json => "{\"date\":\""@ + date.text() + "\",\"entries\":"@ + rendered(s, f)
            + "}"@,
        Format::Text => "Journal for "@ + date.text() + "\n\n"@ + rendered(s, f),
        _ => "# Journal for "@ + date.text() + "\n\n"@ + rendered(s, f),
    }
}

/// Merges the entries of day `date` into one document, ordered by time, then
/// id. Fails with an empty day error when the day has no entry. The store is
/// only read.
pub fn consolidate(store: &Store, date: Date, generated_at: Timestamp) -> (r: Result<
    DailyDocument,
    JournalError,
>)
    requires
        store.wf(),
    ensures
        match r {
            Ok(doc) => day_entries(store@, date) == Some(entries_view(doc.entries@)) && doc.date
                == date && doc.generated_at == generated_at && all_valid(entries_view(doc.entries@)),
            Err(x) => x == JournalError::EmptyDay && day_entries(store@, date) is None,
        },
{
    let entries = store.list_by_date(date);
    if entries.len() == 0 {
        Err(JournalError::EmptyDay)
    } else {
        Ok(DailyDocument { date, generated_at, entries })
    }
}

impl DailyDocument {
    /// The document in a format: a title with the date, then its entries.
    pub fn render(&self, f: Format) -> (r: String)
        requires
            self.date.valid(),
            all_valid(entries_view(self.entries@)),
        ensures
            r@ == document_text(self.date, entries_view(self.entries@), f),
    {
        let mut out: Vec<char> = Vec::new();
        if f == Format::Json {
            push_str(&mut out, "{\"date\":\"");
            push_date(&mut out, &self.date);
            push_str(&mut out, "\",\"entries\":");
            push_rendered(&mut out, &self.entries, f);
            push_str(&mut out, "}");
        } else {
            if f == Format::Text {
                push_str(&mut out, "Journal for ");
            } else {
                push_str(&mut out, "# Journal for ");
            }
            push_date(&mut out, &self.date);
            push_str(&mut out, "\n\n");
            push_rendered(&mut out, &self.entries, f);
        }
        assert(out@ =~= document_text(self.date, entries_view(self.entries@), f));
        string_of(&out)
    }
}

/// Consolidating a day twice over an unchanged log gives documents whose
/// renderings are the same, character for character, in every format.
pub proof fn lemma_consolidate_idempotent(
    s: Seq<EntryView>,
    date: Date,
    first: Seq<EntryView>,
    second: Seq<EntryView>,
    f: Format,
)
    requires
        day_entries(s, date) == Some(first),
        day_entries(s, date) == Some(second),
    ensures
        first == second,
        document_text(date, first, f) == document_text(date, second, f),
{
}

/// The entries that a listing shows: those of day `date` when it is given,
/// else the `recent` most recent ones, else those of the last `days` days up
/// to `now`, else those of the day of `now`.
pub open spec fn listing(
    s: Seq<EntryView>,
    date: Option<Date>,
    recent_count: Option<usize>,
    days: Option<u32>,
    now: Timestamp,
) -> Seq<EntryView> {
    match (date, recent_count, days) {
        (Some(d), _, _) => select(s, Query::OnDate(d)),
        (None, Some(n), _) => recent(s, n as nat),
        (None, None, Some(k)) => select(
            s,
            Query::Window((now.instant() - k * 86400) as i64, now.instant() as i64),
        ),
        (None, None, None) => select(s, Query::OnDate(now.date)),
    }
}

/// Lists entries: those of day `date` when it is given, else the `recent`
/// most recent ones (most recent first), else those of the last `days` days
/// up to `now`, else those of today.
pub fn list(
    store: &Store,
    date: Option<Date>,
    recent_count: Option<usize>,
    days: Option<u32>,
    now: Timestamp,
) -> (r: Vec<Entry>)
    requires
        store.wf(),
        now.valid(),
    ensures
        entries_view(r@) == listing(store@, date, recent_count, days, now),
        all_valid(entries_view(r@)),
{
    proof {
        store.lemma_wf();
    }
    match (date, recent_count, days) {
        (Some(d), _, _) => store.list_by_date(d),
        (None, Some(n), _) => {
            let r = store.list_recent(n);
            assert(all_valid(entries_view(r@))) by {
                assert forall|i: int| 0 <= i < entries_view(r@).len() implies (#[trigger] entries_view(
                    r@,
                )[i]).created_at.valid() by {
                    assert(entries_view(r@)[i] == store@[store@.len() - 1 - i]);
                }
            }
            r
        },
        (None, None, Some(k)) => store.list_since(now, k),
        (None, None, None) => store.list_by_date(now.date),
    }
}

/// The days an export runs from and to: a missing bound stands for the
/// first or the last day that a date can be.
pub open spec fn export_bounds(from: Option<Date>, to: Option<Date>) -> (Date, Date) {
    (
        match from {
            Some(d) => d,
            None => Date { year: 1, month: 1, day: 1 },
        },
        match to {
            Some(d) => d,
            None => Date { year: 9999, month: 12, day: 31 },
        },
    )
}

/// Renders the entries to export: the whole log when neither bound is given,
/// else the entries from `from` to `to`, both included, a missing bound
/// leaving that side open. Fails with an invalid range error when `from` lies
/// after `to`. The store is only read.
pub fn export(store: &Store, f: Format, from: Option<Date>, to: Option<Date>) -> (r: Result<
    String,
    JournalError,
>)
    requires
        store.wf(),
    ensures
        from is None && to is None ==> (r matches Ok(t) && t@ == rendered(store@, f)),
        !(from is None && to is None) ==> {
            let (lo, hi) = export_bounds(from, to);
            &&& lo.rank() > hi.rank() ==> r == Err::<String, JournalError>(
                JournalError::InvalidRange,
            )
            &&& lo.rank() <= hi.rank() ==> (r matches Ok(t) && t@ == rendered(
                select(store@, Query::Between(lo, hi)),
                f,
            ))
        },
{
    proof {
        store.lemma_wf();
    }
    if from.is_none() && to.is_none() {
        let all = store.all();
        return Ok(render(&all, f));
    }
    let lo = match from {
        Some(d) => d,
        None => Date { year: 1, month: 1, day: 1 },
    };
    let hi = match to {
        Some(d) => d,
        None => Date { year: 9999, month: 12, day: 31 },
    };
    match store.list_range(lo, hi) {
        Ok(v) => Ok(render(&v, f)),
        Err(x) => Err(x),
    }
}

} // verus!
