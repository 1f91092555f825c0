use vstd::prelude::*;

use crate::date::Timestamp;
use crate::error::JournalError;
use crate::text::{chars_of, lowercase_of, lowercased, trim_of, trimmed};
use vstd::string::StrSliceExecFns;

verus! {

/// One journal record, as it is stored: never changed after it was made.
#[derive(Clone, Debug, PartialEq, Eq)]
pub struct Entry {
    pub id: u64,
    pub created_at: Timestamp,
    pub content: String,
    pub media: Vec<String>,
    pub tags: Vec<String>,
}

/// What an entry holds, with its strings as character sequences.
pub struct EntryView {
    pub id: u64,
    pub created_at: Timestamp,
    pub content: Seq<char>,
    pub media: Seq<Seq<char>>,
    pub tags: Seq<Seq<char>>,
}

/// The characters of each string, in order.
pub open spec fn strings_view(v: Seq<String>) -> Seq<Seq<char>> {
    v.map_values(|s: String| s@)
}

impl View for Entry {
    type V = EntryView;

    open spec fn view(&self) -> EntryView {
        EntryView {
            id: self.id,
            created_at: self.created_at,
            content: self.content@,
            media: strings_view(self.media@),
            tags: strings_view(self.tags@),
        }
    }
}

/// The views of a sequence of entries.
pub open spec fn entries_view(v: Seq<Entry>) -> Seq<EntryView> {
    v.map_values(|e: Entry| e@)
}

/// Content that holds nothing but white space.
pub open spec fn is_blank(content: Seq<char>) -> bool {
    trim_of(content).len() == 0
}

/// A character that would break a path or one of the export formats.
pub open spec fn is_forbidden_tag_char(c: char) -> bool {
    c == ' ' || c == '\t' || c == '\n' || c == '\r' || c == ',' || c == '#' || c == '/' || c
        == '\\' || c == '[' || c == ']' || c == '"'
}

/// A tag that can be stored: not empty, and free of forbidden characters.
pub open spec fn is_storable_tag(t: Seq<char>) -> bool {
    t.len() > 0 && forall|i: int| 0 <= i < t.len() ==> !is_forbidden_tag_char(#[trigger] t[i])
}

/// A tag as given, trimmed and in lower case.
pub open spec fn normal_tag(t: Seq<char>) -> Seq<char> {
    lowercase_of(trim_of(t))
}

/// The normalized tag list: each tag trimmed and lowered, later duplicates
/// dropped, first occurrences in their order; nothing when a normalized tag
/// cannot be stored.
pub open spec fn normalize_tags_spec(tags: Seq<Seq<char>>) -> Option<Seq<Seq<char>>>
    decreases tags.len(),
{
    if tags.len() == 0 {
        Some(Seq::empty())
    } else {
        match normalize_tags_spec(tags.drop_last()) {
            None => None,
            Some(prev) => {
                let t = normal_tag(tags.last());
                if !is_storable_tag(t) {
                    None
                } else if prev.contains(t) {
                    Some(prev)
                } else {
                    Some(prev.push(t))
                }
            },
        }
    }
}

/// A copy of each string.
pub fn copy_strings(v: &Vec<String>) -> (r: Vec<String>)
    ensures
        strings_view(r@) == strings_view(v@),
{
    let mut r: Vec<String> = Vec::new();
    let mut i: usize = 0;
    while i < v.len()
        invariant
            i <= v@.len(),
            r@.len() == i,
            forall|j: int| 0 <= j < i ==> r@[j]@ == v@[j]@,
        decreases v@.len() - i,
    {
        r.push(v[i].clone());
        i = i + 1;
    }
    assert(strings_view(r@) =~= strings_view(v@));
    r
}

fn contains_string(v: &Vec<String>, s: &String) -> (r: bool)
    ensures
        r == strings_view(v@).contains(s@),
{
    let mut i: usize = 0;
    while i < v.len()
        invariant
            i <= v@.len(),
            forall|j: int| 0 <= j < i ==> v@[j]@ != s@,
        decreases v@.len() - i,
    {
        if v[i] == *s {
            assert(strings_view(v@)[i as int] == s@);
            return true;
        }
        i = i + 1;
    }
    assert(!strings_view(v@).contains(s@)) by {
        if strings_view(v@).contains(s@) {
            let j = choose|j: int| 0 <= j < strings_view(v@).len() && strings_view(v@)[j] == s@;
            assert(v@[j]@ == s@);
        }
    }
    false
}

/// Whether `t` is a tag that can be stored.
pub fn is_storable(t: &str) -> (r: bool)
    ensures
        r == is_storable_tag(t@),
{
    let cs = chars_of(t);
    if cs.len() == 0 {
        return false;
    }
    let mut i: usize = 0;
    while i < cs.len()
        invariant
            i <= cs@.len(),
            cs@ == t@,
            forall|j: int| 0 <= j < i ==> !is_forbidden_tag_char(#[trigger] cs@[j]),
        decreases cs@.len() - i,
    {
        let c = cs[i];
        if c == ' ' || c == '\t' || c == '\n' || c == '\r' || c == ',' || c == '#' || c == '/'
            || c == '\\' || c == '[' || c == ']' || c == '"' {
            assert(is_forbidden_tag_char(t@[i as int]));
            return false;
        }
        i = i + 1;
    }
    true
}

proof fn lemma_normalize_fails_on(tags: Seq<Seq<char>>, k: int)
    requires
        0 <= k <= tags.len(),
        normalize_tags_spec(tags.take(k)) is None,
    ensures
        normalize_tags_spec(tags) is None,
    decreases tags.len() - k,
{
    if k < tags.len() {
        assert(tags.take(k + 1).drop_last() =~= tags.take(k));
        lemma_normalize_fails_on(tags, k + 1);
    } else {
        assert(tags.take(k) =~= tags);
    }
}

/// Normalizes a tag list: trims and lowers each tag and drops duplicates,
/// keeping the first occurrence of each in its place. Fails with a validation
/// error when a normalized tag is empty or holds a forbidden character.
pub fn normalize_tags(tags: &Vec<String>) -> (r: Result<Vec<String>, JournalError>)
    ensures
        r matches Ok(v) ==> normalize_tags_spec(strings_view(tags@)) == Some(strings_view(v@)),
        r matches Err(e) ==> e == JournalError::Validation && normalize_tags_spec(
            strings_view(tags@),
        ) is None,
{
    let mut out: Vec<String> = Vec::new();
    let mut i: usize = 0;
    while i < tags.len()
        invariant
            i <= tags@.len(),
            normalize_tags_spec(strings_view(tags@.take(i as int))) == Some(strings_view(out@)),
        decreases tags@.len() - i,
    {
        let t = lowercased(trimmed(tags[i].as_str()));
        assert(t@ == normal_tag(tags@[i as int]@));
        let ghost prefix = strings_view(tags@.take(i + 1));
        assert(prefix.drop_last() =~= strings_view(tags@.take(i as int)));
        assert(prefix.last() == tags@[i as int]@);
        if !is_storable(t.as_str()) {
            assert(normalize_tags_spec(prefix) is None);
            assert(normalize_tags_spec(strings_view(tags@)) is None) by {
                assert(strings_view(tags@).take(i + 1) =~= prefix);
                lemma_normalize_fails_on(strings_view(tags@), i + 1);
            }
            return Err(JournalError::Validation);
        }
        let ghost before = out@;
        if !contains_string(&out, &t) {
            out.push(t);
            assert(strings_view(out@) =~= strings_view(before).push(t@));
        }
        i = i + 1;
    }
    assert(tags@.take(tags@.len() as int) =~= tags@);
    Ok(out)
}

/// Whether content and tags given for a new entry are accepted.
pub open spec fn accepted(content: Seq<char>, tags: Seq<Seq<char>>) -> bool {
    !is_blank(content) && normalize_tags_spec(tags) is Some
}

/// The entry made from accepted content, media and tags.
pub open spec fn made_entry(
    id: u64,
    created_at: Timestamp,
    content: Seq<char>,
    media: Seq<Seq<char>>,
    tags: Seq<Seq<char>>,
) -> EntryView {
    EntryView { id, created_at, content, media, tags: normalize_tags_spec(tags)->0 }
}

/// Whether `a` comes before `b` in time; entries made at the same moment are
/// ordered by id.
pub open spec fn precedes(a: EntryView, b: EntryView) -> bool {
    a.created_at.instant() < b.created_at.instant() || (a.created_at.instant()
        == b.created_at.instant() && a.id < b.id)
}

/// Every entry's moment is valid.
pub open spec fn all_valid(s: Seq<EntryView>) -> bool {
    forall|i: int| 0 <= i < s.len() ==> (#[trigger] s[i]).created_at.valid()
}

/// Entries in strictly ascending order of time, then id.
pub open spec fn is_sorted(s: Seq<EntryView>) -> bool {
    forall|i: int, j: int| 0 <= i < j < s.len() ==> precedes(#[trigger] s[i], #[trigger] s[j])
}

impl Entry {
    /// Makes an entry from its content, media and tags, with the given id and
    /// time. Fails with a validation error when the content is blank or a tag
    /// cannot be stored; the tags are normalized.
    pub fn create(
        id: u64,
        created_at: Timestamp,
        content: String,
        media: Vec<String>,
        tags: &Vec<String>,
    ) -> (r: Result<Entry, JournalError>)
        ensures
            match r {
                Ok(e) => accepted(content@, strings_view(tags@)) && e@ == made_entry(
                    id,
                    created_at,
                    content@,
                    strings_view(media@),
                    strings_view(tags@),
                ),
                Err(x) => x == JournalError::Validation && !accepted(
                    content@,
                    strings_view(tags@),
                ),
            },
    {
        let t = trimmed(content.as_str());
        if t.unicode_len() == 0 {
            return Err(JournalError::Validation);
        }
        match normalize_tags(tags) {
            Ok(norm) => Ok(Entry { id, created_at, content, media, tags: norm }),
            Err(x) => Err(x),
        }
    }

    /// A copy of the entry.
    pub fn duplicate(&self) -> (r: Entry)
        ensures
            r@ == self@,
    {
        Entry {
            id: self.id,
            created_at: self.created_at,
            content: self.content.clone(),
            media: copy_strings(&self.media),
            tags: copy_strings(&self.tags),
        }
    }

    /// Whether this entry comes before `other` in time, then by id.
    pub fn precedes(&self, other: &Entry) -> (r: bool)
        requires
            self.created_at.valid(),
            other.created_at.valid(),
        ensures
            r == precedes(self@, other@),
    {
        let a = self.created_at.seconds();
        let b = other.created_at.seconds();
        a < b || (a == b && self.id < other.id)
    }
}

} // verus!
