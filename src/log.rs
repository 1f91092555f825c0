use vstd::prelude::*;

use crate::entry::{all_valid, entries_view, Entry, EntryView};
use crate::error::JournalError;
use crate::date::is_digit;
use crate::export::{
    hex_digit, json_char, json_entry, json_escaped, json_string, json_string_items, json_strings,
    joined, push_json_entry,
};
use crate::parse::{all_digits, lemma_decimal, lemma_digit_char, parse_entry};
use crate::text::decimal;
use crate::text::{chars_of, string_of};

verus! {

/// The log text of entries: one JSON object per line, in order.
pub open spec fn log_text(s: Seq<EntryView>) -> Seq<char>
    decreases s.len(),
{
    if s.len() == 0 {
        Seq::empty()
    } else {
        log_text(s.drop_last()) + json_entry(s.last()) + seq!['\n']
    }
}

/// The part of a log text up to and including its last line break: what was
/// written completely. A last line without its line break is a torn write.
pub open spec fn complete_part(s: Seq<char>) -> Seq<char>
    decreases s.len(),
{
    if s.len() == 0 {
        Seq::empty()
    } else if s.last() == '\n' {
        s
    } else {
        complete_part(s.drop_last())
    }
}

/// No character is a line break.
pub open spec fn no_line_break(s: Seq<char>) -> bool {
    forall|i: int| 0 <= i < s.len() ==> s[i] != '\n'
}

proof fn lemma_no_break_concat(a: Seq<char>, b: Seq<char>)
    requires
        no_line_break(a),
        no_line_break(b),
    ensures
        no_line_break(a + b),
{
    assert forall|i: int| 0 <= i < (a + b).len() implies (a + b)[i] != '\n' by {
        if i < a.len() {
            assert((a + b)[i] == a[i]);
        } else {
            assert((a + b)[i] == b[i - a.len()]);
        }
    }
}

proof fn lemma_hex_no_break(k: int)
    requires
        0 <= k < 16,
    ensures
        hex_digit(k) != '\n',
{
    if k < 10 {
        lemma_digit_char(k);
    } else {
        assert((((87 + k) as u8) as char) as u32 == 87 + k);
    }
}

proof fn lemma_escaped_no_break(s: Seq<char>)
    ensures
        no_line_break(json_escaped(s)),
    decreases s.len(),
{
    if s.len() > 0 {
        lemma_escaped_no_break(s.drop_last());
        let c = s.last();
        let v = (c as u32) as int;
        if (c as u32) < 32 {
            lemma_hex_no_break(v / 16);
            lemma_hex_no_break(v % 16);
        }
        assert(no_line_break(json_char(c)));
        lemma_no_break_concat(json_escaped(s.drop_last()), json_char(c));
    }
}

proof fn lemma_string_no_break(x: Seq<char>)
    ensures
        no_line_break(json_string(x)),
{
    lemma_escaped_no_break(x);
    lemma_no_break_concat(seq!['"'], json_escaped(x));
    lemma_no_break_concat(seq!['"'] + json_escaped(x), seq!['"']);
}

proof fn lemma_joined_no_break(items: Seq<Seq<char>>)
    requires
        forall|i: int| 0 <= i < items.len() ==> no_line_break(#[trigger] items[i]),
    ensures
        no_line_break(joined(items, seq![], seq![','])),
    decreases items.len(),
{
    if items.len() == 1 {
        assert(Seq::<char>::empty() + items[0] =~= items[0]);
    } else if items.len() > 1 {
        lemma_joined_no_break(items.drop_last());
        let front = joined(items.drop_last(), seq![], seq![',']);
        lemma_no_break_concat(front, seq![',']);
        lemma_no_break_concat(front + seq![','], Seq::<char>::empty());
        assert(front + seq![','] + Seq::<char>::empty() =~= front + seq![',']);
        lemma_no_break_concat(front + seq![','] + Seq::<char>::empty(), items.last());
    }
}

proof fn lemma_strings_no_break(v: Seq<Seq<char>>)
    ensures
        no_line_break(json_strings(v)),
{
    let items = json_string_items(v);
    assert forall|i: int| 0 <= i < items.len() implies no_line_break(#[trigger] items[i]) by {
        lemma_string_no_break(v[i]);
    }
    lemma_joined_no_break(items);
    let j = joined(items, seq![], seq![',']);
    lemma_no_break_concat(seq!['['], j);
    lemma_no_break_concat(seq!['['] + j, seq![']']);
}

/// An entry's JSON object holds no line break, so it fills one line of the log.
pub proof fn lemma_entry_no_break(e: EntryView)
    ensures
        no_line_break(json_entry(e)),
{
    reveal(json_entry);
    reveal_strlit("{\"id\":");
    reveal_strlit(",\"created_at\":");
    reveal_strlit(",\"content\":");
    reveal_strlit(",\"media\":");
    reveal_strlit(",\"tags\":");
    reveal_strlit("}");
    lemma_decimal(e.id as nat);
    let d = decimal(e.id as nat);
    assert(no_line_break(d)) by {
        assert forall|i: int| 0 <= i < d.len() implies d[i] != '\n' by {
            assert(is_digit(d[i]));
        }
    }
    let s1 = "{\"id\":"@;
    let s2 = ",\"created_at\":"@;
    let s3 = ",\"content\":"@;
    let s4 = ",\"media\":"@;
    let s5 = ",\"tags\":"@;
    let s6 = "}"@;
    assert(no_line_break(s1) && no_line_break(s2) && no_line_break(s3) && no_line_break(s4)
        && no_line_break(s5) && no_line_break(s6));
    lemma_string_no_break(e.created_at.text());
    lemma_string_no_break(e.content);
    lemma_strings_no_break(e.media);
    lemma_strings_no_break(e.tags);
    let upto1 = s1 + d;
    lemma_no_break_concat(s1, d);
    let upto2 = upto1 + s2;
    lemma_no_break_concat(upto1, s2);
    let upto3 = upto2 + json_string(e.created_at.text());
    lemma_no_break_concat(upto2, json_string(e.created_at.text()));
    let upto4 = upto3 + s3;
    lemma_no_break_concat(upto3, s3);
    let upto5 = upto4 + json_string(e.content);
    lemma_no_break_concat(upto4, json_string(e.content));
    let upto6 = upto5 + s4;
    lemma_no_break_concat(upto5, s4);
    let upto7 = upto6 + json_strings(e.media);
    lemma_no_break_concat(upto6, json_strings(e.media));
    let upto8 = upto7 + s5;
    lemma_no_break_concat(upto7, s5);
    let upto9 = upto8 + json_strings(e.tags);
    lemma_no_break_concat(upto8, json_strings(e.tags));
    lemma_no_break_concat(upto9, s6);
    assert(json_entry(e) =~= upto9 + s6);
}

/// The line that appends one entry to the log.
pub fn encode_record(e: &Entry) -> (r: String)
    requires
        e.created_at.valid(),
    ensures
        r@ == json_entry(e@) + seq!['\n'],
{
    let mut out: Vec<char> = Vec::new();
    push_json_entry(&mut out, e);
    out.push('\n');
    string_of(&out)
}

proof fn lemma_log_step(es: Seq<EntryView>, k: int)
    requires
        0 <= k < es.len(),
    ensures
        log_text(es.take(k + 1)) == log_text(es.take(k)) + json_entry(es[k]) + seq!['\n'],
{
    assert(es.take(k + 1).drop_last() =~= es.take(k));
}

proof fn lemma_log_prefix(es: Seq<EntryView>, k: int, m: int)
    requires
        0 <= k <= m <= es.len(),
    ensures
        log_text(es.take(k)).len() <= log_text(es.take(m)).len(),
        log_text(es.take(m)).subrange(0, log_text(es.take(k)).len() as int) == log_text(es.take(k)),
    decreases m - k,
{
    let a = log_text(es.take(k));
    if k == m {
        assert(a.subrange(0, a.len() as int) =~= a);
    } else {
        lemma_log_prefix(es, k, m - 1);
        lemma_log_step(es, m - 1);
        let b = log_text(es.take(m - 1));
        let c = log_text(es.take(m));
        assert(c.subrange(0, a.len() as int) =~= b.subrange(0, a.len() as int));
    }
}

proof fn lemma_complete_prefix(s: Seq<char>, j: int)
    requires
        0 <= j <= s.len(),
        j == 0 || s[j - 1] == '\n',
    ensures
        j <= complete_part(s).len() <= s.len(),
        complete_part(s).subrange(0, j) == s.take(j),
    decreases s.len(),
{
    if s.len() == j {
        if j > 0 {
            assert(s.take(j) =~= s);
            assert(s.subrange(0, j) =~= s);
        } else {
            assert(complete_part(s).subrange(0, 0) =~= s.take(0));
        }
    } else if s.last() == '\n' {
        assert(s.subrange(0, j) =~= s.take(j));
    } else {
        if j > 0 {
            assert(s.drop_last()[j - 1] == s[j - 1]);
        }
        lemma_complete_prefix(s.drop_last(), j);
        assert(s.drop_last().take(j) =~= s.take(j));
    }
}

/// The line read at a line break is the next entry's object: both it and the
/// object hold no line break, and the log holds each where the other stands.
proof fn lemma_next_line(es: Seq<EntryView>, k: int, whole: Seq<char>, line: Seq<char>)
    requires
        0 <= k,
        k <= es.len(),
        no_line_break(line),
        log_text(es) == complete_part(whole),
        (log_text(es.take(k)) + line + seq!['\n']).len() <= whole.len(),
        whole.take((log_text(es.take(k)) + line + seq!['\n']).len() as int) == log_text(es.take(k))
            + line + seq!['\n'],
    ensures
        k < es.len(),
        line == json_entry(es[k]),
{
    let l = log_text(es.take(k));
    let t = l + line + seq!['\n'];
    let n = t.len() as int;
    assert(whole[n - 1] == '\n') by {
        assert(whole.take(n)[n - 1] == t[n - 1]);
    }
    lemma_complete_prefix(whole, n);
    let w = complete_part(whole);
    assert(es.take(es.len() as int) =~= es);
    if k == es.len() {
        assert(w == l);
        assert(false);
    }
    lemma_log_step(es, k);
    lemma_log_prefix(es, k + 1, es.len() as int);
    let j = json_entry(es[k]);
    lemma_entry_no_break(es[k]);
    let u = l + j + seq!['\n'];
    assert(w.subrange(0, u.len() as int) == u);
    assert(w.subrange(0, n) == t);
    if line.len() < j.len() {
        assert(w[(l.len() + line.len()) as int] == t[(l.len() + line.len()) as int]);
        assert(w[(l.len() + line.len()) as int] == u[(l.len() + line.len()) as int]);
        assert(false);
    } else if line.len() > j.len() {
        assert(w[(l.len() + j.len()) as int] == t[(l.len() + j.len()) as int]);
        assert(w[(l.len() + j.len()) as int] == u[(l.len() + j.len()) as int]);
        assert(false);
    }
    assert forall|i: int| 0 <= i < line.len() implies line[i] == j[i] by {
        assert(w[l.len() + i] == t[l.len() + i]);
        assert(w[l.len() + i] == u[l.len() + i]);
    }
    assert(line =~= j);
}

/// Reads the entries back from a log text. A last line without its line
/// break, left by a write that was cut short, is ignored; the entries read
/// are exactly those whose lines make up the rest. Fails with a storage error
/// when a complete line is not an entry.
pub fn decode_log(text: &str) -> (r: Result<Vec<Entry>, JournalError>)
    ensures
        r matches Ok(v) ==> all_valid(entries_view(v@)) && log_text(entries_view(v@))
            == complete_part(text@),
        r matches Err(x) ==> x == JournalError::Storage,
        forall|es: Seq<EntryView>|
            all_valid(es) && #[trigger] log_text(es) == complete_part(text@) ==> (r matches Ok(v)
                && entries_view(v@) == es),
{
    let cs = chars_of(text);
    let mut v: Vec<Entry> = Vec::new();
    let mut line: Vec<char> = Vec::new();
    let mut i: usize = 0;
    while i < cs.len()
        invariant
            i <= cs@.len(),
            cs@ == text@,
            all_valid(entries_view(v@)),
            log_text(entries_view(v@)) == complete_part(cs@.take(i as int)),
            cs@.take(i as int) == complete_part(cs@.take(i as int)) + line@,
            no_line_break(line@),
            forall|es: Seq<EntryView>|
                all_valid(es) && #[trigger] log_text(es) == complete_part(text@) ==> (v@.len()
                    <= es.len() && entries_view(v@) == es.take(v@.len() as int)),
        decreases cs@.len() - i,
    {
        let c = cs[i];
        assert(cs@.take(i + 1).drop_last() =~= cs@.take(i as int));
        if c == '\n' {
            let ghost k = v@.len() as int;
            proof {
                assert forall|es: Seq<EntryView>| all_valid(es) && #[trigger] log_text(es)
                    == complete_part(text@) implies k < es.len() && line@ == json_entry(es[k]) by {
                    let t = log_text(es.take(k)) + line@ + seq!['\n'];
                    assert(entries_view(v@) == es.take(k));
                    assert(cs@.take(i + 1) =~= cs@.take(i as int).push('\n'));
                    assert(t =~= cs@.take(i + 1));
                    lemma_next_line(es, k, cs@, line@);
                }
            }
            let s = string_of(&line);
            match parse_entry(s.as_str()) {
                Some(e) => {
                    let ghost before = v@;
                    v.push(e);
                    assert(entries_view(v@).drop_last() =~= entries_view(before));
                    assert(all_valid(entries_view(v@))) by {
                        assert forall|j: int| 0 <= j < v@.len() implies (#[trigger] entries_view(
                            v@,
                        )[j]).created_at.valid() by {
                            if j < before.len() {
                                assert(entries_view(v@)[j] == entries_view(before)[j]);
                            }
                        }
                    }
                    assert(log_text(entries_view(v@)) =~= cs@.take(i + 1));
                    proof {
                        assert forall|es: Seq<EntryView>| all_valid(es) && #[trigger] log_text(es)
                            == complete_part(text@) implies (v@.len() <= es.len() && entries_view(
                            v@,
                        ) == es.take(v@.len() as int)) by {
                            assert(entries_view(before) == es.take(k));
                            assert(entries_view(v@) =~= es.take(k + 1));
                        }
                    }
                },
                None => {
                    proof {
                        assert forall|es: Seq<EntryView>| all_valid(es) && #[trigger] log_text(es)
                            == complete_part(text@) implies false by {
                            assert(k < es.len() && line@ == json_entry(es[k]));
                        }
                    }
                    return Err(JournalError::Storage);
                },
            }
            line = Vec::new();
            assert(cs@.take(i + 1) =~= complete_part(cs@.take(i + 1)) + line@);
        } else {
            let ghost before_line = line@;
            line.push(c);
            assert(cs@.take(i + 1) =~= complete_part(cs@.take(i + 1)) + line@);
            assert(no_line_break(line@)) by {
                assert forall|j: int| 0 <= j < line@.len() implies line@[j] != '\n' by {
                    if j < before_line.len() {
                        assert(line@[j] == before_line[j]);
                    }
                }
            }
        }
        i = i + 1;
    }
    assert(cs@.take(cs@.len() as int) =~= text@);
    proof {
        assert forall|es: Seq<EntryView>| all_valid(es) && #[trigger] log_text(es) == complete_part(
            text@,
        ) implies entries_view(v@) == es by {
            let k = v@.len() as int;
            if k < es.len() {
                lemma_log_step(es, k);
                lemma_log_prefix(es, k + 1, es.len() as int);
                assert(es.take(es.len() as int) =~= es);
                assert(false);
            }
            assert(es.take(k) =~= es);
        }
    }
    Ok(v)
}

/// A write cut short leaves the log as it was: when the log ends with a
/// complete line (or is empty) and what was added holds no line break, what
/// was written completely is the log itself.
pub proof fn lemma_torn_write_ignored(log: Seq<char>, partial: Seq<char>)
    requires
        log.len() == 0 || log.last() == '\n',
        forall|i: int| 0 <= i < partial.len() ==> partial[i] != '\n',
    ensures
        complete_part(log + partial) == log,
    decreases partial.len(),
{
    if partial.len() == 0 {
        assert(log + partial =~= log);
    } else {
        assert((log + partial).drop_last() =~= log + partial.drop_last());
        lemma_torn_write_ignored(log, partial.drop_last());
    }
}

/// Appending an entry's line to a log adds exactly that entry to what is read
/// back.
pub proof fn lemma_append_record(s: Seq<EntryView>, e: EntryView)
    ensures
        log_text(s) + (json_entry(e) + seq!['\n']) == log_text(s.push(e)),
{
    assert(s.push(e).drop_last() =~= s);
    assert(log_text(s) + (json_entry(e) + seq!['\n']) =~= log_text(s.push(e)));
}

/// A record whose write was cut short leaves the log readable as it was:
/// a log of entries followed by any part of one more record short of its
/// line break has, as its completely written part, the log itself.
pub proof fn lemma_torn_record_ignored(s: Seq<EntryView>, e: EntryView, n: int)
    requires
        0 <= n <= json_entry(e).len(),
    ensures
        complete_part(log_text(s) + (json_entry(e) + seq!['\n']).take(n)) == log_text(s),
{
    lemma_entry_no_break(e);
    let partial = (json_entry(e) + seq!['\n']).take(n);
    assert forall|i: int| 0 <= i < partial.len() implies partial[i] != '\n' by {
        assert(partial[i] == json_entry(e)[i]);
    }
    if s.len() > 0 {
        assert(log_text(s).last() == '\n');
    }
    lemma_torn_write_ignored(log_text(s), partial);
}

/// The number of characters of `text` that were written completely: those up
/// to and including its last line break.
pub fn complete_length(text: &str) -> (r: usize)
    ensures
        r == complete_part(text@).len(),
        r <= text@.len(),
{
    let cs = chars_of(text);
    let mut i: usize = cs.len();
    assert(cs@.take(i as int) =~= cs@);
    while i > 0 && cs[i - 1] != '\n'
        invariant
            i <= cs@.len(),
            cs@ == text@,
            complete_part(cs@.take(i as int)) == complete_part(text@),
        decreases i,
    {
        assert(cs@.take(i as int).drop_last() =~= cs@.take(i - 1));
        i = i - 1;
    }
    if i == 0 {
        assert(cs@.take(0) =~= Seq::<char>::empty());
    } else {
        assert(cs@.take(i as int).last() == '\n');
    }
    i
}

/// How many times an append tries to take the journal's lock.
pub const LOCK_ATTEMPTS: u32 = 1000;

/// How long, in milliseconds, an append waits between two tries.
pub const LOCK_WAIT_MILLIS: u64 = 10;

/// Whether an append that has tried `attempts` times to take the lock tries
/// again; after `LOCK_ATTEMPTS` tries it gives up.
pub fn lock_try_again(attempts: u32) -> (r: bool)
    ensures
        r == (attempts < LOCK_ATTEMPTS),
{
    attempts < LOCK_ATTEMPTS
}

} // verus!
