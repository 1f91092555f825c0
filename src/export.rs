use vstd::prelude::*;

use crate::date::push_timestamp;

use crate::entry::{all_valid, entries_view, strings_view, Entry, EntryView};
use crate::error::JournalError;
use crate::text::{chars_of, decimal, digit, push_chars, push_decimal, push_str, string_of};

verus! {

/// The formats that entries can be rendered in.
#[derive(Clone, Copy, Debug, PartialEq, Eq, Structural)]
pub enum Format {
    /// Markdown: a heading per entry, tags on a trailing line, media as a list.
    Markdown,
    /// Markdown with `#tag` tokens and `![[path]]` embeds.
    Obsidian,
    /// Plain text: a time line and the body.
    Text,
    /// JSON: every field of every entry.
    Json,
}

/// The format that a name stands for.
pub open spec fn format_named(s: Seq<char>) -> Option<Format> {
    if s == seq!['m', 'a', 'r', 'k', 'd', 'o', 'w', 'n'] {
        Some(Format::Markdown)
    } else if s == seq!['o', 'b', 's', 'i', 'd', 'i', 'a', 'n'] {
        Some(Format::Obsidian)
    } else if s == seq!['t', 'e', 'x', 't'] {
        Some(Format::Text)
    } else if s == seq!['j', 's', 'o', 'n'] {
        Some(Format::Json)
    } else {
        None
    }
}

/// The items, each with `pre` before it, and `sep` between two of them.
pub open spec fn joined(items: Seq<Seq<char>>, pre: Seq<char>, sep: Seq<char>) -> Seq<char>
    decreases items.len(),
{
    if items.len() == 0 {
        Seq::empty()
    } else if items.len() == 1 {
        pre + items[0]
    } else {
        joined(items.drop_last(), pre, sep) + sep + pre + items.last()
    }
}

/// The items, each between `pre` and `post`.
pub open spec fn wrapped(items: Seq<Seq<char>>, pre: Seq<char>, post: Seq<char>) -> Seq<char>
    decreases items.len(),
{
    if items.len() == 0 {
        Seq::empty()
    } else {
        wrapped(items.drop_last(), pre, post) + pre + items.last() + post
    }
}

/// A hexadecimal digit, in lower case.
pub open spec fn hex_digit(k: int) -> char {
    if k < 10 {
        digit(k)
    } else {
        ((87 + k) as u8) as char
    }
}

/// One character as it stands inside a JSON string.
pub open spec fn json_char(c: char) -> Seq<char> {
    if c == '"' {
        seq!['\\', '"']
    } else if c == '\\' {
        seq!['\\', '\\']
    } else if c == '\n' {
        seq!['\\', 'n']
    } else if c == '\r' {
        seq!['\\', 'r']
    } else if c == '\t' {
        seq!['\\', 't']
    } else if (c as u32) < 32 {
        seq!['\\', 'u', '0', '0', hex_digit((c as u32) as int / 16), hex_digit((c as u32) as int % 16)]
    } else {
        seq![c]
    }
}

/// The characters of `s` as they stand inside a JSON string.
pub open spec fn json_escaped(s: Seq<char>) -> Seq<char>
    decreases s.len(),
{
    if s.len() == 0 {
        Seq::empty()
    } else {
        json_escaped(s.drop_last()) + json_char(s.last())
    }
}

/// `s` as a JSON string.
pub open spec fn json_string(s: Seq<char>) -> Seq<char> {
    seq!['"'] + json_escaped(s) + seq!['"']
}

/// Each string as a JSON string.
pub open spec fn json_string_items(v: Seq<Seq<char>>) -> Seq<Seq<char>> {
    v.map_values(|s: Seq<char>| json_string(s))
}

/// The strings as a JSON array.
pub open spec fn json_strings(v: Seq<Seq<char>>) -> Seq<char> {
    seq!['['] + joined(json_string_items(v), seq![], seq![',']) + seq![']']
}

/// An entry as a JSON object with all its fields.
#[verifier::opaque]
pub open spec fn json_entry(e: EntryView) -> Seq<char> {
    "{\"id\":"@ + decimal(e.id as nat) + ",\"created_at\":"@ + json_string(e.created_at.text())
        + ",\"content\":"@ + json_string(e.content) + ",\"media\":"@ + json_strings(e.media) + ",\"tags\":"@
        + json_strings(e.tags) + "}"@
}

/// The tags of an entry: in Markdown on a trailing `Tags:` line, in
/// Obsidian's Markdown as `#tag` tokens; nothing when it has none.
pub open spec fn tag_block(e: EntryView, f: Format) -> Seq<char> {
    if e.tags.len() == 0 {
        Seq::empty()
    } else if f == Format::Markdown {
        "\nTags: "@ + joined(e.tags, ""@, ", "@) + "\n"@
    } else {
        "\n"@ + joined(e.tags, "#"@, " "@) + "\n"@
    }
}

/// The media of an entry: in Markdown as a list of paths, in Obsidian's
/// Markdown as `![[path]]` embeds; nothing when it has none.
pub open spec fn media_block(e: EntryView, f: Format) -> Seq<char> {
    if e.media.len() == 0 {
        Seq::empty()
    } else if f == Format::Markdown {
        "\n"@ + wrapped(e.media, "- "@, "\n"@)
    } else {
        "\n"@ + wrapped(e.media, "![["@, "]]\n"@)
    }
}

/// An entry in Markdown (or Obsidian's Markdown): a heading with its moment,
/// the body, then its tags and its media.
pub open spec fn markdown_entry(e: EntryView, f: Format) -> Seq<char> {
    "## "@ + e.created_at.text() + "\n\n"@ + e.content + "\n"@ + tag_block(e, f) + media_block(
        e,
        f,
    ) + "\n"@
}

/// An entry in plain text: its moment on a line, then the body.
pub open spec fn text_entry(e: EntryView) -> Seq<char> {
    e.created_at.text() + "\n"@ + e.content + "\n\n"@
}

/// An entry in one of the text formats.
pub open spec fn entry_section(e: EntryView, f: Format) -> Seq<char> {
    match f {
        Format::Markdown | Format::Obsidian => markdown_entry(e, f),
        _ => text_entry(e),
    }
}

/// The entries, one section after another, in one of the text formats.
pub open spec fn sections(s: Seq<EntryView>, f: Format) -> Seq<char>
    decreases s.len(),
{
    if s.len() == 0 {
        Seq::empty()
    } else {
        sections(s.drop_last(), f) + entry_section(s.last(), f)
    }
}

/// The entries as a JSON array of objects.
pub open spec fn json_entries(s: Seq<EntryView>) -> Seq<char> {
    seq!['['] + joined(json_entry_items(s), seq![], seq![',']) + seq![']']
}

/// Each entry as a JSON object.
pub open spec fn json_entry_items(s: Seq<EntryView>) -> Seq<Seq<char>> {
    s.map_values(|e: EntryView| json_entry(e))
}

/// The entries rendered in a format.
pub open spec fn rendered(s: Seq<EntryView>, f: Format) -> Seq<char> {
    match f {
        Format::Json => json_entries(s),
        _ => sections(s, f),
    }
}

/// Reads a format name: `markdown`, `obsidian`, `text` or `json`. Fails with
/// an unsupported format error on any other name.
pub fn parse_format(s: &str) -> (r: Result<Format, JournalError>)
    ensures
        r == (match format_named(s@) {
            Some(f) => Ok(f),
            None => Err(JournalError::UnsupportedFormat),
        }),
{
    let cs = chars_of(s);
    let ghost v = cs@;
    if cs.len() == 8 && cs[0] == 'm' && cs[1] == 'a' && cs[2] == 'r' && cs[3] == 'k' && cs[4]
        == 'd' && cs[5] == 'o' && cs[6] == 'w' && cs[7] == 'n' {
        assert(v =~= seq!['m', 'a', 'r', 'k', 'd', 'o', 'w', 'n']);
        return Ok(Format::Markdown);
    }
    assert(v != seq!['m', 'a', 'r', 'k', 'd', 'o', 'w', 'n']);
    if cs.len() == 8 && cs[0] == 'o' && cs[1] == 'b' && cs[2] == 's' && cs[3] == 'i' && cs[4]
        == 'd' && cs[5] == 'i' && cs[6] == 'a' && cs[7] == 'n' {
        assert(v =~= seq!['o', 'b', 's', 'i', 'd', 'i', 'a', 'n']);
        return Ok(Format::Obsidian);
    }
    assert(v != seq!['o', 'b', 's', 'i', 'd', 'i', 'a', 'n']);
    if cs.len() == 4 && cs[0] == 't' && cs[1] == 'e' && cs[2] == 'x' && cs[3] == 't' {
        assert(v =~= seq!['t', 'e', 'x', 't']);
        return Ok(Format::Text);
    }
    assert(v != seq!['t', 'e', 'x', 't']);
    if cs.len() == 4 && cs[0] == 'j' && cs[1] == 's' && cs[2] == 'o' && cs[3] == 'n' {
        assert(v =~= seq!['j', 's', 'o', 'n']);
        return Ok(Format::Json);
    }
    assert(v != seq!['j', 's', 'o', 'n']);
    Err(JournalError::UnsupportedFormat)
}

fn hex_char(k: u32) -> (c: char)
    requires
        k < 16,
    ensures
        c == hex_digit(k as int),
{
    if k < 10 {
        crate::text::digit_char(k as u8)
    } else {
        (87u8 + k as u8) as char
    }
}

fn push_json_char(out: &mut Vec<char>, c: char)
    ensures
        final(out)@ == old(out)@ + json_char(c),
{
    if c == '"' {
        out.push('\\');
        out.push('"');
    } else if c == '\\' {
        out.push('\\');
        out.push('\\');
    } else if c == '\n' {
        out.push('\\');
        out.push('n');
    } else if c == '\r' {
        out.push('\\');
        out.push('r');
    } else if c == '\t' {
        out.push('\\');
        out.push('t');
    } else if (c as u32) < 32 {
        out.push('\\');
        out.push('u');
        out.push('0');
        out.push('0');
        out.push(hex_char((c as u32) / 16));
        out.push(hex_char((c as u32) % 16));
    } else {
        out.push(c);
    }
    assert(final(out)@ =~= old(out)@ + json_char(c));
}

fn push_json_string(out: &mut Vec<char>, s: &str)
    ensures
        final(out)@ == old(out)@ + json_string(s@),
{
    let cs = chars_of(s);
    out.push('"');
    let ghost start = out@;
    let mut i: usize = 0;
    while i < cs.len()
        invariant
            i <= cs@.len(),
            out@ == start + json_escaped(cs@.take(i as int)),
        decreases cs@.len() - i,
    {
        push_json_char(out, cs[i]);
        i = i + 1;
        assert(cs@.take(i as int).drop_last() =~= cs@.take(i - 1));
        assert(out@ =~= start + json_escaped(cs@.take(i as int)));
    }
    assert(cs@.take(cs@.len() as int) =~= s@);
    out.push('"');
    assert(final(out)@ =~= old(out)@ + json_string(s@));
}

fn push_json_strings(out: &mut Vec<char>, v: &Vec<String>)
    ensures
        final(out)@ == old(out)@ + json_strings(strings_view(v@)),
{
    let ghost items = json_string_items(strings_view(v@));
    out.push('[');
    let ghost start = out@;
    let mut i: usize = 0;
    while i < v.len()
        invariant
            i <= v@.len(),
            items == json_string_items(strings_view(v@)),
            out@ == start + joined(items.take(i as int), seq![], seq![',']),
        decreases v@.len() - i,
    {
        if i > 0 {
            out.push(',');
        }
        push_json_string(out, v[i].as_str());
        i = i + 1;
        assert(items.take(i as int).drop_last() =~= items.take(i - 1));
        assert(items.take(i as int).last() == json_string(v@[i - 1]@));
        assert(out@ =~= start + joined(items.take(i as int), seq![], seq![',']));
    }
    assert(items.take(v@.len() as int) =~= items);
    out.push(']');
    assert(final(out)@ =~= old(out)@ + json_strings(strings_view(v@)));
}

fn push_joined(out: &mut Vec<char>, v: &Vec<String>, pre: &str, sep: &str)
    ensures
        final(out)@ == old(out)@ + joined(strings_view(v@), pre@, sep@),
{
    let ghost items = strings_view(v@);
    let ghost start = out@;
    let mut i: usize = 0;
    while i < v.len()
        invariant
            i <= v@.len(),
            items == strings_view(v@),
            out@ == start + joined(items.take(i as int), pre@, sep@),
        decreases v@.len() - i,
    {
        if i > 0 {
            push_str(out, sep);
        }
        push_str(out, pre);
        push_str(out, v[i].as_str());
        i = i + 1;
        assert(items.take(i as int).drop_last() =~= items.take(i - 1));
        assert(out@ =~= start + joined(items.take(i as int), pre@, sep@));
    }
    assert(items.take(v@.len() as int) =~= items);
}

fn push_wrapped(out: &mut Vec<char>, v: &Vec<String>, pre: &str, post: &str)
    ensures
        final(out)@ == old(out)@ + wrapped(strings_view(v@), pre@, post@),
{
    let ghost items = strings_view(v@);
    let ghost start = out@;
    let mut i: usize = 0;
    while i < v.len()
        invariant
            i <= v@.len(),
            items == strings_view(v@),
            out@ == start + wrapped(items.take(i as int), pre@, post@),
        decreases v@.len() - i,
    {
        push_str(out, pre);
        push_str(out, v[i].as_str());
        push_str(out, post);
        i = i + 1;
        assert(items.take(i as int).drop_last() =~= items.take(i - 1));
        assert(out@ =~= start + wrapped(items.take(i as int), pre@, post@));
    }
    assert(items.take(v@.len() as int) =~= items);
}

pub(crate) fn push_json_entry(out: &mut Vec<char>, e: &Entry)
    requires
        e.created_at.valid(),
    ensures
        final(out)@ == old(out)@ + json_entry(e@),
{
    push_str(out, "{\"id\":");
    push_decimal(out, e.id);
    push_str(out, ",\"created_at\":");
    let stamp = e.created_at.to_text();
    push_json_string(out, stamp.as_str());
    push_str(out, ",\"content\":");
    push_json_string(out, e.content.as_str());
    push_str(out, ",\"media\":");
    push_json_strings(out, &e.media);
    push_str(out, ",\"tags\":");
    push_json_strings(out, &e.tags);
    push_str(out, "}");
    reveal(json_entry);
    assert(final(out)@ =~= old(out)@ + json_entry(e@));
}

fn push_tag_block(out: &mut Vec<char>, e: &Entry, f: Format)
    ensures
        final(out)@ == old(out)@ + tag_block(e@, f),
{
    if e.tags.len() > 0 {
        if f == Format::Markdown {
            push_str(out, "\nTags: ");
            push_joined(out, &e.tags, "", ", ");
        } else {
            push_str(out, "\n");
            push_joined(out, &e.tags, "#", " ");
        }
        push_str(out, "\n");
    }
    assert(final(out)@ =~= old(out)@ + tag_block(e@, f));
}

fn push_media_block(out: &mut Vec<char>, e: &Entry, f: Format)
    ensures
        final(out)@ == old(out)@ + media_block(e@, f),
{
    if e.media.len() > 0 {
        push_str(out, "\n");
        if f == Format::Markdown {
            push_wrapped(out, &e.media, "- ", "\n");
        } else {
            push_wrapped(out, &e.media, "![[", "]]\n");
        }
    }
    assert(final(out)@ =~= old(out)@ + media_block(e@, f));
}

fn push_heading_section(out: &mut Vec<char>, e: &Entry, f: Format)
    requires
        e.created_at.valid(),
    ensures
        final(out)@ == old(out)@ + markdown_entry(e@, f),
{
    let ghost head = "## "@ + e.created_at.text() + "\n\n"@ + e@.content + "\n"@;
    push_str(out, "## ");
    push_timestamp(out, &e.created_at);
    push_str(out, "\n\n");
    push_str(out, e.content.as_str());
    push_str(out, "\n");
    assert(out@ =~= old(out)@ + head);
    let ghost mid = out@;
    push_tag_block(out, e, f);
    push_media_block(out, e, f);
    push_str(out, "\n");
    assert(out@ =~= mid + (tag_block(e@, f) + media_block(e@, f) + "\n"@));
    assert(final(out)@ =~= old(out)@ + markdown_entry(e@, f));
}

fn push_text_section(out: &mut Vec<char>, e: &Entry)
    requires
        e.created_at.valid(),
    ensures
        final(out)@ == old(out)@ + text_entry(e@),
{
    push_timestamp(out, &e.created_at);
    push_str(out, "\n");
    push_str(out, e.content.as_str());
    push_str(out, "\n\n");
    assert(final(out)@ =~= old(out)@ + text_entry(e@));
}

fn push_section(out: &mut Vec<char>, e: &Entry, f: Format)
    requires
        e.created_at.valid(),
    ensures
        final(out)@ == old(out)@ + entry_section(e@, f),
{
    if f == Format::Markdown || f == Format::Obsidian {
        push_heading_section(out, e, f);
    } else {
        push_text_section(out, e);
    }
}

fn push_json_entries(out: &mut Vec<char>, entries: &Vec<Entry>)
    requires
        all_valid(entries_view(entries@)),
    ensures
        final(out)@ == old(out)@ + json_entries(entries_view(entries@)),
{
    let ghost s = entries_view(entries@);
    let ghost items = json_entry_items(s);
    let ghost start = out@;
    out.push('[');
    let ghost open = out@;
    let mut i: usize = 0;
    while i < entries.len()
        invariant
            i <= entries@.len(),
            s == entries_view(entries@),
            all_valid(s),
            items == json_entry_items(s),
            out@ == open + joined(items.take(i as int), seq![], seq![',']),
        decreases entries@.len() - i,
    {
        assert(s[i as int] == entries@[i as int]@);
        if i > 0 {
            out.push(',');
        }
        push_json_entry(out, &entries[i]);
        i = i + 1;
        assert(items.take(i as int).drop_last() =~= items.take(i - 1));
        assert(out@ =~= open + joined(items.take(i as int), seq![], seq![',']));
    }
    assert(items.take(s.len() as int) =~= items);
    out.push(']');
    assert(out@ =~= start + json_entries(s));
}

fn push_sections(out: &mut Vec<char>, entries: &Vec<Entry>, f: Format)
    requires
        all_valid(entries_view(entries@)),
    ensures
        final(out)@ == old(out)@ + sections(entries_view(entries@), f),
{
    let ghost s = entries_view(entries@);
    let ghost start = out@;
    let mut i: usize = 0;
    while i < entries.len()
        invariant
            i <= entries@.len(),
            s == entries_view(entries@),
            all_valid(s),
            out@ == start + sections(s.take(i as int), f),
        decreases entries@.len() - i,
    {
        assert(s[i as int] == entries@[i as int]@);
        push_section(out, &entries[i], f);
        i = i + 1;
        assert(s.take(i as int).drop_last() =~= s.take(i - 1));
        assert(out@ =~= start + sections(s.take(i as int), f));
    }
    assert(s.take(s.len() as int) =~= s);
}

/// Appends the entries rendered in format `f` to `out`.
pub(crate) fn push_rendered(out: &mut Vec<char>, entries: &Vec<Entry>, f: Format)
    requires
        all_valid(entries_view(entries@)),
    ensures
        final(out)@ == old(out)@ + rendered(entries_view(entries@), f),
{
    if f == Format::Json {
        push_json_entries(out, entries);
    } else {
        push_sections(out, entries, f);
    }
}

/// Renders entries in a format. The text formats give one section per entry,
/// in the given order; JSON gives an array of objects with every field.
pub fn render(entries: &Vec<Entry>, f: Format) -> (r: String)
    requires
        all_valid(entries_view(entries@)),
    ensures
        r@ == rendered(entries_view(entries@), f),
{
    let mut out: Vec<char> = Vec::new();
    push_rendered(&mut out, entries, f);
    assert(out@ =~= rendered(entries_view(entries@), f));
    string_of(&out)
}

} // verus!
