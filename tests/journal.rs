use microlog::consolidate::{consolidate, export, list};
use microlog::date::{parse_date, Date, Timestamp};
use microlog::entry::{normalize_tags, Entry};
use microlog::error::JournalError;
use microlog::export::{parse_format, render, Format};
use microlog::log::{complete_length, decode_log, encode_record, lock_try_again, LOCK_ATTEMPTS};
use microlog::man::{man_pages, man_step, ManAction, ManEvent, ManState};
use microlog::parse::{parse_entries, parse_entry};
use microlog::store::Store;

fn day(y: u16, m: u8, d: u8) -> Date {
    Date::new(y, m, d).unwrap()
}

fn at(y: u16, mo: u8, d: u8, h: u8, mi: u8, s: u8) -> Timestamp {
    Timestamp::new(day(y, mo, d), h, mi, s, 0).unwrap()
}

fn strings(v: &[&str]) -> Vec<String> {
    v.iter().map(|s| s.to_string()).collect()
}

fn sample_store() -> Store {
    let mut st = Store::new();
    st.add(
        "Great coffee meeting with Sarah".to_string(),
        vec![],
        &strings(&["work", "social"]),
        at(2024, 1, 15, 9, 0, 0),
    )
    .unwrap();
    st.add("Finished the report".to_string(), vec![], &strings(&["work"]), at(2024, 1, 15, 17, 30, 0))
        .unwrap();
    st
}

#[test]
fn consolidated_day_in_markdown() {
    let mut st = Store::new();
    // added out of time order: the document still comes in time order
    st.add("Finished the report".to_string(), vec![], &strings(&["work"]), at(2024, 1, 15, 17, 30, 0))
        .unwrap();
    st.add(
        "Great coffee meeting with Sarah".to_string(),
        vec![],
        &strings(&["work", "social"]),
        at(2024, 1, 15, 9, 0, 0),
    )
    .unwrap();
    let doc = consolidate(&st, day(2024, 1, 15), at(2024, 1, 16, 8, 0, 0)).unwrap();
    let text = doc.render(Format::Markdown);
    assert_eq!(
        text,
        "# Journal for 2024-01-15\n\n\
         ## 2024-01-15T09:00:00+00:00\n\nGreat coffee meeting with Sarah\n\nTags: work, social\n\n\
         ## 2024-01-15T17:30:00+00:00\n\nFinished the report\n\nTags: work\n\n"
    );
}

#[test]
fn inverted_range_is_refused() {
    let st = sample_store();
    let r = st.list_range(day(2024, 1, 10), day(2024, 1, 5));
    assert_eq!(r.unwrap_err(), JournalError::InvalidRange);
}

#[test]
fn range_is_inclusive() {
    let st = sample_store();
    assert_eq!(st.list_range(day(2024, 1, 15), day(2024, 1, 15)).unwrap().len(), 2);
    assert_eq!(st.list_range(day(2024, 1, 16), day(2024, 1, 20)).unwrap().len(), 0);
}

#[test]
fn empty_day_does_not_consolidate() {
    let st = sample_store();
    let r = consolidate(&st, day(2024, 1, 1), at(2024, 1, 2, 0, 0, 0));
    assert_eq!(r.err(), Some(JournalError::EmptyDay));
}

#[test]
fn added_entry_is_listed_on_its_date() {
    let mut st = Store::new();
    let id = st
        .add(
            "Beautiful sunset".to_string(),
            strings(&["sunset.jpg", "dir/b.png"]),
            &strings(&["  Personal ", "PERSONAL", "Fitness"]),
            at(2024, 3, 1, 19, 5, 7),
        )
        .unwrap();
    let listed = st.list_by_date(day(2024, 3, 1));
    assert_eq!(listed.len(), 1);
    assert_eq!(listed[0].id, id);
    assert_eq!(listed[0].content, "Beautiful sunset");
    assert_eq!(listed[0].media, strings(&["sunset.jpg", "dir/b.png"]));
    assert_eq!(listed[0].tags, strings(&["personal", "fitness"]));
    assert!(st.list_by_date(day(2024, 3, 2)).is_empty());
}

#[test]
fn consolidation_is_idempotent() {
    let st = sample_store();
    let a = consolidate(&st, day(2024, 1, 15), at(2024, 1, 16, 8, 0, 0)).unwrap();
    let b = consolidate(&st, day(2024, 1, 15), at(2024, 1, 17, 9, 0, 0)).unwrap();
    for f in [Format::Markdown, Format::Obsidian, Format::Text, Format::Json] {
        assert_eq!(a.render(f), b.render(f));
    }
    assert_eq!(st.len(), 2);
}

#[test]
fn json_round_trip() {
    let mut st = Store::new();
    st.add(
        "He said \"hi\"\\ then\nleft\ttab \u{1} caf\u{e9} \u{1F600}".to_string(),
        strings(&["a \"b\".jpg"]),
        &strings(&["x"]),
        Timestamp::new(day(2023, 12, 31), 23, 59, 59, -330).unwrap(),
    )
    .unwrap();
    st.add("second".to_string(), vec![], &vec![], at(2024, 2, 29, 0, 0, 0)).unwrap();
    let entries = st.all();
    let text = render(&entries, Format::Json);
    let back = parse_entries(&text).unwrap();
    assert_eq!(back, entries);
}

#[test]
fn json_exact_form() {
    let st = sample_store();
    let text = render(&st.list_recent(1), Format::Json);
    assert_eq!(
        text,
        "[{\"id\":1,\"created_at\":\"2024-01-15T17:30:00+00:00\",\"content\":\"Finished the report\",\"media\":[],\"tags\":[\"work\"]}]"
    );
    assert_eq!(render(&vec![], Format::Json), "[]");
    assert_eq!(parse_entries("[]").unwrap(), vec![]);
}

#[test]
fn json_escapes_control_characters() {
    let e = Entry {
        id: 7,
        created_at: at(2024, 1, 1, 0, 0, 0),
        content: "a\"b\\c\nd\u{1f}".to_string(),
        media: vec![],
        tags: vec![],
    };
    let line = encode_record(&e);
    assert_eq!(
        line,
        "{\"id\":7,\"created_at\":\"2024-01-01T00:00:00+00:00\",\"content\":\"a\\\"b\\\\c\\nd\\u001f\",\"media\":[],\"tags\":[]}\n"
    );
    assert_eq!(parse_entry(line.trim_end_matches('\n')), Some(e));
}

#[test]
fn malformed_json_is_refused() {
    assert_eq!(parse_entries("[{\"id\":1}]"), Err(JournalError::Storage));
    assert_eq!(parse_entries("nonsense"), Err(JournalError::Storage));
    assert_eq!(parse_entry("{\"id\":01,\"created_at\":\"2024-01-01T00:00:00+00:00\",\"content\":\"x\",\"media\":[],\"tags\":[]}"), None);
}

#[test]
fn recent_entries_descend() {
    let mut st = Store::new();
    let t = at(2024, 5, 5, 12, 0, 0);
    let a = st.add("one".to_string(), vec![], &vec![], t).unwrap();
    let b = st.add("two".to_string(), vec![], &vec![], t).unwrap();
    let c = st.add("three".to_string(), vec![], &vec![], at(2024, 5, 4, 12, 0, 0)).unwrap();
    let d = st.add("four".to_string(), vec![], &vec![], at(2024, 5, 6, 12, 0, 0)).unwrap();
    let r = st.list_recent(3);
    let ids: Vec<u64> = r.iter().map(|e| e.id).collect();
    assert_eq!(ids, vec![d, b, a]);
    let all: Vec<u64> = st.list_recent(10).iter().map(|e| e.id).collect();
    assert_eq!(all, vec![d, b, a, c]);
    assert!(st.list_recent(0).is_empty());
}

#[test]
fn since_window() {
    let st = sample_store();
    let now = at(2024, 1, 16, 10, 0, 0);
    assert_eq!(st.list_since(now, 1).len(), 1);
    assert_eq!(st.list_since(now, 2).len(), 2);
    assert_eq!(st.list_since(now, 0).len(), 0);
}

#[test]
fn torn_write_is_ignored() {
    let st = sample_store();
    let entries = st.all();
    let mut log = String::new();
    for e in &entries {
        log.push_str(&encode_record(e));
    }
    let extra = Entry {
        id: 9,
        created_at: at(2024, 1, 17, 0, 0, 0),
        content: "cut".to_string(),
        media: vec![],
        tags: vec![],
    };
    let record = encode_record(&extra);
    let torn = format!("{}{}", log, &record[..record.len() / 2]);
    assert_eq!(decode_log(&torn).unwrap(), entries);
    assert_eq!(decode_log(&log).unwrap(), entries);
    let full = format!("{}{}", log, record);
    assert_eq!(decode_log(&full).unwrap().len(), 3);
    assert_eq!(decode_log("garbage\n"), Err(JournalError::Storage));
}

#[test]
fn store_rebuilds_from_log() {
    let st = sample_store();
    let mut entries = st.all();
    entries.reverse();
    let back = Store::from_entries(entries.clone()).unwrap();
    assert_eq!(back.all(), st.all());
    let mut dup = st.all();
    dup.push(dup[0].clone());
    assert_eq!(Store::from_entries(dup).err(), Some(JournalError::Storage));
    let mut next = back;
    let id = next.add("later".to_string(), vec![], &vec![], at(2024, 1, 20, 0, 0, 0)).unwrap();
    assert_eq!(id, 2);
}

#[test]
fn blank_content_is_refused() {
    let mut st = Store::new();
    let r = st.add("   \n\t".to_string(), vec![], &vec![], at(2024, 1, 1, 0, 0, 0));
    assert_eq!(r, Err(JournalError::Validation));
    assert_eq!(st.len(), 0);
}

#[test]
fn tags_are_normalized() {
    assert_eq!(
        normalize_tags(&strings(&[" Work ", "work", "SOCIAL", "Ünï"])).unwrap(),
        strings(&["work", "social", "ünï"])
    );
    assert_eq!(normalize_tags(&strings(&["two words"])), Err(JournalError::Validation));
    assert_eq!(normalize_tags(&strings(&["a\nb"])), Err(JournalError::Validation));
    assert_eq!(normalize_tags(&strings(&["   "])), Err(JournalError::Validation));
    assert_eq!(normalize_tags(&strings(&["a/b"])), Err(JournalError::Validation));
    let mut st = Store::new();
    let r = st.add("ok".to_string(), vec![], &strings(&["#bad"]), at(2024, 1, 1, 0, 0, 0));
    assert_eq!(r, Err(JournalError::Validation));
}

#[test]
fn dates_are_parsed() {
    let today = day(2024, 3, 1);
    assert_eq!(parse_date("today", today), Ok(today));
    assert_eq!(parse_date("yesterday", today), Ok(day(2024, 2, 29)));
    assert_eq!(parse_date("yesterday", day(2023, 3, 1)), Ok(day(2023, 2, 28)));
    assert_eq!(parse_date("yesterday", day(2024, 1, 1)), Ok(day(2023, 12, 31)));
    assert_eq!(parse_date("yesterday", day(1, 1, 1)), Err(JournalError::InvalidDate));
    assert_eq!(parse_date("2024-01-15", today), Ok(day(2024, 1, 15)));
    assert_eq!(parse_date("2023-02-29", today), Err(JournalError::InvalidDate));
    assert_eq!(parse_date("2024-13-01", today), Err(JournalError::InvalidDate));
    assert_eq!(parse_date("2024-1-15", today), Err(JournalError::InvalidDate));
    assert_eq!(parse_date("Today", today), Err(JournalError::InvalidDate));
    assert_eq!(parse_date("", today), Err(JournalError::InvalidDate));
    assert!(Date::new(2000, 2, 29).is_some());
    assert!(Date::new(1900, 2, 29).is_none());
}

#[test]
fn formats_are_named() {
    assert_eq!(parse_format("markdown"), Ok(Format::Markdown));
    assert_eq!(parse_format("obsidian"), Ok(Format::Obsidian));
    assert_eq!(parse_format("text"), Ok(Format::Text));
    assert_eq!(parse_format("json"), Ok(Format::Json));
    assert_eq!(parse_format("pdf"), Err(JournalError::UnsupportedFormat));
    assert_eq!(parse_format("Markdown"), Err(JournalError::UnsupportedFormat));
}

#[test]
fn obsidian_and_text_forms() {
    let mut st = Store::new();
    st.add(
        "Beautiful sunset".to_string(),
        strings(&["sunset.jpg"]),
        &strings(&["nature", "evening"]),
        at(2024, 6, 1, 20, 15, 0),
    )
    .unwrap();
    let e = st.all();
    assert_eq!(
        render(&e, Format::Obsidian),
        "## 2024-06-01T20:15:00+00:00\n\nBeautiful sunset\n\n#nature #evening\n\n![[sunset.jpg]]\n\n"
    );
    assert_eq!(
        render(&e, Format::Markdown),
        "## 2024-06-01T20:15:00+00:00\n\nBeautiful sunset\n\nTags: nature, evening\n\n- sunset.jpg\n\n"
    );
    assert_eq!(render(&e, Format::Text), "2024-06-01T20:15:00+00:00\nBeautiful sunset\n\n");
    let doc = consolidate(&st, day(2024, 6, 1), at(2024, 6, 2, 0, 0, 0)).unwrap();
    assert_eq!(
        doc.render(Format::Text),
        "Journal for 2024-06-01\n\n2024-06-01T20:15:00+00:00\nBeautiful sunset\n\n"
    );
    assert!(doc.render(Format::Json).starts_with("{\"date\":\"2024-06-01\",\"entries\":[{\"id\":0,"));
}

#[test]
fn timestamps_from_unix_time() {
    let t = Timestamp::from_unix(0, 0).unwrap();
    assert_eq!(t.to_text(), "1970-01-01T00:00:00+00:00");
    let t = Timestamp::from_unix(1705309200, 0).unwrap();
    assert_eq!(t, at(2024, 1, 15, 9, 0, 0));
    let t = Timestamp::from_unix(1705309200, 60).unwrap();
    assert_eq!(t.to_text(), "2024-01-15T10:00:00+01:00");
    let t = Timestamp::from_unix(1709164800, -90).unwrap();
    assert_eq!(t.to_text(), "2024-02-28T22:30:00-01:30");
    assert_eq!(Timestamp::from_unix(-1, 0), None);
    assert_eq!(Timestamp::from_unix(0, -60), None);
    assert_eq!(Timestamp::from_unix(0, 1440), None);
    assert_eq!(
        at(2024, 1, 15, 9, 0, 0).seconds() - Timestamp::from_unix(0, 0).unwrap().seconds(),
        1705309200
    );
}

#[test]
fn dates_and_errors_as_text() {
    assert_eq!(day(7, 3, 9).to_text(), "0007-03-09");
    assert!(day(2024, 1, 15).is_after(&day(2023, 12, 31)));
    assert!(!day(2023, 12, 31).is_after(&day(2024, 1, 15)));
    assert_eq!(day(2024, 1, 1).days_since_origin() - day(2023, 1, 1).days_since_origin(), 365);
    assert_eq!(day(2024, 12, 31).days_since_origin() - day(2024, 1, 1).days_since_origin(), 365);
    assert!(!JournalError::EmptyDay.message().is_empty());
    assert!(Timestamp::new(day(2024, 1, 1), 24, 0, 0, 0).is_none());
}

#[test]
fn listing_picks_one_filter() {
    let st = sample_store();
    let now = at(2024, 1, 15, 18, 0, 0);
    let by_date = list(&st, Some(day(2024, 1, 15)), Some(1), None, now);
    assert_eq!(by_date.len(), 2);
    let recent = list(&st, None, Some(1), Some(10), now);
    assert_eq!(recent.len(), 1);
    assert_eq!(recent[0].content, "Finished the report");
    let window = list(&st, None, None, Some(0), at(2024, 1, 15, 9, 0, 0));
    assert_eq!(window.len(), 1);
    assert_eq!(window[0].content, "Great coffee meeting with Sarah");
    assert_eq!(list(&st, None, None, None, now).len(), 2);
    assert_eq!(list(&st, None, None, None, at(2024, 1, 16, 0, 0, 0)).len(), 0);
}

#[test]
fn export_by_range() {
    let mut st = sample_store();
    st.add("later".to_string(), vec![], &vec![], at(2024, 2, 1, 12, 0, 0)).unwrap();
    let all = export(&st, Format::Text, None, None).unwrap();
    assert_eq!(all, render(&st.all(), Format::Text));
    let jan = export(&st, Format::Text, None, Some(day(2024, 1, 31))).unwrap();
    assert_eq!(
        jan,
        "2024-01-15T09:00:00+00:00\nGreat coffee meeting with Sarah\n\n2024-01-15T17:30:00+00:00\nFinished the report\n\n"
    );
    let feb = export(&st, Format::Json, Some(day(2024, 2, 1)), None).unwrap();
    assert_eq!(parse_entries(&feb).unwrap().len(), 1);
    assert_eq!(
        export(&st, Format::Markdown, Some(day(2024, 1, 10)), Some(day(2024, 1, 5))),
        Err(JournalError::InvalidRange)
    );
}

#[test]
fn man_page_names() {
    assert_eq!(microlog::man::man_page_main(), "microlog.1");
    assert_eq!(microlog::man::man_page_file("add"), Some("microlog-add.1".to_string()));
    assert_eq!(microlog::man::man_page_file("list"), Some("microlog-list.1".to_string()));
    assert_eq!(microlog::man::man_page_file("help"), None);
    assert_eq!(microlog::man::man_page_file("helper"), Some("microlog-helper.1".to_string()));
}

#[test]
fn unicode_white_space_is_trimmed() {
    assert_eq!(
        normalize_tags(&strings(&["\u{3000}Work\u{a0}", "\twork\n", ""])),
        Err(JournalError::Validation)
    );
    assert_eq!(normalize_tags(&strings(&["\u{3000}Work\u{a0}", "\twork\n"])).unwrap(), strings(&["work"]));
    let mut st = Store::new();
    let r = st.add("\u{2003}\u{85}".to_string(), vec![], &vec![], at(2024, 1, 1, 0, 0, 0));
    assert_eq!(r, Err(JournalError::Validation));
}

#[test]
fn unix_time_range_edges() {
    // 9999-12-31T23:59:59 UTC is the last moment that fits
    let last: i64 = 253402300799;
    assert_eq!(Timestamp::from_unix(last, 0).unwrap().to_text(), "9999-12-31T23:59:59+00:00");
    assert_eq!(Timestamp::from_unix(last + 1, 0), None);
    assert_eq!(Timestamp::from_unix(last, 1), None);
    assert_eq!(Timestamp::from_unix(30, -1), None);
    assert!(Timestamp::from_unix(60, -1).is_some());
}

#[test]
fn rebuild_accepts_any_unique_ids() {
    let e = |id: u64| Entry {
        id,
        created_at: at(2024, 1, 1, 0, 0, 0),
        content: "x".to_string(),
        media: vec![],
        tags: vec![],
    };
    let st = Store::from_entries(vec![e(5), e(u64::MAX - 1), e(0)]).unwrap();
    assert_eq!(st.len(), 3);
    assert_eq!(Store::from_entries(vec![e(u64::MAX)]).err(), Some(JournalError::Storage));
    let mut full = st;
    assert_eq!(
        full.add("y".to_string(), vec![], &vec![], at(2024, 1, 2, 0, 0, 0)),
        Err(JournalError::Storage)
    );
}

#[test]
fn error_messages() {
    assert_eq!(JournalError::EmptyDay.message(), "no entries on that day");
    assert_eq!(
        JournalError::InvalidRange.message(),
        "invalid range: the start date lies after the end date"
    );
}

#[test]
fn man_page_plan() {
    let names = strings(&["add", "list", "help", "export"]);
    let plan = man_pages(&names);
    let files: Vec<&str> = plan.iter().map(|p| p.file.as_str()).collect();
    assert_eq!(files, vec!["microlog.1", "microlog-add.1", "microlog-list.1", "microlog-export.1"]);
    let sources: Vec<Option<usize>> = plan.iter().map(|p| p.source).collect();
    assert_eq!(sources, vec![None, Some(0), Some(1), Some(3)]);
    assert_eq!(man_pages(&vec![]).len(), 1);
}

#[test]
fn man_page_run_steps() {
    let (s, a) = man_step(ManState::Start, ManEvent::DirCreated, 3);
    assert_eq!((s, a), (ManState::Writing(0), ManAction::WritePage(0)));
    let (s, a) = man_step(s, ManEvent::PageWritten, 3);
    assert_eq!(a, ManAction::WritePage(1));
    let (s2, a2) = man_step(s, ManEvent::PageFailed, 3);
    assert_eq!((s2, a2), (ManState::Failed, ManAction::Fail));
    assert_eq!(man_step(s2, ManEvent::PageWritten, 3).1, ManAction::Fail);
    let (s, _) = man_step(s, ManEvent::PageWritten, 3);
    assert_eq!(man_step(s, ManEvent::PageWritten, 3), (ManState::Done, ManAction::Finish));
    assert_eq!(
        man_step(ManState::Start, ManEvent::DirFailed, 3),
        (ManState::Failed, ManAction::Fail)
    );
}

#[test]
fn complete_part_of_log() {
    assert_eq!(complete_length(""), 0);
    assert_eq!(complete_length("abc"), 0);
    assert_eq!(complete_length("ab\ncd"), 3);
    assert_eq!(complete_length("é\n\u{1F600}x"), 2);
    assert_eq!(complete_length("ab\n"), 3);
    assert!(lock_try_again(0));
    assert!(!lock_try_again(LOCK_ATTEMPTS));
}
