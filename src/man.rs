use vstd::prelude::*;

use crate::parse::same_chars;
use crate::entry::strings_view;
use crate::text::{chars_of, push_str, string_of};

verus! {

/// The file that holds the man page of the whole program.
pub fn man_page_main() -> (r: String)
    ensures
        r@ == "microlog.1"@,
{
    let mut out: Vec<char> = Vec::new();
    push_str(&mut out, "microlog.1");
    assert(out@ =~= "microlog.1"@);
    string_of(&out)
}

/// The file that holds the man page of the subcommand `name`; the `help`
/// subcommand gets none.
pub fn man_page_file(name: &str) -> (r: Option<String>)
    ensures
        r is Some <==> name@ != "help"@,
        r matches Some(f) ==> f@ == "microlog-"@ + name@ + ".1"@,
{
    let cs = chars_of(name);
    let help = chars_of("help");
    if same_chars(&cs, &help) {
        return None;
    }
    let mut out: Vec<char> = Vec::new();
    push_str(&mut out, "microlog-");
    push_str(&mut out, name);
    push_str(&mut out, ".1");
    Some(string_of(&out))
}

/// One man page to write: its file, and the command it documents (`None` for
/// the program, `Some(i)` for subcommand `i`).
pub struct ManPage {
    pub file: String,
    pub source: Option<usize>,
}

/// The pages for a program whose subcommands have these names: the
/// program's own page first, then one per subcommand in order, none for
/// `help`.
pub open spec fn page_plan(names: Seq<Seq<char>>) -> Seq<(Seq<char>, Option<usize>)>
    decreases names.len(),
{
    if names.len() == 0 {
        seq![("microlog.1"@, None)]
    } else {
        let prev = page_plan(names.drop_last());
        if names.last() == "help"@ {
            prev
        } else {
            prev.push(("microlog-"@ + names.last() + ".1"@, Some((names.len() - 1) as usize)))
        }
    }
}

/// What each page of a plan is, as plain values.
pub open spec fn pages_view(v: Seq<ManPage>) -> Seq<(Seq<char>, Option<usize>)> {
    v.map_values(|p: ManPage| (p.file@, p.source))
}

/// The man pages to write for a program whose subcommands have these names.
pub fn man_pages(names: &Vec<String>) -> (r: Vec<ManPage>)
    ensures
        pages_view(r@) == page_plan(strings_view(names@)),
        r@.len() >= 1,
{
    let mut r: Vec<ManPage> = Vec::new();
    r.push(ManPage { file: man_page_main(), source: None });
    let ghost names_v = strings_view(names@);
    assert(pages_view(r@) =~= page_plan(names_v.take(0)));
    let mut i: usize = 0;
    while i < names.len()
        invariant
            i <= names@.len(),
            names_v == strings_view(names@),
            pages_view(r@) == page_plan(names_v.take(i as int)),
            r@.len() >= 1,
        decreases names@.len() - i,
    {
        let ghost before = r@;
        assert(names_v.take(i + 1).drop_last() =~= names_v.take(i as int));
        assert(names_v.take(i + 1).last() == names@[i as int]@);
        match man_page_file(names[i].as_str()) {
            Some(f) => {
                r.push(ManPage { file: f, source: Some(i) });
                assert(pages_view(r@) =~= pages_view(before).push(
                    ("microlog-"@ + names@[i as int]@ + ".1"@, Some(i)),
                ));
            },
            None => {},
        }
        i = i + 1;
    }
    assert(names_v.take(names@.len() as int) =~= names_v);
    r
}

/// How far a run that writes man pages has got.
#[derive(Clone, Copy, Debug, PartialEq, Eq, Structural)]
pub enum ManState {
    /// The output directory has been asked for.
    Start,
    /// Page `k` of the plan has been asked for.
    Writing(usize),
    /// Every page was written.
    Done,
    /// Something failed; nothing more is written.
    Failed,
}

/// What the outside work reported.
#[derive(Clone, Copy, Debug, PartialEq, Eq, Structural)]
pub enum ManEvent {
    DirCreated,
    DirFailed,
    PageWritten,
    PageFailed,
}

/// What to do next.
#[derive(Clone, Copy, Debug, PartialEq, Eq, Structural)]
pub enum ManAction {
    /// Write page `k` of the plan.
    WritePage(usize),
    /// Report success.
    Finish,
    /// Report the failure that was just seen.
    Fail,
}

/// The next state and action of a run over a plan of `pages` pages. A run
/// starts by creating the output directory, in state `Start`.
pub open spec fn man_step_spec(s: ManState, e: ManEvent, pages: nat) -> (ManState, ManAction) {
    match s {
        ManState::Start => match e {
            ManEvent::DirCreated => if pages == 0 {
                (ManState::Done, ManAction::Finish)
            } else {
                (ManState::Writing(0), ManAction::WritePage(0))
            },
            _ => (ManState::Failed, ManAction::Fail),
        },
        ManState::Writing(k) => match e {
            ManEvent::PageWritten => if k + 1 >= pages {
                (ManState::Done, ManAction::Finish)
            } else {
                (ManState::Writing((k + 1) as usize), ManAction::WritePage((k + 1) as usize))
            },
            _ => (ManState::Failed, ManAction::Fail),
        },
        ManState::Done => (ManState::Done, ManAction::Finish),
        ManState::Failed => (ManState::Failed, ManAction::Fail),
    }
}

/// Decides the next step of a run that writes the `pages` pages of a plan.
pub fn man_step(s: ManState, e: ManEvent, pages: usize) -> (r: (ManState, ManAction))
    ensures
        r == man_step_spec(s, e, pages as nat),
{
    match s {
        ManState::Start => match e {
            ManEvent::DirCreated => if pages == 0 {
                (ManState::Done, ManAction::Finish)
            } else {
                (ManState::Writing(0), ManAction::WritePage(0))
            },
            _ => (ManState::Failed, ManAction::Fail),
        },
        ManState::Writing(k) => match e {
            ManEvent::PageWritten => if k >= pages || k + 1 >= pages {
                (ManState::Done, ManAction::Finish)
            } else {
                (ManState::Writing(k + 1), ManAction::WritePage(k + 1))
            },
            _ => (ManState::Failed, ManAction::Fail),
        },
        ManState::Done => (ManState::Done, ManAction::Finish),
        ManState::Failed => (ManState::Failed, ManAction::Fail),
    }
}

/// The actions of a run, one per reported event, starting in `s`.
pub open spec fn man_run(s: ManState, events: Seq<ManEvent>, pages: nat) -> Seq<ManAction>
    decreases events.len(),
{
    if events.len() == 0 {
        Seq::empty()
    } else {
        let (next, act) = man_step_spec(s, events[0], pages);
        seq![act] + man_run(next, events.drop_first(), pages)
    }
}

/// The events of a run in which everything succeeds: the directory, then
/// each page.
pub open spec fn all_succeed(pages: nat) -> Seq<ManEvent> {
    seq![ManEvent::DirCreated] + Seq::new(pages, |i: int| ManEvent::PageWritten)
}

proof fn lemma_run_writes_from(k: nat, pages: nat)
    requires
        k < pages,
        pages <= usize::MAX,
    ensures
        man_run(ManState::Writing(k as usize), Seq::new((pages - k) as nat, |i: int| ManEvent::PageWritten), pages)
            == Seq::new((pages - k - 1) as nat, |i: int| ManAction::WritePage((k + 1 + i) as usize)).push(
            ManAction::Finish,
        ),
    decreases pages - k,
{
    let ev = Seq::new((pages - k) as nat, |i: int| ManEvent::PageWritten);
    let rest = Seq::new((pages - k - 1) as nat, |i: int| ManEvent::PageWritten);
    assert(ev.drop_first() =~= rest);
    assert(ev[0] == ManEvent::PageWritten);
    if k + 1 < pages {
        let next = Seq::new((pages - (k + 1)) as nat, |i: int| ManEvent::PageWritten);
        assert(rest =~= next);
        lemma_run_writes_from(k + 1, pages);
        let tail = Seq::new(
            (pages - (k + 1) - 1) as nat,
            |i: int| ManAction::WritePage(((k + 1) + 1 + i) as usize),
        ).push(ManAction::Finish);
        assert(man_run(ManState::Writing(k as usize), ev, pages) == seq![
            ManAction::WritePage((k + 1) as usize),
        ] + man_run(ManState::Writing((k + 1) as usize), rest, pages));
        assert(seq![ManAction::WritePage((k + 1) as usize)] + tail =~= Seq::new(
            (pages - k - 1) as nat,
            |i: int| ManAction::WritePage((k + 1 + i) as usize),
        ).push(ManAction::Finish));
    } else {
        assert(rest =~= Seq::<ManEvent>::empty());
        assert(man_run(ManState::Writing(k as usize), ev, pages) == seq![ManAction::Finish]
            + man_run(ManState::Done, rest, pages));
        assert(man_run(ManState::Done, rest, pages) == Seq::<ManAction>::empty());
        assert(seq![ManAction::Finish] + Seq::<ManAction>::empty() =~= Seq::new(
            0,
            |i: int| ManAction::WritePage((k + 1 + i) as usize),
        ).push(ManAction::Finish));
    }
}

/// When the directory is created and every page is written, a run writes the
/// pages of the plan once each, in order, and then reports success.
pub proof fn lemma_man_all_written(pages: nat)
    requires
        1 <= pages <= usize::MAX,
    ensures
        man_run(ManState::Start, all_succeed(pages), pages) == Seq::new(
            pages,
            |i: int| ManAction::WritePage(i as usize),
        ).push(ManAction::Finish),
{
    let ev = all_succeed(pages);
    assert(ev.drop_first() =~= Seq::new(pages, |i: int| ManEvent::PageWritten));
    assert(ev[0] == ManEvent::DirCreated);
    lemma_run_writes_from(0, pages);
    assert(Seq::new((pages - 1) as nat, |i: int| ManEvent::PageWritten) =~= Seq::new(
        (pages - 0 - 1) as nat,
        |i: int| ManEvent::PageWritten,
    ));
    assert(seq![ManAction::WritePage(0)] + Seq::new(
        (pages - 1) as nat,
        |i: int| ManAction::WritePage((0 + 1 + i) as usize),
    ).push(ManAction::Finish) =~= Seq::new(pages, |i: int| ManAction::WritePage(i as usize)).push(
        ManAction::Finish,
    ));
}

/// Once a run has failed, it writes nothing more and reports the failure.
proof fn lemma_failed_stays(events: Seq<ManEvent>, pages: nat)
    ensures
        man_run(ManState::Failed, events, pages) == Seq::new(events.len(), |i: int| ManAction::Fail),
    decreases events.len(),
{
    if events.len() > 0 {
        lemma_failed_stays(events.drop_first(), pages);
        assert(seq![ManAction::Fail] + Seq::new((events.len() - 1) as nat, |i: int| ManAction::Fail)
            =~= Seq::new(events.len(), |i: int| ManAction::Fail));
    }
}

/// A failure stops a run: when creating the directory or writing a page
/// fails, the run reports the failure and writes no further page, whatever is
/// reported after it.
pub proof fn lemma_man_failure_stops(s: ManState, e: ManEvent, later: Seq<ManEvent>, pages: nat)
    requires
        e == ManEvent::DirFailed || e == ManEvent::PageFailed,
        s != ManState::Done,
    ensures
        man_run(s, seq![e] + later, pages) == Seq::new(later.len() + 1, |i: int| ManAction::Fail),
{
    let ev = seq![e] + later;
    assert(ev.drop_first() =~= later);
    assert(ev[0] == e);
    lemma_failed_stays(later, pages);
    assert(seq![ManAction::Fail] + Seq::new(later.len(), |i: int| ManAction::Fail) =~= Seq::new(
        later.len() + 1,
        |i: int| ManAction::Fail,
    ));
}

/// A run writes no page before the directory exists: the only event on which
/// it first asks for a page is the directory's creation, and it asks for the
/// first page of the plan.
pub proof fn lemma_man_dir_first(e: ManEvent, pages: nat)
    ensures
        man_step_spec(ManState::Start, e, pages).1 is WritePage ==> e == ManEvent::DirCreated
            && man_step_spec(ManState::Start, e, pages).1 == ManAction::WritePage(0),
{
}

} // verus!
