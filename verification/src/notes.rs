//! Taking notes without a recording: the same editor, started at an offset, without
//! devices. Here a line has the time at which it was made, with Enter.

use vstd::prelude::*;

use crate::app::App;
use crate::clock::{Timestamp, MAX_SECS, MIN_SECS};
use crate::page::{Page, Row};
use crate::tui::{
    command_for, command_of, handle_key_normal, obeyed, outcome_for, Command, Key, KeyOutcome,
    Modifiers,
};

verus! {

/// An empty line that keeps the time at which it was made.
pub open spec fn made(now: Timestamp) -> Row {
    Row { begun: true, ..Row::fresh(seq![], now) }
}

/// An empty page whose clock started `offset_secs` before `now`; `None` where that
/// start cannot be given a date.
pub fn new_notes(output_path: String, offset_secs: i64, now: Timestamp) -> (r: Option<App>)
    requires
        now.valid(),
    ensures
        match r {
            Some(app) => {
                &&& MIN_SECS <= now.second_after(-offset_secs) <= MAX_SECS
                &&& app.wf()
                &&& app.page() == (Page { rows: seq![made(now)], line: 0, col: 0 })
                &&& app.scroll == 0
                &&& app.current_mic_name@ == Seq::<char>::empty()
                &&& app.fresh_surroundings(
                    output_path,
                    now.after(-offset_secs),
                    app.current_mic_name,
                )
            },
            None => !(MIN_SECS <= now.second_after(-offset_secs) <= MAX_SECS),
        },
{
    let at: i128 = if now.nanos >= 1_000_000_000 && offset_secs > 0 {
        now.secs as i128 + 1
    } else {
        now.secs as i128
    };
    let start: i128 = at - offset_secs as i128;
    if start < MIN_SECS as i128 || start > MAX_SECS as i128 {
        return None;
    }
    let start_time = now.plus_secs(-offset_secs);
    let mut app = App::new(output_path, start_time, String::new(), now);
    assert(app.row(0) == app.page().rows[0]);
    app.keep_time(0);
    assert(app.page().rows =~= seq![made(now)]);
    Some(app)
}

/// What a key leaves to do: there are no devices to list.
pub open spec fn notes_outcome(key: Key, m: Modifiers) -> KeyOutcome {
    match outcome_for(command_for(key, m)) {
        KeyOutcome::ListDevices => KeyOutcome::Stay,
        outcome => outcome,
    }
}

/// The page after a command: a new line keeps the time at which it was made.
pub open spec fn notes_obeyed(page: Page, command: Command, now: Timestamp) -> Page {
    let q = obeyed(page, command, now);
    match command {
        Command::Enter => Page {
            rows: q.rows.update(q.line, Row { begun: true, ..q.rows[q.line] }),
            ..q
        },
        _ => q,
    }
}

/// A key: what was said of the last one is taken away.
pub fn handle_key(app: &mut App, key: Key, modifiers: Modifiers, now: Timestamp) -> (r: KeyOutcome)
    requires
        old(app).wf(),
        now.valid(),
    ensures
        final(app).wf(),
        final(app).page() == notes_obeyed(old(app).page(), command_for(key, modifiers), now),
        final(app).same_surroundings(&(App { message: None, ..*old(app) })),
        r == notes_outcome(key, modifiers),
{
    app.message = None;
    assert(app.rows() =~= old(app).rows());
    let outcome = handle_key_normal(app, key, modifiers, now);
    if command_of(key, modifiers) == Command::Enter {
        let line = app.cursor_line;
        app.keep_time(line);
    }
    match outcome {
        KeyOutcome::ListDevices => KeyOutcome::Stay,
        outcome => outcome,
    }
}

/// Every line keeps the time at which it was made, whatever is typed.
pub open spec fn times_kept(page: Page) -> bool {
    forall|i: int| 0 <= i < page.rows.len() ==> (#[trigger] page.rows[i]).begun
}

/// A page on which every line keeps its time stays one.
pub proof fn lemma_times_stay_kept(page: Page, command: Command, now: Timestamp)
    requires
        page.wf(),
        times_kept(page),
    ensures
        times_kept(notes_obeyed(page, command, now)),
{
}

/// On such a page typing changes no line's time, and Enter gives the new line the time
/// of the keypress.
pub proof fn lemma_times_of_enter(page: Page, c: char, now: Timestamp, i: int)
    requires
        page.wf(),
        times_kept(page),
        0 <= i < page.rows.len(),
    ensures
        notes_obeyed(page, Command::Insert(c), now).rows[i].created == page.rows[i].created,
        notes_obeyed(page, Command::Tab, now).rows[i].created == page.rows[i].created,
        notes_obeyed(page, Command::Enter, now).rows[page.line + 1].created == now,
{
}

} // verus!
