//! Session metadata: what is kept of a session beside its memo and its audio.

use vstd::prelude::*;

use crate::app::App;
use crate::clock::{parse_rfc3339, rfc3339_parts, rfc3339_text, to_rfc3339, LocalTime, Timestamp};
use crate::memo::session_secs;
use crate::parser::{integer, lemma_decimal};
use crate::text::{chars_of, decimal, pad_right, push_padded, push_signed, signed, strings_view};
use crate::text_laws::lemma_signed_read;
use crate::tui::{device_switched, switch_device, TuiAction};

verus! {

pub struct SessionMeta {
    pub name: String,
    pub start_time: String,
    pub notes_path: String,
    pub created_at: String,
    pub segments: Vec<SegmentMeta>,
    pub vault_note_path: Option<String>,
}

pub struct SegmentMeta {
    pub segment_index: i64,
    pub wav_path: String,
    pub offset_ms: i64,
    /// The bits of a 64-bit floating-point number of seconds.
    pub duration_secs: Option<u64>,
    pub started_at: String,
}

/// One line of the list of sessions.
pub struct SessionInfo {
    pub name: String,
    pub start_time: String,
    pub notes_path: String,
    pub segment_count: i64,
}

/// What a `SessionMeta` holds.
#[verifier::ext_equal]
pub struct Session {
    pub name: Seq<char>,
    pub start_time: Seq<char>,
    pub notes_path: Seq<char>,
    pub created_at: Seq<char>,
    pub segments: Seq<Segment>,
    pub vault_note_path: Option<Seq<char>>,
}

/// What a `SegmentMeta` holds.
#[verifier::ext_equal]
pub struct Segment {
    pub segment_index: int,
    pub wav_path: Seq<char>,
    pub offset_ms: int,
    pub duration_secs: Option<u64>,
    pub started_at: Seq<char>,
}

/// What a `SessionInfo` holds.
#[verifier::ext_equal]
pub struct Info {
    pub name: Seq<char>,
    pub start_time: Seq<char>,
    pub notes_path: Seq<char>,
    pub segment_count: int,
}

impl View for SegmentMeta {
    type V = Segment;

    open spec fn view(&self) -> Segment {
        Segment {
            segment_index: self.segment_index as int,
            wav_path: self.wav_path@,
            offset_ms: self.offset_ms as int,
            duration_secs: self.duration_secs,
            started_at: self.started_at@,
        }
    }
}

impl View for SessionMeta {
    type V = Session;

    open spec fn view(&self) -> Session {
        Session {
            name: self.name@,
            start_time: self.start_time@,
            notes_path: self.notes_path@,
            created_at: self.created_at@,
            segments: segments_view(self.segments@),
            vault_note_path: match self.vault_note_path {
                Some(p) => Some(p@),
                None => None,
            },
        }
    }
}

impl View for SessionInfo {
    type V = Info;

    open spec fn view(&self) -> Info {
        Info {
            name: self.name@,
            start_time: self.start_time@,
            notes_path: self.notes_path@,
            segment_count: self.segment_count as int,
        }
    }
}

pub open spec fn segments_view(v: Seq<SegmentMeta>) -> Seq<Segment> {
    Seq::new(v.len(), |i: int| v[i]@)
}

/// An instant read at an offset, as it is written in the metadata.
pub open spec fn written(t: LocalTime) -> Seq<char> {
    rfc3339_text(t.at.secs as int, t.at.nanos as int, t.offset_secs as int)
}

// --- File names ---

/// The file in the session directory that holds the metadata.
pub fn meta_file_name(name: &str) -> (r: String)
    ensures
        r@ == name@ + ".meta.json"@,
{
    let mut out = name.to_owned();
    out.append(".meta.json");
    out
}

/// The memo of a session.
pub fn notes_file_name(name: &str) -> (r: String)
    ensures
        r@ == name@ + ".md"@,
{
    let mut out = name.to_owned();
    out.append(".md");
    out
}

/// The path of a segment's audio.
pub open spec fn wav_path_text(name: Seq<char>, index: int) -> Seq<char> {
    ".aside/"@ + name + "_seg"@ + signed(index) + ".wav"@
}

pub fn wav_path(name: &str, segment_index: i64) -> (r: String)
    ensures
        r@ == wav_path_text(name@, segment_index as int),
{
    let mut out = ".aside/".to_owned();
    out.append(name);
    out.append("_seg");
    push_signed(&mut out, segment_index);
    out.append(".wav");
    out
}

/// `s` ends with `end`.
pub open spec fn ends_with(s: Seq<char>, end: Seq<char>) -> bool {
    end.len() <= s.len() && s.skip(s.len() - end.len()) == end
}

/// Whether a file of the session directory holds metadata.
pub fn is_meta_file(file_name: &str) -> (r: bool)
    ensures
        r == ends_with(file_name@, ".meta.json"@),
{
    let s = chars_of(file_name);
    let end = chars_of(".meta.json");
    if end.len() > s.len() {
        return false;
    }
    let start = s.len() - end.len();
    let mut i: usize = 0;
    while i < end.len()
        invariant
            i <= end@.len() <= s@.len(),
            start == s@.len() - end@.len(),
            s@ == file_name@,
            end@ == ".meta.json"@,
            forall|k: int| 0 <= k < i ==> s@[start + k] == end@[k],
        decreases end@.len() - i,
    {
        assert(start + i < s.len());
        if s[start + i] != end[i] {
            assert(s@.skip(start as int)[i as int] != end@[i as int]);
            return false;
        }
        i += 1;
    }
    assert(s@.skip(start as int) =~= end@);
    true
}

// --- One session ---

/// The metadata of a session that starts at `start_time` and is made at `now`.
pub fn create_session(
    name: &str,
    start_time: LocalTime,
    notes_path: &str,
    now: LocalTime,
) -> (r: SessionMeta)
    requires
        start_time.valid(),
        now.valid(),
    ensures
        r@ == (Session {
            name: name@,
            start_time: written(start_time),
            notes_path: notes_path@,
            created_at: written(now),
            segments: seq![],
            vault_note_path: None,
        }),
        start_time.common_era() ==> start_of(r@) == Some(start_time.at),
{
    let created_at = to_rfc3339(now);
    let r = SessionMeta {
        name: name.to_owned(),
        start_time: to_rfc3339(start_time),
        notes_path: notes_path.to_owned(),
        created_at,
        segments: Vec::new(),
        vault_note_path: None,
    };
    assert(r@.segments =~= seq![]);
    r
}

/// Why a session cannot be opened.
pub enum SessionError {
    /// A session of this name exists.
    Exists(String),
    /// There is no session, but a file of this name.
    NotesInTheWay(String),
    /// There is no session of this name.
    NotFound(String),
    /// The session's memo, of this name, is not there.
    NotesMissing(String),
    /// The start time in the metadata cannot be read.
    InvalidStartTime,
}

impl SessionError {
    pub open spec fn text(&self) -> Seq<char> {
        match self {
            SessionError::Exists(name) => "Session '"@ + name@
                + "' already exists. Use --resume "@ + name@ + " to continue it."@,
            SessionError::NotesInTheWay(path) => "File '"@ + path@
                + "' already exists. Choose a different session name or delete the file."@,
            SessionError::NotFound(name) => "Session '"@ + name@
                + "' not found in database. Use `aside "@ + name@ + "` to start a new session."@,
            SessionError::NotesMissing(path) => "Notes file '"@ + path@
                + "' not found. Cannot resume without the markdown file."@,
            SessionError::InvalidStartTime => "invalid start_time in session file"@,
        }
    }

    /// The error in words.
    pub fn message(&self) -> (r: String)
        ensures
            r@ == self.text(),
    {
        match self {
            SessionError::Exists(name) => {
                let mut out = "Session '".to_owned();
                out.append(name.as_str());
                out.append("' already exists. Use --resume ");
                out.append(name.as_str());
                out.append(" to continue it.");
                out
            },
            SessionError::NotesInTheWay(path) => {
                let mut out = "File '".to_owned();
                out.append(path.as_str());
                out.append("' already exists. Choose a different session name or delete the file.");
                out
            },
            SessionError::NotFound(name) => {
                let mut out = "Session '".to_owned();
                out.append(name.as_str());
                out.append("' not found in database. Use `aside ");
                out.append(name.as_str());
                out.append("` to start a new session.");
                out
            },
            SessionError::NotesMissing(path) => {
                let mut out = "Notes file '".to_owned();
                out.append(path.as_str());
                out.append("' not found. Cannot resume without the markdown file.");
                out
            },
            SessionError::InvalidStartTime => "invalid start_time in session file".to_owned(),
        }
    }
}

/// The start time that the metadata holds; `None` where it cannot be read.
pub open spec fn start_of(session: Session) -> Option<Timestamp> {
    match rfc3339_parts(session.start_time) {
        Some((secs, nanos, _)) => Some(Timestamp { secs, nanos }),
        None => None,
    }
}

/// When the session started.
pub fn get_session_start_time(meta: &SessionMeta) -> (r: Result<Timestamp, SessionError>)
    ensures
        match r {
            Ok(t) => start_of(meta@) == Some(t) && t.valid(),
            Err(e) => start_of(meta@) is None && e == SessionError::InvalidStartTime,
        },
{
    match parse_rfc3339(meta.start_time.as_str()) {
        Some((secs, nanos, _)) => Ok(Timestamp { secs, nanos }),
        None => Err(SessionError::InvalidStartTime),
    }
}

/// The index of the segment after the last one.
pub fn next_segment_index(meta: &SessionMeta) -> (r: i64)
    ensures
        r == meta@.segments.len() as i64,
        meta@.segments.len() <= i64::MAX ==> r == meta@.segments.len(),
{
    meta.segments.len() as i64
}

pub fn add_segment(
    meta: &mut SessionMeta,
    segment_index: i64,
    wav_path: &str,
    offset_ms: i64,
    duration_secs: Option<u64>,
    now: LocalTime,
)
    requires
        now.valid(),
    ensures
        final(meta)@ == (Session {
            segments: old(meta)@.segments.push(
                Segment {
                    segment_index: segment_index as int,
                    wav_path: wav_path@,
                    offset_ms: offset_ms as int,
                    duration_secs,
                    started_at: written(now),
                },
            ),
            ..old(meta)@
        }),
{
    let ghost before = meta@.segments;
    let segment = SegmentMeta {
        segment_index,
        wav_path: wav_path.to_owned(),
        offset_ms,
        duration_secs,
        started_at: to_rfc3339(now),
    };
    meta.segments.push(segment);
    assert(meta@.segments =~= before.push(segment@));
}

/// The first position from `i` on of a segment with this index; their number where
/// there is none.
pub open spec fn segment_position(segments: Seq<Segment>, index: int, i: int) -> int
    decreases segments.len() - i,
{
    if i < 0 || i >= segments.len() {
        segments.len() as int
    } else if segments[i].segment_index == index {
        i
    } else {
        segment_position(segments, index, i + 1)
    }
}

/// The first segment with this index, if there is one, gets the duration.
pub open spec fn with_duration(session: Session, index: int, duration: u64) -> Session {
    let p = segment_position(session.segments, index, 0);
    if p < session.segments.len() {
        Session {
            segments: session.segments.update(
                p,
                Segment { duration_secs: Some(duration), ..session.segments[p] },
            ),
            ..session
        }
    } else {
        session
    }
}

pub fn update_segment_duration(meta: &mut SessionMeta, segment_index: i64, duration_secs: u64)
    ensures
        final(meta)@ == with_duration(old(meta)@, segment_index as int, duration_secs),
{
    let ghost before = meta@.segments;
    let mut i: usize = 0;
    while i < meta.segments.len()
        invariant
            i <= meta.segments@.len(),
            *meta == *old(meta),
            before == meta@.segments,
            segment_position(before, segment_index as int, i as int) == segment_position(
                before,
                segment_index as int,
                0,
            ),
        decreases meta.segments@.len() - i,
    {
        assert(before[i as int] == meta.segments@[i as int]@);
        if meta.segments[i].segment_index == segment_index {
            meta.segments[i].duration_secs = Some(duration_secs);
            assert(meta@.segments =~= before.update(
                i as int,
                Segment { duration_secs: Some(duration_secs), ..before[i as int] },
            ));
            return ;
        }
        i += 1;
    }
}

pub fn set_vault_note_path(meta: &mut SessionMeta, vault_path: &str)
    ensures
        final(meta)@ == (Session { vault_note_path: Some(vault_path@), ..old(meta)@ }),
{
    meta.vault_note_path = Some(vault_path.to_owned());
}

// --- Opening a session ---

/// A segment that is about to be recorded.
pub struct NewSegment {
    pub segment_index: i64,
    pub wav_path: String,
    pub offset_ms: i64,
}

/// The segment that follows those of `session`, started at `now`.
pub open spec fn following_segment(
    session: Session,
    name: Seq<char>,
    start_time: Timestamp,
    now: LocalTime,
) -> Segment {
    let index = session.segments.len() as i64;
    Segment {
        segment_index: index as int,
        wav_path: wav_path_text(name, index as int),
        offset_ms: now.at.milliseconds_since(start_time),
        duration_secs: None,
        started_at: written(now),
    }
}

/// The segment is the one that was announced.
pub open spec fn announces(new: NewSegment, segment: Segment) -> bool {
    &&& new.segment_index == segment.segment_index
    &&& new.wav_path@ == segment.wav_path
    &&& new.offset_ms == segment.offset_ms
}

/// Adds a segment after the last one, which starts at `now`, `start_time` being the
/// start of the session.
pub fn begin_segment(
    meta: &mut SessionMeta,
    name: &str,
    start_time: &Timestamp,
    now: LocalTime,
) -> (r: NewSegment)
    requires
        start_time.valid(),
        now.valid(),
    ensures
        ({
            let segment = following_segment(old(meta)@, name@, *start_time, now);
            &&& final(meta)@ == (Session {
                segments: old(meta)@.segments.push(segment),
                ..old(meta)@
            })
            &&& announces(r, segment)
        }),
{
    let segment_index = next_segment_index(meta);
    let wav_path = wav_path(name, segment_index);
    let offset_ms = now.at.millis_since(start_time);
    add_segment(meta, segment_index, wav_path.as_str(), offset_ms, None, now);
    NewSegment { segment_index, wav_path, offset_ms }
}

/// A new session with its first segment. It is refused where a session of the name
/// or a memo of the name exists.
pub fn open_new(
    name: &str,
    session_exists: bool,
    notes_exist: bool,
    start_time: LocalTime,
    now: LocalTime,
) -> (r: Result<(SessionMeta, NewSegment), SessionError>)
    requires
        start_time.valid(),
        now.valid(),
    ensures
        match r {
            Ok((meta, new)) => {
                let first = Segment {
                    segment_index: 0,
                    wav_path: wav_path_text(name@, 0),
                    offset_ms: 0,
                    duration_secs: None,
                    started_at: written(now),
                };
                &&& !session_exists
                &&& !notes_exist
                &&& meta@ == (Session {
                    name: name@,
                    start_time: written(start_time),
                    notes_path: name@ + ".md"@,
                    created_at: written(now),
                    segments: seq![first],
                    vault_note_path: None,
                })
                &&& announces(new, first)
                &&& start_time.common_era() ==> start_of(meta@) == Some(start_time.at)
            },
            Err(SessionError::Exists(n)) => session_exists && n@ == name@,
            Err(SessionError::NotesInTheWay(path)) => !session_exists && notes_exist && path@
                == name@ + ".md"@,
            Err(_) => false,
        },
{
    if session_exists {
        return Err(SessionError::Exists(name.to_owned()));
    }
    let notes_path = notes_file_name(name);
    if notes_exist {
        return Err(SessionError::NotesInTheWay(notes_path));
    }
    let mut meta = create_session(name, start_time, notes_path.as_str(), now);
    let wav_path = wav_path(name, 0);
    add_segment(&mut meta, 0, wav_path.as_str(), 0, None, now);
    Ok((meta, NewSegment { segment_index: 0, wav_path, offset_ms: 0 }))
}

/// A session taken up again: its start, and the segment that follows.
pub struct Resumed {
    pub meta: SessionMeta,
    pub start_time: Timestamp,
    pub new: NewSegment,
}

/// Takes up the session of which `found` was read, with one more segment that starts
/// at `now`. It is refused where there is no such session, where its start time
/// cannot be read, and where its memo is not there.
pub fn open_resumed(
    name: &str,
    found: Option<SessionMeta>,
    notes_exist: bool,
    now: LocalTime,
) -> (r: Result<Resumed, SessionError>)
    requires
        now.valid(),
    ensures
        match r {
            Ok(resumed) => {
                &&& found matches Some(meta) && start_of(meta@) == Some(resumed.start_time) && {
                    let segment = following_segment(meta@, name@, resumed.start_time, now);
                    &&& resumed.meta@ == (Session {
                        segments: meta@.segments.push(segment),
                        ..meta@
                    })
                    &&& announces(resumed.new, segment)
                }
                &&& resumed.start_time.valid()
                &&& notes_exist
            },
            Err(SessionError::NotFound(n)) => found is None && n@ == name@,
            Err(SessionError::InvalidStartTime) => found matches Some(meta) && start_of(meta@) is None,
            Err(SessionError::NotesMissing(path)) => {
                &&& found matches Some(meta) && start_of(meta@) is Some
                &&& !notes_exist
                &&& path@ == name@ + ".md"@
            },
            Err(_) => false,
        },
{
    let mut meta = match found {
        Some(meta) => meta,
        None => {
            return Err(SessionError::NotFound(name.to_owned()));
        },
    };
    let start_time = match get_session_start_time(&meta) {
        Ok(t) => t,
        Err(e) => {
            return Err(e);
        },
    };
    if !notes_exist {
        return Err(SessionError::NotesMissing(notes_file_name(name)));
    }
    let new = begin_segment(&mut meta, name, &start_time, now);
    Ok(Resumed { meta, start_time, new })
}

// --- Going on ---

/// What follows when the editor has been left.
pub enum NextStep {
    /// The memo is to be published, as one of a session of this length.
    Publish { duration_secs: u64 },
    /// Recording goes on, from the device given or the system's own choice, into a new
    /// segment.
    Record { device: Option<usize>, segment: NewSegment },
}

/// What follows when the editor has been left: after quitting, the memo is published;
/// after a choice of device, recording goes on with that device, if it is still among
/// `names`, in a segment that starts at `now`.
pub fn next_step(
    app: &mut App,
    meta: &mut SessionMeta,
    name: &str,
    action: TuiAction,
    names: &Vec<String>,
    default_name: Option<String>,
    now: LocalTime,
) -> (r: NextStep)
    requires
        old(app).start_time.valid(),
        now.valid(),
    ensures
        match action {
            TuiAction::Quit => {
                &&& *final(app) == *old(app)
                &&& *final(meta) == *old(meta)
                &&& r matches NextStep::Publish { duration_secs } && duration_secs
                    == session_secs(now.at, old(app).start_time)
            },
            TuiAction::SwitchDevice(idx) => {
                let new = following_segment(old(meta)@, name@, old(app).start_time, now);
                &&& final(meta)@ == (Session {
                    segments: old(meta)@.segments.push(new),
                    ..old(meta)@
                })
                &&& r matches NextStep::Record { device, segment } && announces(segment, new)
                    && device_switched(*old(app), *final(app), idx, names@, default_name, device)
            },
        },
{
    match action {
        TuiAction::Quit => {
            let elapsed = app.elapsed_secs(now.at);
            let duration_secs: u64 = if elapsed < 0 {
                0
            } else {
                elapsed as u64
            };
            NextStep::Publish { duration_secs }
        },
        TuiAction::SwitchDevice(idx) => {
            let device = switch_device(app, idx, names, default_name);
            let start_time = app.start_time;
            let segment = begin_segment(meta, name, &start_time, now);
            NextStep::Record { device, segment }
        },
    }
}

/// The segments are numbered from nought on, and each has the file of its number.
pub open spec fn numbered(session: Session) -> bool {
    &&& session.segments.len() <= i64::MAX
    &&& forall|i: int|
        0 <= i < session.segments.len() ==> (#[trigger] session.segments[i]).segment_index == i
            && session.segments[i].wav_path == wav_path_text(session.name, i)
}

/// A session that goes on with another segment stays numbered. (A new one, with its
/// one segment, is.)
pub proof fn lemma_following_segment_numbered(
    session: Session,
    start_time: Timestamp,
    now: LocalTime,
)
    requires
        numbered(session),
        session.segments.len() < i64::MAX,
    ensures
        numbered(
            Session {
                segments: session.segments.push(
                    following_segment(session, session.name, start_time, now),
                ),
                ..session
            },
        ),
{
}

/// Two segments of a session never share a file.
pub proof fn lemma_segment_files_differ(name: Seq<char>, i: int, j: int)
    requires
        0 <= i,
        0 <= j,
        i != j,
    ensures
        wav_path_text(name, i) != wav_path_text(name, j),
{
    lemma_decimal(i);
    lemma_decimal(j);
    let head = ".aside/"@ + name + "_seg"@;
    let tail = ".wav"@;
    let a = wav_path_text(name, i);
    let b = wav_path_text(name, j);
    assert(decimal(i) =~= a.subrange(head.len() as int, a.len() - tail.len()));
    assert(decimal(j) =~= b.subrange(head.len() as int, b.len() - tail.len()));
}

proof fn lemma_segment_position(segments: Seq<Segment>, index: int, i: int)
    requires
        0 <= i <= index < segments.len(),
        forall|k: int| i <= k <= index ==> (#[trigger] segments[k]).segment_index == k,
    ensures
        segment_position(segments, index, i) == index,
    decreases index - i,
{
    if i < index {
        assert(segments[i].segment_index == i);
        lemma_segment_position(segments, index, i + 1);
    }
}

/// A duration goes to the segment that it was measured for, and to no other.
pub proof fn lemma_duration_reaches_segment(session: Session, index: int, duration: u64, i: int)
    requires
        numbered(session),
        0 <= index < session.segments.len(),
        0 <= i < session.segments.len(),
    ensures
        numbered(with_duration(session, index, duration)),
        with_duration(session, index, duration).segments.len() == session.segments.len(),
        with_duration(session, index, duration).segments[i] == (if i == index {
            Segment { duration_secs: Some(duration), ..session.segments[i] }
        } else {
            session.segments[i]
        }),
{
    lemma_segment_position(session.segments, index, 0);
}

// --- The list of sessions ---

/// `a` comes before `b` in the order of strings: where they first differ, `a` has
/// the lower character, or ends.
pub open spec fn before(a: Seq<char>, b: Seq<char>) -> bool
    decreases a.len(),
{
    if b.len() == 0 {
        false
    } else if a.len() == 0 {
        true
    } else if a[0] != b[0] {
        a[0] < b[0]
    } else {
        before(a.skip(1), b.skip(1))
    }
}

/// Whether `a` comes before `b` in the order of strings.
pub fn comes_before(a: &str, b: &str) -> (r: bool)
    ensures
        r == before(a@, b@),
        r ==> a@ != b@,
{
    proof {
        lemma_before_total(a@, b@);
    }
    let x = chars_of(a);
    let y = chars_of(b);
    let mut i: usize = 0;
    assert(x@.skip(0) =~= x@);
    assert(y@.skip(0) =~= y@);
    while i < x.len() && i < y.len() && x[i] == y[i]
        invariant
            i <= x@.len(),
            i <= y@.len(),
            before(x@.skip(i as int), y@.skip(i as int)) == before(x@, y@),
        decreases x@.len() - i,
    {
        assert(x@.skip(i as int).skip(1) =~= x@.skip(i + 1));
        assert(y@.skip(i as int).skip(1) =~= y@.skip(i + 1));
        i += 1;
    }
    if i == y.len() {
        false
    } else if i == x.len() {
        true
    } else {
        x[i] < y[i]
    }
}

pub proof fn lemma_before_asymmetric(a: Seq<char>, b: Seq<char>)
    requires
        before(a, b),
    ensures
        !before(b, a),
    decreases a.len(),
{
    if a.len() > 0 && a[0] == b[0] {
        lemma_before_asymmetric(a.skip(1), b.skip(1));
    }
}

/// Where `b` is not before `a` and `c` is not before `b`, `c` is not before `a`.
pub proof fn lemma_before_transitive(a: Seq<char>, b: Seq<char>, c: Seq<char>)
    requires
        !before(b, a),
        !before(c, b),
    ensures
        !before(c, a),
    decreases a.len(),
{
    if a.len() > 0 && b.len() > 0 && c.len() > 0 && a[0] == b[0] && b[0] == c[0] {
        lemma_before_transitive(a.skip(1), b.skip(1), c.skip(1));
    }
}

/// The order of strings goes by the first place where two differ: the one that has the lower
/// character there, or has ended, comes first. A string does not come before itself.
pub proof fn lemma_before_by_first_difference(a: Seq<char>, b: Seq<char>, k: int)
    requires
        0 <= k <= a.len(),
        k <= b.len(),
        forall|j: int| 0 <= j < k ==> a[j] == b[j],
        k == a.len() || k == b.len() || a[k] != b[k],
    ensures
        before(a, b) <==> k < b.len() && (k == a.len() || a[k] < b[k]),
    decreases k,
{
    if k > 0 {
        let (x, y) = (a.skip(1), b.skip(1));
        assert forall|j: int| 0 <= j < k - 1 implies x[j] == y[j] by {
            assert(a[j + 1] == b[j + 1]);
        }
        lemma_before_by_first_difference(x, y, k - 1);
    }
}

/// After a common beginning `p`, of any characters, the lower character comes first,
/// whatever follows, and what ends comes before what goes on.
pub proof fn lemma_before_after_common_part(
    p: Seq<char>,
    c: char,
    x: Seq<char>,
    d: char,
    y: Seq<char>,
)
    ensures
        c < d ==> before(p + seq![c] + x, p + seq![d] + y),
        c < d ==> !before(p + seq![d] + y, p + seq![c] + x),
        before(p, p + seq![c] + x),
        !before(p + seq![c] + x, p),
        !before(p, p),
        before(p + x, p + y) == before(x, y),
    decreases p.len(),
{
    let n = p.len() as int;
    let (s, t) = (p + seq![c] + x, p + seq![d] + y);
    if c < d {
        lemma_before_by_first_difference(s, t, n);
        lemma_before_by_first_difference(t, s, n);
    }
    lemma_before_by_first_difference(p, s, n);
    lemma_before_by_first_difference(s, p, n);
    lemma_before_by_first_difference(p, p, n);
    if n == 0 {
        assert(p + x =~= x);
        assert(p + y =~= y);
    } else {
        lemma_before_after_common_part(p.skip(1), c, x, d, y);
        assert((p + x).skip(1) =~= p.skip(1) + x);
        assert((p + y).skip(1) =~= p.skip(1) + y);
    }
}

/// Of two different strings one comes before the other.
pub proof fn lemma_before_total(a: Seq<char>, b: Seq<char>)
    ensures
        a != b ==> before(a, b) || before(b, a),
        a == b ==> !before(a, b),
    decreases a.len(),
{
    if a.len() > 0 && b.len() > 0 {
        let (x, y) = (a.skip(1), b.skip(1));
        lemma_before_total(x, y);
        if a[0] == b[0] && x == y {
            assert(a =~= seq![a[0]] + x);
            assert(b =~= seq![b[0]] + y);
        }
    } else if a.len() == 0 && b.len() == 0 {
        assert(a =~= b);
    }
}

/// The line of the list for a session.
pub open spec fn info_of(session: Session) -> Info {
    Info {
        name: session.name,
        start_time: session.start_time,
        notes_path: session.notes_path,
        segment_count: session.segments.len() as i64 as int,
    }
}

pub fn session_info(meta: &SessionMeta) -> (r: SessionInfo)
    ensures
        r@ == info_of(meta@),
{
    SessionInfo {
        name: meta.name.clone(),
        start_time: meta.start_time.clone(),
        notes_path: meta.notes_path.clone(),
        segment_count: meta.segments.len() as i64,
    }
}

/// `order` holds each number below `n` once.
pub open spec fn arrangement(order: Seq<int>, n: int) -> bool {
    &&& order.len() == n
    &&& forall|i: int| 0 <= i < n ==> 0 <= #[trigger] order[i] < n
    &&& forall|i: int, j: int| 0 <= i < j < n ==> #[trigger] order[i] != #[trigger] order[j]
}

/// `list` is the lines for `sessions`, in the order `order`: the latest start time
/// first, and of two with the same start time the one that was found first.
pub open spec fn listed(list: Seq<SessionInfo>, sessions: Seq<SessionMeta>, order: Seq<int>) -> bool {
    &&& list.len() == order.len()
    &&& forall|i: int|
        0 <= i < list.len() ==> (#[trigger] list[i])@ == info_of(sessions[order[i]]@)
    &&& forall|i: int, j: int|
        0 <= i < j < list.len() ==> !before((#[trigger] list[i])@.start_time, (#[trigger] list[j])@.start_time)
    &&& forall|i: int, j: int|
        0 <= i < j < list.len() && (#[trigger] list[i])@.start_time == (
        #[trigger] list[j])@.start_time ==> order[i] < order[j]
}

/// The list of the sessions whose metadata was found, the latest first.
pub fn list_sessions(found: &Vec<SessionMeta>) -> (r: Vec<SessionInfo>)
    ensures
        exists|order: Seq<int>|
            #[trigger] arrangement(order, found@.len() as int) && listed(r@, found@, order),
{
    let mut list: Vec<SessionInfo> = Vec::new();
    let ghost mut order: Seq<int> = seq![];
    let mut n: usize = 0;
    while n < found.len()
        invariant
            n <= found@.len(),
            arrangement(order, n as int),
            listed(list@, found@, order),
        decreases found@.len() - n,
    {
        let info = session_info(&found[n]);
        let mut k: usize = 0;
        while k < list.len() && !comes_before(
            list[k].start_time.as_str(),
            info.start_time.as_str(),
        )
            invariant
                k <= list@.len(),
                forall|i: int|
                    0 <= i < k ==> !before((#[trigger] list@[i])@.start_time, info@.start_time),
            decreases list@.len() - k,
        {
            k += 1;
        }
        let ghost old_list = list@;
        let ghost old_order = order;
        list.insert(k, info);
        proof {
            order = order.insert(k as int, n as int);
            lemma_insert_listed(old_list, found@, old_order, info, k as int);
        }
        n += 1;
    }
    assert(arrangement(order, found@.len() as int));
    list
}

/// One more line in its place.
proof fn lemma_insert_listed(
    list: Seq<SessionInfo>,
    sessions: Seq<SessionMeta>,
    order: Seq<int>,
    info: SessionInfo,
    k: int,
)
    requires
        listed(list, sessions, order),
        arrangement(order, order.len() as int),
        order.len() < sessions.len(),
        info@ == info_of(sessions[order.len() as int]@),
        0 <= k <= list.len(),
        forall|i: int| 0 <= i < k ==> !before((#[trigger] list[i])@.start_time, info@.start_time),
        k < list.len() ==> before(list[k]@.start_time, info@.start_time),
    ensures
        listed(
            list.insert(k, info),
            sessions,
            order.insert(k, order.len() as int),
        ),
        arrangement(order.insert(k, order.len() as int), order.len() as int + 1),
{
    let more = list.insert(k, info);
    let longer = order.insert(k, order.len() as int);
    let at = |i: int| if i < k { i } else { i - 1 };
    assert forall|i: int| 0 <= i < more.len() && i != k implies more[i] == list[at(i)] && longer[i]
        == order[at(i)] by {}
    assert forall|i: int, j: int| 0 <= i < j < more.len() implies !before(
        (#[trigger] more[i])@.start_time,
        (#[trigger] more[j])@.start_time,
    ) by {
        let s = info@.start_time;
        if i == k {
            let below = list[k]@.start_time;
            lemma_before_asymmetric(below, s);
            if j - 1 > k {
                assert(!before(below, list[j - 1]@.start_time));
                lemma_before_transitive(list[j - 1]@.start_time, below, s);
            }
        } else if j == k {
            assert(!before(list[i]@.start_time, s));
        } else {
            assert(!before(list[at(i)]@.start_time, list[at(j)]@.start_time));
        }
    }
}

/// One line of the table of sessions.
pub open spec fn table_row(
    name: Seq<char>,
    started: Seq<char>,
    segments: Seq<char>,
    notes: Seq<char>,
) -> Seq<char> {
    pad_right(name, 20) + seq![' '] + pad_right(started, 24) + seq![' '] + pad_right(segments, 8)
        + seq![' '] + notes
}

fn padded_row(name: &str, started: &str, segments: &str, notes: &str) -> (r: String)
    ensures
        r@ == table_row(name@, started@, segments@, notes@),
{
    let mut out = String::new();
    push_padded(&mut out, name, 20);
    out.push(' ');
    push_padded(&mut out, started, 24);
    out.push(' ');
    push_padded(&mut out, segments, 8);
    out.push(' ');
    out.append(notes);
    assert(out@ =~= table_row(name@, started@, segments@, notes@));
    out
}

pub open spec fn info_row(info: Info) -> Seq<char> {
    table_row(info.name, info.start_time, signed(info.segment_count), info.notes_path)
}

/// The table of sessions: a heading, a rule and a row for each, or one line that
/// says that there are none.
pub open spec fn table_of(infos: Seq<Info>) -> Seq<Seq<char>> {
    if infos.len() == 0 {
        seq!["No sessions found."@]
    } else {
        seq![
            table_row("NAME"@, "STARTED"@, "SEGS"@, "NOTES"@),
            Seq::new(72, |i: int| '-'),
        ] + Seq::new(infos.len(), |i: int| info_row(infos[i]))
    }
}

pub open spec fn infos_view(v: Seq<SessionInfo>) -> Seq<Info> {
    Seq::new(v.len(), |i: int| v[i]@)
}

pub fn session_table(sessions: &Vec<SessionInfo>) -> (r: Vec<String>)
    ensures
        strings_view(r@) == table_of(infos_view(sessions@)),
{
    let mut out: Vec<String> = Vec::new();
    if sessions.len() == 0 {
        out.push("No sessions found.".to_owned());
        assert(strings_view(out@) =~= table_of(infos_view(sessions@)));
        return out;
    }
    out.push(padded_row("NAME", "STARTED", "SEGS", "NOTES"));
    let mut rule = String::new();
    let mut n: usize = 0;
    while n < 72
        invariant
            n <= 72,
            rule@ == Seq::new(n as nat, |i: int| '-'),
        decreases 72 - n,
    {
        rule.push('-');
        n += 1;
        assert(rule@ =~= Seq::new(n as nat, |i: int| '-'));
    }
    out.push(rule);
    let ghost infos = infos_view(sessions@);
    let mut i: usize = 0;
    assert(strings_view(out@) =~= table_of(infos).take(2));
    while i < sessions.len()
        invariant
            i <= sessions@.len(),
            sessions@.len() > 0,
            infos == infos_view(sessions@),
            strings_view(out@) == table_of(infos).take(i + 2),
        decreases sessions@.len() - i,
    {
        let s = &sessions[i];
        let ghost done = strings_view(out@);
        let mut count = String::new();
        push_signed(&mut count, s.segment_count);
        assert(count@ =~= signed(s.segment_count as int));
        let row = padded_row(
            s.name.as_str(),
            s.start_time.as_str(),
            count.as_str(),
            s.notes_path.as_str(),
        );
        out.push(row);
        assert(infos[i as int] == s@);
        assert(strings_view(out@) =~= done.push(row@));
        assert(table_of(infos).take(i + 3) =~= table_of(infos).take(i + 2).push(
            table_of(infos)[i + 2],
        ));
        i += 1;
    }
    assert(table_of(infos).take(i + 2) =~= table_of(infos));
    out
}

// --- Laws of the list and the table ---

/// In the list of sessions a line shows the name, the start, the memo and the number of
/// segments of the session it is for. Of two lines with different starts the one with the
/// later start comes first, and of two with the same start the one that was found first.
pub proof fn lemma_latest_first(
    list: Seq<SessionInfo>,
    sessions: Seq<SessionMeta>,
    order: Seq<int>,
    i: int,
    j: int,
)
    requires
        arrangement(order, sessions.len() as int),
        listed(list, sessions, order),
        0 <= i < list.len(),
    ensures
        list.len() == sessions.len(),
        list[i].name@ == sessions[order[i]].name@,
        list[i].start_time@ == sessions[order[i]].start_time@,
        list[i].notes_path@ == sessions[order[i]].notes_path@,
        list[i].segment_count == sessions[order[i]].segments@.len() as i64,
        i < j < list.len() && list[i].start_time@ != list[j].start_time@ ==> before(
            list[j].start_time@,
            list[i].start_time@,
        ),
        i < j < list.len() && list[i].start_time@ == list[j].start_time@ ==> order[i] < order[j],
{
    assert(list[i]@ == info_of(sessions[order[i]]@));
    if i < j < list.len() {
        assert(!before(list[i]@.start_time, list[j]@.start_time));
        lemma_before_total(list[i]@.start_time, list[j]@.start_time);
        if list[i]@.start_time == list[j]@.start_time {
            assert(order[i] < order[j]);
        }
    }
}

/// Every session that was found is in the list.
pub proof fn lemma_every_session_listed(order: Seq<int>, n: int, k: int)
    requires
        arrangement(order, n),
        0 <= k < n,
    ensures
        exists|i: int| 0 <= i < n && #[trigger] order[i] == k,
{
    let places = order.to_set();
    let all = vstd::set_lib::set_int_range(0, n);
    vstd::set_lib::lemma_int_range(0, n);
    assert(order.no_duplicates());
    order.unique_seq_to_set();
    assert(places.subset_of(all));
    vstd::set_lib::lemma_subset_equality(places, all);
    assert(places.contains(k));
    let i = choose|i: int| 0 <= i < order.len() && order[i] == k;
    assert(order[i] == k);
}

/// `w`, or `n` where that is more.
pub open spec fn at_least(w: int, n: nat) -> int {
    if n > w {
        n as int
    } else {
        w
    }
}

/// Each column of the table shows its text whole, filled with spaces to its width, and one
/// space stands before the next. What is too long for its column is not cut: the next one
/// moves on.
pub proof fn lemma_table_columns(
    name: Seq<char>,
    started: Seq<char>,
    segments: Seq<char>,
    notes: Seq<char>,
    i: int,
)
    ensures
        ({
            let row = table_row(name, started, segments, notes);
            let b = at_least(20, name.len()) + 1;
            let c = b + at_least(24, started.len()) + 1;
            let d = c + at_least(8, segments.len()) + 1;
            &&& row.len() == d + notes.len()
            &&& 0 <= i < row.len() ==> row[i] == (if i < name.len() {
                name[i]
            } else if b <= i < b + started.len() {
                started[i - b]
            } else if c <= i < c + segments.len() {
                segments[i - c]
            } else if d <= i {
                notes[i - d]
            } else {
                ' '
            })
        }),
{
}

/// The table has a row for each session, in the order of the list, under its two lines of
/// heading.
pub proof fn lemma_table_rows(infos: Seq<Info>, i: int)
    requires
        0 <= i < infos.len(),
    ensures
        table_of(infos).len() == infos.len() + 2,
        table_of(infos)[i + 2] == table_row(
            infos[i].name,
            infos[i].start_time,
            signed(infos[i].segment_count),
            infos[i].notes_path,
        ),
        table_of(infos)[1].len() == 72,
        forall|k: int| 0 <= k < 72 ==> table_of(infos)[1][k] == '-',
{
}

/// The lists hold what is in them, in order.
pub proof fn lemma_views_in_order(infos: Seq<SessionInfo>, segments: Seq<SegmentMeta>, i: int)
    ensures
        infos_view(infos).len() == infos.len(),
        0 <= i < infos.len() ==> infos_view(infos)[i] == infos[i]@,
        segments_view(segments).len() == segments.len(),
        0 <= i < segments.len() ==> segments_view(segments)[i] == segments[i]@,
{
}

// --- Laws of a session ---

/// An error names, in full, the session or the file that it is about.
pub proof fn lemma_error_names(name: String)
    ensures
        ({
            let n = name@.len() as int;
            let exists_text = SessionError::Exists(name).text();
            let missing_text = SessionError::NotFound(name).text();
            &&& exists_text.subrange(9, 9 + n) == name@
            &&& exists_text.subrange(40 + n, 40 + 2 * n) == name@
            &&& missing_text.subrange(9, 9 + n) == name@
            &&& missing_text.subrange(45 + n, 45 + 2 * n) == name@
            &&& SessionError::NotesInTheWay(name).text().subrange(6, 6 + n) == name@
            &&& SessionError::NotesMissing(name).text().subrange(12, 12 + n) == name@
        }),
{
    reveal_strlit("Session '");
    reveal_strlit("' already exists. Use --resume ");
    reveal_strlit(" to continue it.");
    reveal_strlit("File '");
    reveal_strlit("' already exists. Choose a different session name or delete the file.");
    reveal_strlit("' not found in database. Use `aside ");
    reveal_strlit("` to start a new session.");
    reveal_strlit("Notes file '");
    reveal_strlit("' not found. Cannot resume without the markdown file.");
    let n = name@.len() as int;
    let exists_text = SessionError::Exists(name).text();
    let missing_text = SessionError::NotFound(name).text();
    assert("' already exists. Use --resume "@.len() == 31);
    assert("' not found in database. Use `aside "@.len() == 36);
    assert(exists_text.subrange(9, 9 + n) =~= name@);
    assert(exists_text.subrange(40 + n, 40 + 2 * n) =~= name@);
    assert(missing_text.subrange(9, 9 + n) =~= name@);
    assert(missing_text.subrange(45 + n, 45 + 2 * n) =~= name@);
    assert(SessionError::NotesInTheWay(name).text().subrange(6, 6 + n) =~= name@);
    assert(SessionError::NotesMissing(name).text().subrange(12, 12 + n) =~= name@);
}

/// The first segment that has the index gets the duration; its other fields, the other
/// segments and the rest of the session stay. Where none has it, nothing changes.
pub proof fn lemma_duration_by_index(session: Session, index: int, duration: u64, p: int)
    requires
        0 <= p <= session.segments.len(),
        forall|k: int| 0 <= k < p ==> (#[trigger] session.segments[k]).segment_index != index,
        p == session.segments.len() || session.segments[p].segment_index == index,
    ensures
        ({
            let timed = with_duration(session, index, duration);
            &&& timed.segments.len() == session.segments.len()
            &&& p == session.segments.len() ==> timed == session
            &&& forall|k: int|
                0 <= k < session.segments.len() && k != p ==> timed.segments[k]
                    == session.segments[k]
            &&& p < session.segments.len() ==> {
                &&& timed.segments[p].duration_secs == Some(duration)
                &&& timed.segments[p].segment_index == index
                &&& timed.segments[p].wav_path == session.segments[p].wav_path
                &&& timed.segments[p].offset_ms == session.segments[p].offset_ms
                &&& timed.segments[p].started_at == session.segments[p].started_at
            }
            &&& timed.name == session.name
            &&& timed.start_time == session.start_time
            &&& timed.notes_path == session.notes_path
            &&& timed.created_at == session.created_at
            &&& timed.vault_note_path == session.vault_note_path
        }),
{
    lemma_first_of_index(session.segments, index, 0, p);
}

proof fn lemma_first_of_index(segments: Seq<Segment>, index: int, i: int, p: int)
    requires
        0 <= i <= p <= segments.len(),
        forall|k: int| i <= k < p ==> (#[trigger] segments[k]).segment_index != index,
        p == segments.len() || segments[p].segment_index == index,
    ensures
        segment_position(segments, index, i) == p,
    decreases p - i,
{
    if i < p {
        assert(segments[i].segment_index != index);
        lemma_first_of_index(segments, index, i + 1, p);
    }
}

/// The segment that follows has the next number, no duration yet, the time at which it
/// starts, and as its offset the whole milliseconds of the session that have gone by.
pub proof fn lemma_following_segment(
    session: Session,
    name: Seq<char>,
    start: Timestamp,
    now: LocalTime,
)
    requires
        session.segments.len() <= i64::MAX,
    ensures
        ({
            let segment = following_segment(session, name, start, now);
            let gone = now.at.nanos_since(start);
            &&& segment.segment_index == session.segments.len()
            &&& segment.duration_secs is None
            &&& segment.started_at == rfc3339_text(
                now.at.secs as int,
                now.at.nanos as int,
                now.offset_secs as int,
            )
            &&& gone >= 0 ==> segment.offset_ms * 1_000_000 <= gone < (segment.offset_ms + 1)
                * 1_000_000
            &&& gone <= 0 ==> (segment.offset_ms - 1) * 1_000_000 < gone <= segment.offset_ms
                * 1_000_000
        }),
{
}

/// The start of a session is the instant that its metadata name, whatever the offset they
/// name it with, and there is none where they cannot be read.
pub proof fn lemma_start_read(session: Session, secs: i64, nanos: u32, offset: i32)
    ensures
        rfc3339_parts(session.start_time) == Some((secs, nanos, offset)) ==> start_of(session)
            == Some(Timestamp { secs, nanos }),
        rfc3339_parts(session.start_time) is None ==> start_of(session) is None,
{
}

/// What is announced of a segment is its number, its file and its offset.
pub proof fn lemma_announced(new: NewSegment, segment: Segment)
    ensures
        announces(new, segment) ==> new.segment_index == segment.segment_index && new.wav_path@
            == segment.wav_path && new.offset_ms == segment.offset_ms,
{
}

/// A segment's file lies in the session directory, is named for the session, and holds the
/// segment's number, which can be read from it.
pub proof fn lemma_segment_file(name: Seq<char>, index: int)
    requires
        i64::MIN <= index <= i64::MAX,
    ensures
        ({
            let path = wav_path_text(name, index);
            let head = ".aside/"@ + name + "_seg"@;
            let n = head.len() as int;
            &&& path.take(n) == head
            &&& path.skip(path.len() - 4) == ".wav"@
            &&& integer(path.subrange(n, path.len() - 4)) == Some(index)
        }),
{
    let path = wav_path_text(name, index);
    let head = ".aside/"@ + name + "_seg"@;
    let n = head.len() as int;
    reveal_strlit(".wav");
    lemma_signed_read(index);
    assert(path.take(n) =~= head);
    assert(path.skip(path.len() - 4) =~= ".wav"@);
    assert(path.subrange(n, path.len() - 4) =~= signed(index));
}

/// A name with the ending behind it has the ending; where the ending is there, taking it
/// away and putting it back gives the name.
pub proof fn lemma_ending(s: Seq<char>, end: Seq<char>)
    ensures
        ends_with(s + end, end),
        ends_with(s, end) ==> s.len() >= end.len() && s.take(s.len() - end.len()) + end == s,
        s.len() < end.len() ==> !ends_with(s, end),
{
    assert((s + end).skip((s + end).len() - end.len()) =~= end);
    if ends_with(s, end) {
        assert(s.take(s.len() - end.len()) + s.skip(s.len() - end.len()) =~= s);
    }
}

} // verus!
