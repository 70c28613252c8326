//! Trigger settings and decisions: what a trigger's config asks for, when a
//! schedule next wakes, how a shortcut string reads, when a clipboard change
//! fires, and how an event cursor advances.
use vstd::prelude::*;
use crate::json::{Json, JsonView, member};
use crate::text::{chars_of, concat3, split_on, split_string, str_eq};
use crate::bridge::dispatch::{ascii_upper, to_ascii_upper};
use crate::workflow::calendar::MAX_EPOCH_SECS;
use crate::workflow::cron::{
    CronSchedule, Field, FieldView, SCAN_MINUTES, fires, scan_time, schedule_fields, schedule_spec, schedule_wf,
};

verus! {

// ------------------------------------------------------------------
// Config members
// ------------------------------------------------------------------

/// The string member `key` of a trigger config.
pub open spec fn config_text(config: JsonView, key: Seq<char>) -> Option<Seq<char>> {
    match member(config, key) {
        Some(JsonView::Str(s)) => Some(s),
        _ => None,
    }
}

pub open spec fn text_view(o: Option<String>) -> Option<Seq<char>> {
    match o {
        Some(s) => Some(s@),
        None => None,
    }
}

/// Reads the string member `key` of a trigger config
/// (`config.get(key).and_then(Value::as_str)`).
pub fn config_str(config: &Json, key: &str) -> (r: Option<String>)
    ensures
        text_view(r) == config_text(config@, key@),
{
    match crate::json::get_member(config, key) {
        Some(Json::Str(s)) => Some(s),
        _ => None,
    }
}

/// The config member `key`, or `default` when it is absent or not a string.
pub open spec fn text_or(config: JsonView, key: Seq<char>, default: Seq<char>) -> Seq<char> {
    match config_text(config, key) {
        Some(s) => s,
        None => default,
    }
}

/// The cron expression of a schedule trigger (`0 * * * *`, the top of every
/// hour, by default).
pub fn cron_expression(config: &Json) -> (r: String)
    ensures
        r@ == text_or(config@, "cron"@, "0 * * * *"@),
{
    match config_str(config, "cron") {
        Some(s) => s,
        None => "0 * * * *".to_owned(),
    }
}

/// The shortcut of a hotkey trigger (`CmdOrCtrl+Shift+K` by default).
pub fn shortcut_text(config: &Json) -> (r: String)
    ensures
        r@ == text_or(config@, "shortcut"@, "CmdOrCtrl+Shift+K"@),
{
    match config_str(config, "shortcut") {
        Some(s) => s,
        None => "CmdOrCtrl+Shift+K".to_owned(),
    }
}

/// The event type a plugin-event trigger listens for (empty by default).
pub fn event_type_of(config: &Json) -> (r: String)
    ensures
        r@ == text_or(config@, "event_type"@, Seq::<char>::empty()),
{
    match config_str(config, "event_type") {
        Some(s) => s,
        None => String::new(),
    }
}

// ------------------------------------------------------------------
// Schedules
// ------------------------------------------------------------------

/// Minute 0 of every hour.
pub open spec fn hourly_fields() -> Seq<FieldView> {
    seq![FieldView::List(seq![0u32]), FieldView::All, FieldView::All, FieldView::All, FieldView::All]
}

/// The schedule of a schedule trigger: its cron expression when that parses,
/// else minute 0 of every hour.
pub fn schedule_for(config: &Json) -> (r: CronSchedule)
    ensures
        schedule_wf(r),
        match schedule_spec(text_or(config@, "cron"@, "0 * * * *"@)) {
            Ok(fs) => schedule_fields(r) == fs,
            Err(_) => schedule_fields(r) == hourly_fields(),
        },
{
    let text = cron_expression(config);
    match CronSchedule::parse(text.as_str()) {
        Ok(s) => s,
        Err(_) => {
            let mut zero: Vec<u32> = Vec::new();
            zero.push(0);
            let r = CronSchedule {
                minute: Field::List(zero),
                hour: Field::All,
                dom: Field::All,
                month: Field::All,
                dow: Field::All,
            };
            assert(r.minute@ == FieldView::List(seq![0u32]));
            assert(schedule_fields(r) =~= hourly_fields());
            r
        },
    }
}

/// What a schedule loop does next.
#[derive(Debug, Clone, Copy, PartialEq, Eq, Structural)]
pub enum Wake {
    /// Sleep this many seconds, then run the workflow.
    Run(u64),
    /// Nothing fires within the scanned span: sleep this many seconds and
    /// look again.
    Retry(u64),
}

/// The next wake-up of a schedule at `now_secs`: until its next firing
/// minute, or an hour when none comes within a leap year of minutes.
pub fn next_wake(schedule: &CronSchedule, now_secs: i64) -> (w: Wake)
    requires
        schedule_wf(*schedule),
        0 <= now_secs < MAX_EPOCH_SECS,
    ensures
        match w {
            Wake::Run(after) => after >= 1 && exists|k: int| 1 <= k <= SCAN_MINUTES
                && now_secs + after == scan_time(now_secs as int, k)
                && fires(*schedule, now_secs + after)
                && forall|j: int| 1 <= j < k ==> !fires(*schedule, #[trigger] scan_time(now_secs as int, j)),
            Wake::Retry(after) => after == 3600
                && forall|k: int| 1 <= k <= SCAN_MINUTES ==> !fires(*schedule, #[trigger] scan_time(now_secs as int, k)),
        },
{
    match schedule.next_utc_seconds(now_secs) {
        Some(t) => {
            let d = t - now_secs;
            Wake::Run(d as u64)
        },
        None => Wake::Retry(3600),
    }
}

// ------------------------------------------------------------------
// Shortcuts
// ------------------------------------------------------------------

/// A global shortcut: modifier flags and one key, an upper-case ASCII letter
/// or a digit.
#[derive(Debug, Clone, Copy, PartialEq, Eq, Structural)]
pub struct Shortcut {
    pub ctrl: bool,
    pub alt: bool,
    pub shift: bool,
    pub meta: bool,
    pub key: char,
}

/// Modifier flags and the key read so far.
pub type KeyAcc = (bool, bool, bool, bool, Option<char>);

pub open spec fn is_key_char(c: char) -> bool {
    ('A' <= c && c <= 'Z') || ('0' <= c && c <= '9')
}

/// Reads one `+`-separated piece (compared without case).
pub open spec fn shortcut_step(acc: KeyAcc, p: Seq<char>) -> Result<KeyAcc, Seq<char>> {
    let u = ascii_upper(p);
    if u == "CMD"@ || u == "CMDORCTRL"@ || u == "CTRL"@ || u == "CONTROL"@ {
        Ok((true, acc.1, acc.2, acc.3, acc.4))
    } else if u == "ALT"@ {
        Ok((acc.0, true, acc.2, acc.3, acc.4))
    } else if u == "SHIFT"@ {
        Ok((acc.0, acc.1, true, acc.3, acc.4))
    } else if u == "SUPER"@ || u == "META"@ || u == "WIN"@ {
        Ok((acc.0, acc.1, acc.2, true, acc.4))
    } else if u.len() == 1 && is_key_char(u[0]) {
        Ok((acc.0, acc.1, acc.2, acc.3, Some(u[0])))
    } else {
        Err("unsupported key '"@ + p + "'"@)
    }
}

/// Reads the pieces from index `i` on.
pub open spec fn shortcut_fold(pieces: Seq<Seq<char>>, i: int, acc: KeyAcc) -> Result<KeyAcc, Seq<char>>
    decreases pieces.len() - i,
{
    if i < 0 || i >= pieces.len() {
        Ok(acc)
    } else {
        match shortcut_step(acc, pieces[i]) {
            Ok(a) => shortcut_fold(pieces, i + 1, a),
            Err(e) => Err(e),
        }
    }
}

/// A shortcut string: `+`-separated modifiers and keys; the last key wins; an
/// unknown piece or a missing key is an error.
pub open spec fn shortcut_spec(s: Seq<char>) -> Result<Shortcut, Seq<char>> {
    match shortcut_fold(split_on(s, '+'), 0, (false, false, false, false, None)) {
        Err(e) => Err(e),
        Ok(a) => match a.4 {
            Some(k) => Ok(Shortcut { ctrl: a.0, alt: a.1, shift: a.2, meta: a.3, key: k }),
            None => Err("missing key code"@),
        },
    }
}

pub open spec fn shortcut_view(r: Result<Shortcut, String>) -> Result<Shortcut, Seq<char>> {
    match r {
        Ok(s) => Ok(s),
        Err(e) => Err(e@),
    }
}

/// Reads a shortcut string such as `CmdOrCtrl+Shift+K`.
pub fn parse_shortcut(s: &str) -> (r: Result<Shortcut, String>)
    ensures
        shortcut_view(r) == shortcut_spec(s@),
{
    let pieces = split_string(s, '+');
    let ghost pv = crate::order::views(pieces@);
    let n = pieces.len();
    let ghost init: KeyAcc = (false, false, false, false, None);
    let mut ctrl = false;
    let mut alt = false;
    let mut shift = false;
    let mut meta = false;
    let mut key: Option<char> = None;
    for i in 0..n
        invariant
            n == pieces@.len(),
            pv == crate::order::views(pieces@),
            pv == split_on(s@, '+'),
            init == (false, false, false, false, None::<char>),
            shortcut_fold(pv, 0, init) == shortcut_fold(pv, i as int, (ctrl, alt, shift, meta, key)),
    {
        let p = pieces[i].as_str();
        assert(pv[i as int] == p@);
        let u = to_ascii_upper(p);
        let us = u.as_str();
        if str_eq(us, "CMD") || str_eq(us, "CMDORCTRL") || str_eq(us, "CTRL") || str_eq(us, "CONTROL") {
            ctrl = true;
        } else if str_eq(us, "ALT") {
            alt = true;
        } else if str_eq(us, "SHIFT") {
            shift = true;
        } else if str_eq(us, "SUPER") || str_eq(us, "META") || str_eq(us, "WIN") {
            meta = true;
        } else {
            let cs = chars_of(us);
            if cs.len() == 1 && (('A' <= cs[0] && cs[0] <= 'Z') || ('0' <= cs[0] && cs[0] <= '9')) {
                key = Some(cs[0]);
            } else {
                proof {
                    let acc: KeyAcc = (ctrl, alt, shift, meta, key);
                    assert(!(us@.len() == 1 && is_key_char(us@[0])));
                    assert(shortcut_step(acc, pv[i as int]) == Err::<KeyAcc, Seq<char>>("unsupported key '"@ + p@ + "'"@));
                    assert(pv.len() == n);
                    assert(shortcut_fold(pv, i as int, acc) == Err::<KeyAcc, Seq<char>>("unsupported key '"@ + p@ + "'"@));
                }
                return Err(concat3("unsupported key '", p, "'"));
            }
        }
    }
    match key {
        Some(k) => Ok(Shortcut { ctrl, alt, shift, meta, key: k }),
        None => Err("missing key code".to_owned()),
    }
}

// ------------------------------------------------------------------
// Clipboard polling
// ------------------------------------------------------------------

/// Whether `pat` occurs in `text`.
pub open spec fn contains_text(text: Seq<char>, pat: Seq<char>) -> bool {
    exists|i: int| 0 <= i <= text.len() - pat.len() && #[trigger] text.subrange(i, i + pat.len()) == pat
}

/// Whether clipboard text passes a trigger's pattern: a plain substring test.
pub fn regex_match(pattern: &str, text: &str) -> (b: bool)
    ensures
        b == contains_text(text@, pattern@),
{
    let p = crate::text::chars_of(pattern);
    let t = crate::text::chars_of(text);
    let np = p.len();
    let nt = t.len();
    if np > nt {
        return false;
    }
    let mut i: usize = 0;
    while i <= nt - np
        invariant
            np == p@.len(),
            nt == t@.len(),
            np <= nt,
            p@ == pattern@,
            t@ == text@,
            i <= nt - np + 1,
            forall|k: int| 0 <= k < i ==> #[trigger] text@.subrange(k, k + np) != pattern@,
        decreases nt - np + 1 - i,
    {
        let mut j: usize = 0;
        while j < np && t[i + j] == p[j]
            invariant
                np == p@.len(),
                nt == t@.len(),
                i + np <= nt,
                j <= np,
                forall|q: int| 0 <= q < j ==> t@[i + q] == p@[q],
            decreases np - j,
        {
            j = j + 1;
        }
        if j == np {
            assert(text@.subrange(i as int, i + np) =~= pattern@);
            return true;
        }
        assert(text@.subrange(i as int, i + np)[j as int] != pattern@[j as int]);
        i = i + 1;
    }
    false
}

/// The clipboard text last seen by a clipboard trigger.
#[derive(Debug)]
pub struct ClipboardWatch {
    /// The text last read; empty before the first read.
    pub last: String,
    /// Whether a first read has happened.
    pub primed: bool,
}

impl ClipboardWatch {
    /// Nothing read yet.
    pub fn new() -> (w: ClipboardWatch)
        ensures
            !w.primed,
            w.last@ == Seq::<char>::empty(),
    {
        ClipboardWatch { last: String::new(), primed: false }
    }

    /// Takes one clipboard read and says whether it fires the workflow. The
    /// first read only primes the watch; afterwards a changed text is
    /// remembered and fires when it contains the pattern (any text when there
    /// is none); an unchanged text does nothing.
    pub fn observe(&mut self, current: String, pattern: &Option<String>) -> (fire: bool)
        ensures
            !old(self).primed ==> !fire && final(self).primed && final(self).last@ == current@,
            old(self).primed && current@ != old(self).last@ ==> final(self).primed && final(self).last@ == current@
                && fire == match pattern {
                    Some(p) => contains_text(current@, p@),
                    None => true,
                },
            old(self).primed && current@ == old(self).last@ ==> !fire && final(self).primed && final(self).last@ == old(self).last@,
    {
        if !self.primed {
            self.last = current;
            self.primed = true;
            return false;
        }
        if str_eq(current.as_str(), self.last.as_str()) {
            return false;
        }
        let fire = match pattern {
            Some(p) => regex_match(p.as_str(), current.as_str()),
            None => true,
        };
        self.last = current;
        fire
    }
}

// ------------------------------------------------------------------
// Event cursors
// ------------------------------------------------------------------

/// Moves a plugin-event cursor past an event: the cursor only moves forward,
/// and the returned flag says whether it moved (and so is to be stored).
pub fn advance_cursor(last_event_id: i64, event_id: i64) -> (r: (i64, bool))
    ensures
        r.1 == (event_id > last_event_id),
        r.0 == if event_id > last_event_id { event_id } else { last_event_id },
{
    if event_id > last_event_id {
        (event_id, true)
    } else {
        (last_event_id, false)
    }
}

} // verus!
