//! The edge dock: its configuration and the hover state machine that the
//! polling loop drives (hidden, peeking, expanded), one tick at a time.
use vstd::prelude::*;
use crate::text::chars_of;

verus! {

/// Dock window width, in physical pixels.
pub const DOCK_W: i32 = 320;
/// Dock window height, in physical pixels.
pub const DOCK_H: i32 = 560;
/// The polling period, in milliseconds.
pub const POLL_INTERVAL_MS: u64 = 100;
/// The quiet time after a state change, in milliseconds.
pub const COOLDOWN_MS: u64 = 120;

/// The dock's configuration.
#[derive(Debug, Clone)]
pub struct DockConfig {
    pub enabled: bool,
    /// `left` (any case) or anything else for the right edge.
    pub position: String,
    pub hotzone_width: i32,
    pub expand_delay_ms: u64,
}

impl Default for DockConfig {
    /// Disabled, on the right, a 12-pixel hot zone, no expand delay.
    fn default() -> (c: DockConfig)
        ensures
            !c.enabled && c.position@ == "right"@ && c.hotzone_width == 12 && c.expand_delay_ms == 0,
    {
        DockConfig { enabled: false, position: "right".to_owned(), hotzone_width: 12, expand_delay_ms: 0 }
    }
}

impl DockConfig {
    /// Replaces every setting.
    pub fn set(&mut self, enabled: bool, position: String, hotzone_width: i32, expand_delay_ms: u64)
        ensures
            final(self).enabled == enabled,
            final(self).position == position,
            final(self).hotzone_width == hotzone_width,
            final(self).expand_delay_ms == expand_delay_ms,
    {
        self.enabled = enabled;
        self.position = position;
        self.hotzone_width = hotzone_width;
        self.expand_delay_ms = expand_delay_ms;
    }
}

/// The screen edge the dock sits on.
#[derive(Debug, Clone, Copy, PartialEq, Eq, Structural)]
pub enum DockSide {
    Left,
    Right,
}

pub open spec fn lower_char(c: char) -> char {
    if 'A' <= c && c <= 'Z' { ((c as u8) + 32) as char } else { c }
}

/// `s` equals `left` ignoring ASCII case.
pub open spec fn is_left(s: Seq<char>) -> bool {
    s.len() == 4 && lower_char(s[0]) == 'l' && lower_char(s[1]) == 'e' && lower_char(s[2]) == 'f' && lower_char(s[3]) == 't'
}

impl DockSide {
    /// `left` in any ASCII case is the left edge; anything else the right.
    pub fn parse(s: &str) -> (d: DockSide)
        ensures
            d == if is_left(s@) { DockSide::Left } else { DockSide::Right },
    {
        let v = chars_of(s);
        if v.len() == 4 && lower(v[0]) == 'l' && lower(v[1]) == 'e' && lower(v[2]) == 'f' && lower(v[3]) == 't' {
            DockSide::Left
        } else {
            DockSide::Right
        }
    }
}

fn lower(c: char) -> (r: char)
    ensures
        r == lower_char(c),
{
    if 'A' <= c && c <= 'Z' { ((c as u8) + 32) as char } else { c }
}

/// The hover state.
#[derive(Debug, Clone, Copy, PartialEq, Eq, Structural)]
pub enum DockState {
    Hidden,
    Peeking,
    Expanded,
}

/// What the loop must do on the dock window, in order.
#[derive(Debug, Clone, Copy, PartialEq, Eq, Structural)]
pub enum DockEffect {
    /// Move the dock to this edge.
    Reposition(DockSide),
    /// Emit `dock:state` with `hidden`.
    EmitHidden,
    /// Emit `dock:state` with `expanded`.
    EmitExpanded,
    Hide,
    Show,
    /// Let mouse events pass through the window (or not).
    IgnoreCursor(bool),
}

/// What one tick observes.
#[derive(Debug, Clone, Copy)]
pub struct DockInput {
    pub now_ms: u64,
    pub side: DockSide,
    pub enabled: bool,
    pub visible: bool,
    /// The cursor in physical pixels, when known.
    pub cursor: Option<(i32, i32)>,
    /// The dock window's outer position, when known.
    pub window_pos: Option<(i32, i32)>,
    /// The hot-zone width in physical pixels.
    pub hotzone: i32,
    pub expand_delay_ms: u64,
}

/// The loop's memory between ticks.
#[derive(Debug, Clone, Copy, PartialEq, Eq, Structural)]
pub struct DockMachine {
    pub state: DockState,
    pub was_in_hotzone: bool,
    pub pass_through: bool,
    pub last_change_ms: u64,
    pub applied_side: Option<DockSide>,
    pub pending_expand_ms: Option<u64>,
}

/// The expansion deadline (`now + delay`) fits in milliseconds as `u64`; the
/// hot-zone geometry is computed without bounds.
pub open spec fn input_bounded(i: DockInput) -> bool {
    i.now_ms + i.expand_delay_ms <= u64::MAX
}

/// Whether the cursor is in the hot zone: the edge strip while hidden or
/// peeking, the whole window once expanded, within the window's height.
pub open spec fn in_hotzone_spec(state: DockState, side: DockSide, c: (i32, i32), p: (i32, i32), hotzone: i32) -> bool {
    let in_y = p.1 <= c.1 <= p.1 + DOCK_H;
    let in_strip = match side {
        DockSide::Right => p.0 + DOCK_W - hotzone <= c.0 <= p.0 + DOCK_W,
        DockSide::Left => p.0 <= c.0 <= p.0 + hotzone,
    };
    match state {
        DockState::Expanded => in_y && p.0 <= c.0 <= p.0 + DOCK_W,
        _ => in_y && in_strip,
    }
}

/// The part of a tick after the cooldown, given where the cursor is.
pub open spec fn hover_step(m: DockMachine, i: DockInput, inz: bool) -> (DockMachine, Seq<DockEffect>) {
    // the hover transition
    let (m1, e1) = if m.state == DockState::Hidden && inz && !m.was_in_hotzone {
        (DockMachine { pending_expand_ms: Some((i.now_ms + i.expand_delay_ms) as u64), ..m }, Seq::<DockEffect>::empty())
    } else if m.state == DockState::Hidden && !inz {
        if !m.pass_through {
            (DockMachine { pass_through: true, ..m }, seq![DockEffect::IgnoreCursor(true)])
        } else {
            (m, Seq::<DockEffect>::empty())
        }
    } else if m.state == DockState::Expanded && !inz && m.was_in_hotzone {
        (DockMachine { state: DockState::Peeking, last_change_ms: i.now_ms, ..m }, seq![DockEffect::EmitHidden])
    } else {
        (m, Seq::<DockEffect>::empty())
    };
    // peeking collapses once the cursor leaves
    let m2 = if m1.state == DockState::Peeking && !inz {
        DockMachine { state: DockState::Hidden, last_change_ms: i.now_ms, ..m1 }
    } else {
        m1
    };
    // a pending expansion fires once due, or is dropped
    let (m3, e3) = match m2.pending_expand_ms {
        None => (m2, Seq::<DockEffect>::empty()),
        Some(deadline) => if !inz || m2.state != DockState::Hidden {
            (DockMachine { pending_expand_ms: None, ..m2 }, Seq::<DockEffect>::empty())
        } else if i.now_ms >= deadline {
            (
                DockMachine { pending_expand_ms: None, pass_through: false, state: DockState::Expanded, last_change_ms: i.now_ms, ..m2 },
                seq![DockEffect::IgnoreCursor(false), DockEffect::EmitExpanded],
            )
        } else {
            (m2, Seq::<DockEffect>::empty())
        },
    };
    (DockMachine { was_in_hotzone: inz, ..m3 }, e1 + e3)
}

/// One tick of the dock loop: re-place the dock when its edge changed; hide
/// it while disabled; show it (click-through) when it was not visible; then,
/// past the cooldown and with a known cursor and window, run the hover step.
pub open spec fn dock_step(m: DockMachine, i: DockInput) -> (DockMachine, Seq<DockEffect>) {
    let (m0, e0) = if m.applied_side != Some(i.side) {
        (
            DockMachine { applied_side: Some(i.side), state: DockState::Hidden, was_in_hotzone: false, last_change_ms: i.now_ms, ..m },
            seq![DockEffect::Reposition(i.side), DockEffect::EmitHidden],
        )
    } else {
        (m, Seq::<DockEffect>::empty())
    };
    if !i.enabled {
        (
            DockMachine { state: DockState::Hidden, was_in_hotzone: false, ..m0 },
            e0 + if i.visible { seq![DockEffect::Hide] } else { Seq::<DockEffect>::empty() },
        )
    } else {
        let (m1, e1) = if !i.visible {
            (
                DockMachine { pass_through: true, state: DockState::Hidden, was_in_hotzone: false, last_change_ms: i.now_ms, ..m0 },
                seq![DockEffect::Show, DockEffect::IgnoreCursor(true)],
            )
        } else {
            (m0, Seq::<DockEffect>::empty())
        };
        if i.now_ms < m1.last_change_ms + COOLDOWN_MS {
            (m1, e0 + e1)
        } else {
            match (i.cursor, i.window_pos) {
                (Some(c), Some(p)) => {
                    let (m2, e2) = hover_step(m1, i, in_hotzone_spec(m1.state, i.side, c, p, i.hotzone));
                    (m2, e0 + e1 + e2)
                },
                _ => (m1, e0 + e1),
            }
        }
    }
}

/// An expanded dock takes clicks: it never lets them pass through.
pub open spec fn blocks_when_expanded(m: DockMachine) -> bool {
    m.state == DockState::Expanded ==> !m.pass_through
}

/// Every tick keeps an expanded dock click-taking (a fresh machine is hidden,
/// so it holds from the start).
pub proof fn lemma_expanded_blocks_clicks(m: DockMachine, i: DockInput)
    requires
        blocks_when_expanded(m),
    ensures
        blocks_when_expanded(dock_step(m, i).0),
{
}

/// A disabled dock ends every tick hidden.
pub proof fn lemma_disabled_dock_hidden(m: DockMachine, i: DockInput)
    ensures
        !i.enabled ==> dock_step(m, i).0.state == DockState::Hidden,
{
}

/// A settled hidden dock, on the edge it is drawn at, past its cooldown and
/// with no expansion pending.
pub open spec fn settled_hidden(m: DockMachine, i: DockInput) -> bool {
    &&& m.state == DockState::Hidden
    &&& m.applied_side == Some(i.side)
    &&& !m.was_in_hotzone
    &&& m.pending_expand_ms is None
    &&& i.enabled
    &&& i.visible
    &&& i.now_ms >= m.last_change_ms + COOLDOWN_MS
    &&& i.expand_delay_ms == 0
}

/// The hot strip of a hidden dock lies on the screen edge it is docked to:
/// for a left dock the strip of width `hotzone` starting at the window's left
/// edge, for a right dock the strip ending at its right edge. With no expand
/// delay, a cursor inside that strip (and within the window's height)
/// expands the dock in one tick, first taking clicks and then announcing it;
/// a cursor elsewhere leaves it hidden.
pub proof fn lemma_hidden_dock_expands_from_its_edge(m: DockMachine, i: DockInput, x: i32, y: i32, p: (i32, i32))
    requires
        settled_hidden(m, i),
        i.cursor == Some((x, y)),
        i.window_pos == Some(p),
        p.1 <= y <= p.1 + DOCK_H,
        0 <= i.hotzone <= DOCK_W,
    ensures
        ({
            let in_strip = match i.side {
                DockSide::Left => p.0 <= x <= p.0 + i.hotzone,
                DockSide::Right => p.0 + DOCK_W - i.hotzone <= x <= p.0 + DOCK_W,
            };
            &&& in_strip ==> dock_step(m, i).0.state == DockState::Expanded
                && dock_step(m, i).1 == seq![DockEffect::IgnoreCursor(false), DockEffect::EmitExpanded]
            &&& !in_strip ==> dock_step(m, i).0.state == DockState::Hidden
        }),
{
    assert(dock_step(m, i).1 =~= Seq::<DockEffect>::empty() + Seq::<DockEffect>::empty() + hover_step(m, i, in_hotzone_spec(m.state, i.side, (x, y), p, i.hotzone)).1);
}

/// The two hot strips mirror each other across the window's vertical centre
/// line: a point is in a hidden left dock's strip exactly when its mirror
/// image is in a hidden right dock's strip at the same place. In particular
/// the left strip holds the window's left edge and the right strip its right
/// edge.
pub proof fn lemma_hot_strips_mirror(state: DockState, x: int, y: i32, p: (i32, i32), hotzone: i32)
    requires
        state != DockState::Expanded,
        0 <= hotzone,
        p.1 <= y <= p.1 + DOCK_H,
        i32::MIN <= 2 * p.0 + DOCK_W - x <= i32::MAX,
        i32::MIN <= x <= i32::MAX,
    ensures
        in_hotzone_spec(state, DockSide::Left, (x as i32, y), p, hotzone)
            <==> in_hotzone_spec(state, DockSide::Right, ((2 * p.0 + DOCK_W - x) as i32, y), p, hotzone),
        in_hotzone_spec(state, DockSide::Left, (p.0, y), p, hotzone),
        p.0 + DOCK_W <= i32::MAX ==> in_hotzone_spec(state, DockSide::Right, ((p.0 + DOCK_W) as i32, y), p, hotzone),
{
}

/// A dock on the edge it is drawn at, enabled and shown.
pub open spec fn placed_and_shown(m: DockMachine, i: DockInput) -> bool {
    &&& m.applied_side == Some(i.side)
    &&& i.enabled
    &&& i.visible
}

/// Within the cooldown after a state change nothing happens: the machine
/// and the window stay as they are.
pub proof fn lemma_cooldown_is_quiet(m: DockMachine, i: DockInput)
    requires
        placed_and_shown(m, i),
        i.now_ms < m.last_change_ms + COOLDOWN_MS,
    ensures
        dock_step(m, i).0 == m,
        dock_step(m, i).1 == Seq::<DockEffect>::empty(),
{
    assert(dock_step(m, i).1 =~= Seq::<DockEffect>::empty());
}

/// An expanded dock the cursor was over stays expanded, silently, while the
/// cursor is anywhere over the window; once the cursor leaves the window it
/// collapses to hidden and announces it.
pub proof fn lemma_expanded_dock_collapses_when_left(m: DockMachine, i: DockInput, x: i32, y: i32, p: (i32, i32))
    requires
        placed_and_shown(m, i),
        m.state == DockState::Expanded,
        m.was_in_hotzone,
        m.pending_expand_ms is None,
        i.now_ms >= m.last_change_ms + COOLDOWN_MS,
        i.cursor == Some((x, y)),
        i.window_pos == Some(p),
    ensures
        ({
            let over = p.0 <= x <= p.0 + DOCK_W && p.1 <= y <= p.1 + DOCK_H;
            &&& over ==> dock_step(m, i).0.state == DockState::Expanded && dock_step(m, i).1 == Seq::<DockEffect>::empty()
            &&& !over ==> dock_step(m, i).0.state == DockState::Hidden && dock_step(m, i).1 == seq![DockEffect::EmitHidden]
        }),
{
    assert(dock_step(m, i).1 =~= Seq::<DockEffect>::empty() + Seq::<DockEffect>::empty() + hover_step(m, i, in_hotzone_spec(m.state, i.side, (x, y), p, i.hotzone)).1);
}

/// With an expand delay, entering the hot strip only schedules the
/// expansion `delay` milliseconds ahead and the dock stays hidden; a later
/// tick at or past that time, with the cursor still in the strip, expands it.
pub proof fn lemma_expand_delay(m: DockMachine, i: DockInput, j: DockInput, x: i32, y: i32, p: (i32, i32))
    requires
        m.state == DockState::Hidden,
        placed_and_shown(m, i),
        !m.was_in_hotzone,
        m.pending_expand_ms is None,
        i.now_ms >= m.last_change_ms + COOLDOWN_MS,
        i.expand_delay_ms > 0,
        input_bounded(i),
        i.cursor == Some((x, y)),
        i.window_pos == Some(p),
        in_hotzone_spec(DockState::Hidden, i.side, (x, y), p, i.hotzone),
        // the next tick: same place, cursor still in the strip, deadline reached
        j.side == i.side && j.enabled && j.visible,
        j.cursor == i.cursor && j.window_pos == i.window_pos && j.hotzone == i.hotzone,
        j.now_ms >= i.now_ms + i.expand_delay_ms,
    ensures
        dock_step(m, i).0.state == DockState::Hidden,
        dock_step(m, i).0.pending_expand_ms == Some((i.now_ms + i.expand_delay_ms) as u64),
        dock_step(m, i).1 == Seq::<DockEffect>::empty(),
        dock_step(dock_step(m, i).0, j).0.state == DockState::Expanded,
{
    let m1 = dock_step(m, i).0;
    assert(dock_step(m, i).1 =~= Seq::<DockEffect>::empty());
    assert(m1.last_change_ms == m.last_change_ms);
}

impl DockMachine {
    /// The state before the first tick.
    pub fn new(now_ms: u64) -> (m: DockMachine)
        ensures
            m == (DockMachine { state: DockState::Hidden, was_in_hotzone: false, pass_through: true, last_change_ms: now_ms, applied_side: None, pending_expand_ms: None }),
    {
        DockMachine { state: DockState::Hidden, was_in_hotzone: false, pass_through: true, last_change_ms: now_ms, applied_side: None, pending_expand_ms: None }
    }

    /// Runs one tick and returns what to do on the window, in order.
    pub fn step(&mut self, i: &DockInput) -> (effects: Vec<DockEffect>)
        requires
            input_bounded(*i),
        ensures
            (*final(self), effects@) == dock_step(*old(self), *i),
    {
        let mut effects: Vec<DockEffect> = Vec::new();
        if self.applied_side != Some(i.side) {
            effects.push(DockEffect::Reposition(i.side));
            effects.push(DockEffect::EmitHidden);
            self.applied_side = Some(i.side);
            self.state = DockState::Hidden;
            self.was_in_hotzone = false;
            self.last_change_ms = i.now_ms;
        }
        if !i.enabled {
            self.state = DockState::Hidden;
            if i.visible {
                effects.push(DockEffect::Hide);
            }
            self.was_in_hotzone = false;
            return effects;
        }
        if !i.visible {
            effects.push(DockEffect::Show);
            effects.push(DockEffect::IgnoreCursor(true));
            self.pass_through = true;
            self.state = DockState::Hidden;
            self.was_in_hotzone = false;
            self.last_change_ms = i.now_ms;
        }
        if i.now_ms < self.last_change_ms || i.now_ms - self.last_change_ms < COOLDOWN_MS {
            return effects;
        }
        let (c, p) = match (i.cursor, i.window_pos) {
            (Some(c), Some(p)) => (c, p),
            _ => return effects,
        };
        // widened so that no sum of coordinates can overflow
        let (cx, cy, px, py, hz) = (c.0 as i64, c.1 as i64, p.0 as i64, p.1 as i64, i.hotzone as i64);
        let (dw, dh) = (DOCK_W as i64, DOCK_H as i64);
        let in_window_y = cy >= py && cy <= py + dh;
        let in_strip = match i.side {
            DockSide::Right => cx >= px + dw - hz && cx <= px + dw,
            DockSide::Left => cx >= px && cx <= px + hz,
        };
        let inz = match self.state {
            DockState::Expanded => in_window_y && cx >= px && cx <= px + dw,
            _ => in_window_y && in_strip,
        };
        if self.state == DockState::Hidden && inz && !self.was_in_hotzone {
            self.pending_expand_ms = Some(i.now_ms + i.expand_delay_ms);
        } else if self.state == DockState::Hidden && !inz {
            if !self.pass_through {
                effects.push(DockEffect::IgnoreCursor(true));
                self.pass_through = true;
            }
        } else if self.state == DockState::Expanded && !inz && self.was_in_hotzone {
            self.state = DockState::Peeking;
            self.last_change_ms = i.now_ms;
            effects.push(DockEffect::EmitHidden);
        }
        if self.state == DockState::Peeking && !inz {
            self.state = DockState::Hidden;
            self.last_change_ms = i.now_ms;
        }
        match self.pending_expand_ms {
            None => {},
            Some(deadline) => {
                if !inz || self.state != DockState::Hidden {
                    self.pending_expand_ms = None;
                } else if i.now_ms >= deadline {
                    self.pending_expand_ms = None;
                    effects.push(DockEffect::IgnoreCursor(false));
                    self.pass_through = false;
                    self.state = DockState::Expanded;
                    self.last_change_ms = i.now_ms;
                    effects.push(DockEffect::EmitExpanded);
                }
            },
        }
        self.was_in_hotzone = inz;
        proof {
            assert(effects@ =~= dock_step(*old(self), *i).1);
        }
        effects
    }
}

} // verus!
