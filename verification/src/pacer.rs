use vstd::prelude::*;

verus! {

/// Two paints closer than half a refresh interval are one paint: the second
/// is dropped. Where no refresh interval is known, this window (in
/// microseconds, half a refresh at 240 Hz) is used.
pub const COALESCE_US: u64 = 2000;

/// How close (in microseconds) a paint may follow the last one before it is
/// dropped: half the display's refresh interval `interval_us` where one is
/// known, else `COALESCE_US`.
pub open spec fn coalesce_window(interval_us: Option<u64>) -> u64 {
    match interval_us {
        Some(i) if i > 0 => (i / 2) as u64,
        _ => COALESCE_US,
    }
}

/// How long the window sleeps between paints while idle, in microseconds.
pub const IDLE_WAKE_US: u64 = 33000;

/// What keeps the window drawing at full rate.
pub struct Activity {
    pub physics_on: bool,
    pub layout_animating: bool,
    /// The view still glides after a flick (its speed squared above 4).
    pub coasting: bool,
    pub pan_dragging: bool,
    pub node_dragging: bool,
}

impl Activity {
    /// Something on screen is moving.
    pub open spec fn moving(&self) -> bool {
        self.physics_on || self.layout_animating || self.coasting || self.pan_dragging || self.node_dragging
    }
}

/// Whether to draw at the display's full rate: while anything moves; else,
/// only with the window focused and input less than `grace_us` ago.
pub fn needs_full_speed(activity: &Activity, focused: bool, idle_us: u64, grace_us: u64) -> (r: bool)
    ensures
        r == (activity.moving() || (focused && idle_us < grace_us)),
{
    let moving = activity.physics_on || activity.layout_animating || activity.coasting || activity.pan_dragging
        || activity.node_dragging;
    if moving {
        return true;
    }
    if !focused {
        return false;
    }
    idle_us < grace_us
}

/// The window events the pacing logic tells apart.
#[derive(PartialEq, Eq, Structural, Clone, Copy, Debug)]
pub enum WindowSignal {
    CloseRequested,
    Destroyed,
    Resized,
    RedrawRequested,
    Focused(bool),
    /// Pointer, wheel, keyboard, IME, touch or gesture input.
    Input,
    Other,
}

/// What to do with a window event.
pub struct EventPlan {
    pub exit: bool,
    pub resize: bool,
    pub paint: bool,
    /// Tell the view it gained (`Some(true)`) or lost focus.
    pub focus: Option<bool>,
    /// Restart the idle clock.
    pub touch: bool,
    /// Ask the window for a paint now.
    pub request_redraw: bool,
    /// Hand the event on to the user-interface layer.
    pub forward: bool,
}

/// The frame pacer: when the last paint was and when an idle wake-up is due
/// (microseconds on a monotonic clock).
pub struct Pacer {
    pub last_paint_us: Option<u64>,
    pub next_idle_wake_us: Option<u64>,
}

/// The plan for a window event, given whether the pacer is idle (waiting
/// on its wake-up timer).
pub open spec fn event_plan(idle: bool, ev: WindowSignal, p: EventPlan) -> bool {
    match ev {
        WindowSignal::CloseRequested | WindowSignal::Destroyed => p.exit && !p.resize && !p.paint && p.focus is None
            && !p.touch && !p.request_redraw && !p.forward,
        WindowSignal::RedrawRequested => !p.exit && !p.resize && p.paint && p.focus is None && !p.touch
            && !p.request_redraw && !p.forward,
        WindowSignal::Focused(f) => !p.exit && !p.resize && !p.paint && p.focus == Some(f) && !p.touch
            && p.request_redraw == (f && idle) && p.forward,
        WindowSignal::Input => !p.exit && !p.resize && !p.paint && p.focus is None && p.touch && p.request_redraw
            == idle && p.forward,
        WindowSignal::Resized => !p.exit && p.resize && !p.paint && p.focus is None && !p.touch && !p.request_redraw
            && p.forward,
        WindowSignal::Other => !p.exit && !p.resize && !p.paint && p.focus is None && !p.touch && !p.request_redraw
            && p.forward,
    }
}

impl Pacer {
    /// No paint yet, not idle.
    pub fn new() -> (p: Pacer)
        ensures
            p.last_paint_us is None,
            p.next_idle_wake_us is None,
    {
        Pacer { last_paint_us: None, next_idle_wake_us: None }
    }

    /// Waiting on the idle timer rather than on display ticks.
    pub fn is_idle(&self) -> (r: bool)
        ensures
            r == self.next_idle_wake_us is Some,
    {
        self.next_idle_wake_us.is_some()
    }

    /// What to do with a window event. While active, input never asks for
    /// a paint: display ticks drive the paints.
    pub fn on_event(&self, ev: WindowSignal) -> (p: EventPlan)
        ensures
            event_plan(self.next_idle_wake_us is Some, ev, p),
    {
        let idle = self.is_idle();
        let none = EventPlan {
            exit: false,
            resize: false,
            paint: false,
            focus: None,
            touch: false,
            request_redraw: false,
            forward: true,
        };
        match ev {
            WindowSignal::CloseRequested | WindowSignal::Destroyed => EventPlan { exit: true, forward: false, ..none },
            WindowSignal::RedrawRequested => EventPlan { paint: true, forward: false, ..none },
            WindowSignal::Focused(f) => EventPlan { focus: Some(f), request_redraw: f && idle, ..none },
            WindowSignal::Input => EventPlan { touch: true, request_redraw: idle, ..none },
            WindowSignal::Resized => EventPlan { resize: true, ..none },
            WindowSignal::Other => none,
        }
    }

    /// The idle timer fired: ask for a paint and leave idle.
    pub fn on_wake(&mut self)
        ensures
            final(self).next_idle_wake_us is None,
            final(self).last_paint_us == old(self).last_paint_us,
    {
        self.next_idle_wake_us = None;
    }

    /// A paint is due at `now_us`; `interval_us` is the display's refresh
    /// interval where one is known. Returns `None` where the paint falls
    /// within half a refresh of the last paint (`coalesce_window`; nothing
    /// changes); else the paint goes ahead, is recorded, and the result says
    /// when to wake next: `None` to wait for display ticks at full speed,
    /// else `IDLE_WAKE_US` from now.
    pub fn begin_paint(&mut self, now_us: u64, full_speed: bool, interval_us: Option<u64>) -> (r: Option<Option<u64>>)
        requires
            now_us + IDLE_WAKE_US <= u64::MAX,
        ensures
            r is None <==> paint_dropped(old(self).last_paint_us, now_us, interval_us),
            r is None ==> *final(self) == *old(self),
            r matches Some(wake) ==> {
                &&& final(self).last_paint_us == Some(now_us)
                &&& wake == (if full_speed {
                    None
                } else {
                    Some((now_us + IDLE_WAKE_US) as u64)
                })
                &&& final(self).next_idle_wake_us == wake
            },
    {
        let window = match interval_us {
            Some(i) => if i > 0 {
                i / 2
            } else {
                COALESCE_US
            },
            None => COALESCE_US,
        };
        if let Some(prev) = self.last_paint_us {
            if now_us < prev || now_us - prev < window {
                return None;
            }
        }
        let wake = if full_speed {
            None
        } else {
            Some(now_us + IDLE_WAKE_US)
        };
        self.next_idle_wake_us = wake;
        self.last_paint_us = Some(now_us);
        Some(wake)
    }
}

/// A paint requested at `now_us` is dropped: the last one was less than
/// half a refresh interval earlier (`coalesce_window`), or the clock reads
/// earlier than it.
pub open spec fn paint_dropped(last_paint_us: Option<u64>, now_us: u64, interval_us: Option<u64>) -> bool {
    match last_paint_us {
        Some(prev) => now_us < prev + coalesce_window(interval_us),
        None => false,
    }
}

/// After a paint at `t`, requests less than half a refresh interval later
/// are dropped and later ones go ahead (2 ms where the interval is unknown);
/// the first request of all always goes ahead.
pub proof fn law_paints_coalesce(t: u64, later: u64, interval_us: u64)
    requires
        interval_us > 0,
    ensures
        paint_dropped(Some(t), later, Some(interval_us)) <==> later < t + interval_us / 2,
        paint_dropped(Some(t), later, None) <==> later < t + COALESCE_US,
        !paint_dropped(None, later, Some(interval_us)),
{
}

/// Input asks for a paint only while the pacer is idle, never paints by
/// itself, and always reaches the user interface and the idle clock.
pub proof fn law_input_paints_only_when_idle(idle: bool, p: EventPlan)
    requires
        event_plan(idle, WindowSignal::Input, p),
    ensures
        p.request_redraw == idle,
        !p.paint,
        p.forward && p.touch,
{
}

} // verus!
