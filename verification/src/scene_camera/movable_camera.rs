//! The decisions of a camera that the user pans by dragging.

use vstd::prelude::*;

verus! {

/// An input event of a button or key, as the camera sees it.
#[derive(Clone, Copy, Debug, PartialEq, Eq, Structural)]
pub struct ButtonEvent {
    /// Whether the event concerns the button that the camera watches.
    pub watched: bool,
    /// Whether the button is pressed after the event.
    pub pressed: bool,
}

/// Whether the watched button is pressed after the first `n` events, if any
/// of them concerns it: the last such event counts.
pub open spec fn latest_press_spec(events: Seq<ButtonEvent>, n: nat) -> Option<bool>
    decreases n,
{
    if n == 0 {
        None
    } else if events[n - 1].watched {
        Some(events[n - 1].pressed)
    } else {
        latest_press_spec(events, (n - 1) as nat)
    }
}

/// The latest state of the watched button is the state that the last event
/// concerning it leaves, whatever came before that event; there is none
/// exactly when no event concerns the button.
pub proof fn lemma_latest_press_is_last_watched(events: Seq<ButtonEvent>, n: nat)
    requires
        n <= events.len(),
    ensures
        latest_press_spec(events, n) is None <==> forall|k: int| 0 <= k < n ==> !#[trigger] events[k].watched,
        forall|k: int|
            0 <= k < n && #[trigger] events[k].watched && (forall|j: int| k < j < n ==> !events[j].watched)
                ==> latest_press_spec(events, n) == Some(events[k].pressed),
    decreases n,
{
    if n > 0 {
        lemma_latest_press_is_last_watched(events, (n - 1) as nat);
        assert forall|k: int|
            0 <= k < n && #[trigger] events[k].watched && (forall|j: int| k < j < n ==> !events[j].watched)
                implies latest_press_spec(events, n) == Some(events[k].pressed) by {
            if k < n - 1 {
                assert(!events[n - 1].watched);
            }
        }
        if latest_press_spec(events, n) is None {
            assert(!events[n - 1].watched);
        }
    }
}

/// Whether the watched button is pressed after `events`, if any of them
/// concerns it.
pub fn latest_press(events: &Vec<ButtonEvent>) -> (pressed: Option<bool>)
    ensures
        pressed == latest_press_spec(events@, events.len() as nat),
        pressed is None <==> forall|k: int| 0 <= k < events.len() ==> !#[trigger] events@[k].watched,
        forall|k: int|
            0 <= k < events.len() && #[trigger] events@[k].watched && (forall|j: int|
                k < j < events.len() ==> !events@[j].watched) ==> pressed == Some(events@[k].pressed),
{
    proof {
        lemma_latest_press_is_last_watched(events@, events.len() as nat);
    }
    let mut pressed: Option<bool> = None;
    let mut i: usize = 0;
    while i < events.len()
        invariant
            i <= events.len(),
            pressed == latest_press_spec(events@, i as nat),
        decreases events.len() - i,
    {
        if events[i].watched {
            pressed = Some(events[i].pressed);
        }
        i = i + 1;
    }
    pressed
}

/// What becomes of the panning state of the camera.
#[derive(Clone, Copy, Debug, PartialEq, Eq, Structural)]
pub enum PanChange {
    /// The camera keeps panning, or keeps not panning.
    Keep,
    /// Panning starts at the ground point under the cursor.
    Start,
    /// Panning stops.
    Stop,
}

/// What the camera does about panning in one update.
#[derive(Clone, Copy, Debug, PartialEq, Eq, Structural)]
pub struct PanDecision {
    /// Whether the camera's target moves by how far the ground point under
    /// the cursor moved away from the point where panning started.
    pub drag: bool,
    /// What becomes of the panning state.
    pub change: PanChange,
}

/// What the camera does about panning in one update, from whether it is
/// panning, the latest state of the left mouse button in this update (if it
/// changed) and whether the cursor points at the ground.
///
/// While panning, the camera drags whenever the cursor points at the
/// ground, and stops when the button is released. Otherwise it starts
/// panning when the button is pressed over the ground.
pub fn decide_pan(panning: bool, button: Option<bool>, cursor_on_ground: bool) -> (decision: PanDecision)
    ensures
        decision.drag == (panning && cursor_on_ground),
        decision.change == (if panning {
            if button == Some(false) {
                PanChange::Stop
            } else {
                PanChange::Keep
            }
        } else if button == Some(true) && cursor_on_ground {
            PanChange::Start
        } else {
            PanChange::Keep
        }),
{
    if panning {
        let change = match button {
            Some(false) => PanChange::Stop,
            _ => PanChange::Keep,
        };
        PanDecision { drag: cursor_on_ground, change }
    } else {
        let change = match button {
            Some(true) => if cursor_on_ground {
                PanChange::Start
            } else {
                PanChange::Keep
            },
            _ => PanChange::Keep,
        };
        PanDecision { drag: false, change }
    }
}

} // verus!
