use dyto_scene::scene_camera::movable_camera::{decide_pan, latest_press, ButtonEvent, PanChange, PanDecision};

fn event(watched: bool, pressed: bool) -> ButtonEvent {
    ButtonEvent { watched, pressed }
}

#[test]
fn latest_press_takes_the_last_watched_event() {
    assert_eq!(latest_press(&vec![]), None);
    assert_eq!(latest_press(&vec![event(false, true)]), None);
    assert_eq!(latest_press(&vec![event(true, true), event(false, false)]), Some(true));
    assert_eq!(latest_press(&vec![event(true, true), event(true, false)]), Some(false));
    assert_eq!(latest_press(&vec![event(true, false), event(false, false), event(true, true)]), Some(true));
}

#[test]
fn pan_starts_on_press_over_ground() {
    assert_eq!(decide_pan(false, Some(true), true), PanDecision { drag: false, change: PanChange::Start });
    assert_eq!(decide_pan(false, Some(true), false), PanDecision { drag: false, change: PanChange::Keep });
    assert_eq!(decide_pan(false, None, true), PanDecision { drag: false, change: PanChange::Keep });
    assert_eq!(decide_pan(false, Some(false), true), PanDecision { drag: false, change: PanChange::Keep });
}

#[test]
fn pan_drags_and_stops_on_release() {
    assert_eq!(decide_pan(true, None, true), PanDecision { drag: true, change: PanChange::Keep });
    assert_eq!(decide_pan(true, Some(false), true), PanDecision { drag: true, change: PanChange::Stop });
    assert_eq!(decide_pan(true, Some(false), false), PanDecision { drag: false, change: PanChange::Stop });
    assert_eq!(decide_pan(true, Some(true), false), PanDecision { drag: false, change: PanChange::Keep });
}
