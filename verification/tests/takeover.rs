use niri_display::json::{encode_json, parse_json};
use niri_display::niri_ipc::{outputs, workspaces, IpcError, NiriOutput, NiriWorkspace};
use niri_display::takeover::{
    acquire_blocking, consolidate_workspaces_to, listed_outputs, missing_output_request,
    next_release_epoch, restore_orphaned_takeover, restore_outputs, restored, sentinel_path, sentinel_text,
    session_takeover_acquire, session_takeover_release, takeover_active, AcquireAction,
    AcquireEvent, AcquireState, OrphanAction, RestoreAction, SessionTakeover,
};

fn output(name: &str, make: &str, on: bool) -> String {
    let mode = if on {
        r#""current_mode": 0, "modes": [{"width": 1920, "height": 1080, "refresh_rate": 60000}],
           "logical": {"x": 0, "y": 0, "width": 960, "height": 540, "scale": 2.0}"#
    } else {
        r#""current_mode": null, "modes": []"#
    };
    format!(r#""{name}": {{"name": "{name}", "make": "{make}", "model": "virtual", {mode}}}"#)
}

fn list(items: &[(&str, &str, bool)]) -> Vec<NiriOutput> {
    let all: Vec<String> = items.iter().map(|(n, m, on)| output(n, m, *on)).collect();
    let reply = format!(r#"{{"Outputs": {{{}}}}}"#, all.join(", "));
    outputs(Ok(parse_json(&reply).unwrap())).unwrap()
}

fn begun(epoch: u64) -> AcquireState {
    let state = session_takeover_acquire(true, epoch).unwrap();
    let (state, action) =
        acquire_blocking(state, AcquireEvent::Begin { held: false, release_epoch: epoch });
    assert!(matches!(action, AcquireAction::AskOutputs));
    state
}

fn names(list: &[&str]) -> Vec<String> {
    list.iter().map(|s| s.to_string()).collect()
}

#[test]
fn nothing_is_asked_for_unless_it_is_enabled() {
    assert!(session_takeover_acquire(false, 3).is_none());
    assert!(matches!(session_takeover_acquire(true, 3), Some(AcquireState::Start { epoch: 3 })));
}

#[test]
fn a_takeover_that_is_held_or_outdated_is_not_begun() {
    for (held, release_epoch) in [(true, 5), (false, 6)] {
        let state = session_takeover_acquire(true, 5).unwrap();
        let (state, action) = acquire_blocking(state, AcquireEvent::Begin { held, release_epoch });
        assert!(matches!(state, AcquireState::Ended));
        assert!(matches!(action, AcquireAction::Stop));
    }
}

#[test]
fn a_takeover_turns_the_physical_outputs_off() {
    let outs = list(&[
        ("DP-1", "Dell", true),
        ("DP-2", "Dell", false),
        ("eDP-1", "BOE", true),
        ("v", "niri", true),
    ]);
    let (state, action) = acquire_blocking(begun(1), AcquireEvent::Outputs(Ok(outs)));
    match action {
        AcquireAction::WriteSentinel { names: n } => assert_eq!(n, names(&["DP-1", "eDP-1"])),
        other => panic!("{:?}", other),
    }
    let (state, action) = acquire_blocking(state, AcquireEvent::SentinelWritten);
    assert!(matches!(&action, AcquireAction::TurnOff { name } if name == "DP-1"));
    let (state, action) = acquire_blocking(state, AcquireEvent::TurnedOff { done: false });
    assert!(matches!(&action, AcquireAction::TurnOff { name } if name == "eDP-1"));
    let (state, action) = acquire_blocking(state, AcquireEvent::TurnedOff { done: true });
    assert!(matches!(action, AcquireAction::CountReleases));
    let (state, action) = acquire_blocking(state, AcquireEvent::Counted { release_epoch: 1 });
    assert!(matches!(state, AcquireState::Ended));
    match action {
        AcquireAction::Engage { disabled } => assert_eq!(disabled, names(&["eDP-1"])),
        other => panic!("{:?}", other),
    }
}

#[test]
fn a_session_that_vanished_gets_its_outputs_back() {
    let outs = list(&[("DP-1", "Dell", true), ("v", "niri", true)]);
    let (state, _) = acquire_blocking(begun(1), AcquireEvent::Outputs(Ok(outs)));
    let (state, _) = acquire_blocking(state, AcquireEvent::SentinelWritten);
    let (state, _) = acquire_blocking(state, AcquireEvent::TurnedOff { done: true });
    let (_, action) = acquire_blocking(state, AcquireEvent::Counted { release_epoch: 2 });
    match action {
        AcquireAction::Restore { names: n } => assert_eq!(n, names(&["DP-1"])),
        other => panic!("{:?}", other),
    }
}

#[test]
fn outputs_that_stay_on_need_no_sentinel() {
    let outs = list(&[("DP-1", "Dell", true), ("v", "niri", true)]);
    let (state, _) = acquire_blocking(begun(1), AcquireEvent::Outputs(Ok(outs)));
    let (state, _) = acquire_blocking(state, AcquireEvent::SentinelWritten);
    let (state, action) = acquire_blocking(state, AcquireEvent::TurnedOff { done: false });
    assert!(matches!(state, AcquireState::Ended));
    assert!(matches!(action, AcquireAction::RemoveSentinel));
}

#[test]
fn a_missing_virtual_output_is_created_for_the_next_session() {
    for outs in [list(&[("DP-1", "Dell", true)]), list(&[("DP-1", "Dell", true), ("v", "niri", false)])] {
        let (state, action) = acquire_blocking(begun(1), AcquireEvent::Outputs(Ok(outs)));
        assert!(matches!(action, AcquireAction::CreateVirtualOutput));
        let (state, action) = acquire_blocking(state, AcquireEvent::Created);
        assert!(matches!(state, AcquireState::Ended));
        assert!(matches!(action, AcquireAction::Stop));
    }
    assert_eq!(
        encode_json(&missing_output_request()),
        r#"{"CreateVirtualOutput":{"height":1080,"name":"rustdesk-virtual-1","refresh_rate":60,"scale":2.0,"width":1920}}"#
    );
}

#[test]
fn without_physical_outputs_the_session_is_looked_for_too() {
    let counted = |release_epoch: u64| {
        let outs = list(&[("v", "niri", true)]);
        let (state, action) = acquire_blocking(begun(1), AcquireEvent::Outputs(Ok(outs)));
        assert!(matches!(action, AcquireAction::CountReleases));
        let (state, action) = acquire_blocking(state, AcquireEvent::Counted { release_epoch });
        assert!(matches!(state, AcquireState::Ended));
        action
    };
    assert!(matches!(counted(1), AcquireAction::Engage { disabled } if disabled.is_empty()));
    assert!(matches!(counted(2), AcquireAction::Stop));
}

#[test]
fn a_compositor_that_cannot_be_asked_ends_it() {
    let (state, action) = acquire_blocking(begun(1), AcquireEvent::Outputs(Err(IpcError::NoSocket)));
    assert!(matches!(state, AcquireState::Ended));
    assert!(matches!(action, AcquireAction::Stop));
}

#[test]
fn a_release_gives_up_what_is_held() {
    let mut held = Some(SessionTakeover { disabled: names(&["DP-1"]) });
    assert!(takeover_active(&held));
    assert_eq!(session_takeover_release(&mut held), Some(names(&["DP-1"])));
    assert!(!takeover_active(&held));
    assert_eq!(session_takeover_release(&mut held), None);
    assert_eq!(next_release_epoch(4), 5);
    assert_eq!(next_release_epoch(u64::MAX), 0);
}

#[test]
fn a_sentinel_is_read_back() {
    let written = names(&["DP-1", "a \"quoted\"\nname", ""]);
    let text = sentinel_text(&written);
    assert_eq!(text, "{\"outputs\":[\"DP-1\",\"a \\\"quoted\\\"\\nname\",\"\"]}");
    match restore_orphaned_takeover(&text) {
        OrphanAction::Restore { names } => assert_eq!(names, written),
        other => panic!("{:?}", other),
    }
    assert_eq!(sentinel_text(&Vec::new()), r#"{"outputs":[]}"#);
}

#[test]
fn an_orphaned_sentinel_that_names_nothing_is_removed() {
    for text in ["", "{", "[]", "{}", r#"{"outputs": "DP-1"}"#, r#"{"outputs": []}"#, r#"{"outputs": [1, null]}"#] {
        assert!(matches!(restore_orphaned_takeover(text), OrphanAction::RemoveSentinel), "{}", text);
    }
    assert_eq!(
        listed_outputs(parse_json(r#"{"outputs": [1, "DP-1", null, "DP-2"]}"#).ok()),
        names(&["DP-1", "DP-2"])
    );
    assert!(listed_outputs(None).is_empty());
}

#[test]
fn the_sentinel_is_in_the_runtime_directory() {
    assert_eq!(
        sentinel_path(&b"/run/user/1000".to_vec()),
        b"/run/user/1000/rustdesk-niri-takeover.json".to_vec()
    );
}

// The steps of giving outputs back, of which those in `fail` do not come on.
fn steps_with(list: &[&str], fail: &[&str], consolidate: bool) -> Vec<String> {
    let all = names(list);
    let mut outcomes = Vec::new();
    let mut seen = Vec::new();
    while let Some(action) = restore_outputs(&all, &outcomes, consolidate) {
        let mut done = true;
        seen.push(match action {
            RestoreAction::TurnOn { name } => {
                done = !fail.contains(&name.as_str());
                format!("on {name}")
            },
            RestoreAction::RemoveSentinel => "remove".to_owned(),
            RestoreAction::Wait { millis } => format!("wait {millis}"),
            RestoreAction::Consolidate { physical } => format!("consolidate {}", physical.join(",")),
            RestoreAction::WarmAvailability => "warm".to_owned(),
        });
        outcomes.push(done);
    }
    seen
}

fn steps(list: &[&str], consolidate: bool) -> Vec<String> {
    steps_with(list, &[], consolidate)
}

#[test]
fn outputs_are_restored_before_the_sentinel_goes() {
    assert_eq!(
        steps(&["DP-1", "DP-2"], true),
        vec!["on DP-1", "on DP-2", "remove", "wait 1500", "consolidate DP-1,DP-2", "warm"]
    );
    assert_eq!(steps(&["DP-1"], false), vec!["on DP-1", "remove", "warm"]);
    assert_eq!(steps(&[], true), vec!["remove"]);
    assert_eq!(steps(&[], false), vec!["remove"]);
}

fn spaces() -> Vec<NiriWorkspace> {
    workspaces(Ok(parse_json(
        r#"{"Workspaces": [
            {"id": 1, "output": "v", "active_window_id": 5},
            {"id": 2, "output": "v", "active_window_id": null},
            {"id": 3, "output": "DP-1", "active_window_id": 6},
            {"id": 4, "output": null, "active_window_id": 7},
            {"id": 5, "output": "v", "active_window_id": 8}]}"#,
    )
    .unwrap()))
    .unwrap()
}

#[test]
fn windowed_workspaces_leave_the_virtual_outputs() {
    let virtuals = list(&[("v", "niri", true)]);
    let moves = consolidate_workspaces_to(&names(&["DP-1", "DP-2"]), &virtuals, &Ok(spaces()));
    assert_eq!(moves, Some(("DP-1".to_owned(), vec![1, 5])));
    let moves = consolidate_workspaces_to(&names(&["DP-1"]), &Vec::new(), &Ok(spaces()));
    assert_eq!(moves, Some(("DP-1".to_owned(), vec![])));
    assert_eq!(consolidate_workspaces_to(&Vec::new(), &virtuals, &Ok(spaces())), None);
    assert_eq!(consolidate_workspaces_to(&names(&["DP-1"]), &virtuals, &Err(IpcError::NoSocket)), None);
}

#[test]
fn a_crash_in_a_takeover_is_recovered_from() {
    let outs = list(&[("DP-1", "Dell", true), ("DP-2", "Dell", true), ("v", "niri", true)]);
    let (state, action) = acquire_blocking(begun(1), AcquireEvent::Outputs(Ok(outs)));
    let sentinel = match action {
        AcquireAction::WriteSentinel { names } => sentinel_text(&names),
        other => panic!("{:?}", other),
    };
    let (state, _) = acquire_blocking(state, AcquireEvent::SentinelWritten);
    let (_, action) = acquire_blocking(state, AcquireEvent::TurnedOff { done: true });
    assert!(matches!(action, AcquireAction::TurnOff { .. }));
    // The process dies here, with DP-1 off.
    match restore_orphaned_takeover(&sentinel) {
        OrphanAction::Restore { names } => {
            let names: Vec<&str> = names.iter().map(|n| n.as_str()).collect();
            assert_eq!(steps(&names, true)[..2], ["on DP-1", "on DP-2"]);
        },
        other => panic!("{:?}", other),
    }
}

#[test]
fn a_release_undoes_a_takeover() {
    let outs = list(&[("DP-1", "Dell", true), ("v", "niri", true)]);
    let (state, _) = acquire_blocking(begun(1), AcquireEvent::Outputs(Ok(outs)));
    let (state, _) = acquire_blocking(state, AcquireEvent::SentinelWritten);
    let (state, _) = acquire_blocking(state, AcquireEvent::TurnedOff { done: true });
    let (_, action) = acquire_blocking(state, AcquireEvent::Counted { release_epoch: 1 });
    let mut held = match action {
        AcquireAction::Engage { disabled } => Some(SessionTakeover { disabled }),
        other => panic!("{:?}", other),
    };
    let released = session_takeover_release(&mut held).unwrap();
    let names: Vec<&str> = released.iter().map(|n| n.as_str()).collect();
    assert_eq!(steps(&names, true)[0], "on DP-1");
}

#[test]
fn workspaces_go_to_an_output_that_came_on() {
    assert_eq!(
        steps_with(&["DP-1", "HDMI-A-1"], &["DP-1"], true),
        vec!["on DP-1", "on HDMI-A-1", "remove", "wait 1500", "consolidate HDMI-A-1", "warm"]
    );
    assert_eq!(steps_with(&["DP-1"], &["DP-1"], true)[3], "consolidate ");
    let physical = restored(&names(&["DP-1", "HDMI-A-1"]), &vec![false, true]);
    let virtuals = list(&[("v", "niri", true)]);
    let moves = consolidate_workspaces_to(&physical, &virtuals, &Ok(spaces()));
    assert_eq!(moves, Some(("HDMI-A-1".to_owned(), vec![1, 5])));
    assert_eq!(restored(&names(&["a", "b", "c"]), &vec![true, false]), names(&["a"]));
    assert!(restored(&Vec::new(), &vec![true]).is_empty());
}
