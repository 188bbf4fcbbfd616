use niri_display::ipc_session::{
    candidate_sockets, decode_reply, payload, request, request_line, request_sockets, DirEntry,
};
use niri_display::json::{encode_json, parse_json, Json};
use niri_display::niri_ipc::{
    create_virtual_output, create_virtual_output_request, current_resolution_for,
    custom_mode_request, find_virtual, is_available, move_workspace_to_monitor,
    output_enabled_request, outputs, outputs_request, parse_output, remove_virtual_output,
    resolutions_for, set_custom_mode, set_output_enabled, version_request, virtual_outputs,
    workspaces, workspaces_request, IpcError, NiriOutput, Refresh,
};
use niri_display::paths::{join_path, runtime_dir};

const OUTPUTS: &str = r#"{"Outputs": {
    "b": {"name": "rustdesk-virtual-1", "make": "niri", "model": "virtual", "current_mode": 1,
          "modes": [{"width": 1, "height": 2, "refresh_rate": 3},
                    {"width": 1920, "height": 1080, "refresh_rate": 60000}],
          "logical": {"x": -5, "y": 7, "width": 960, "height": 540, "scale": 2.0}},
    "a": {"name": "eDP-1", "make": "BOE", "model": "NE135", "current_mode": 0,
          "modes": [{"width": 2256, "height": 1504, "refresh_rate": 59999}],
          "logical": {"x": 0, "y": 0, "width": 1504, "height": 1003, "scale": 1.5}},
    "c": {"name": "rustdesk-virtual-0", "make": "niri", "model": "virtual", "current_mode": null,
          "modes": [], "logical": null},
    "d": {"make": "nameless"}
}}"#;

fn json(text: &str) -> Json {
    parse_json(text).unwrap()
}

fn listed() -> Vec<NiriOutput> {
    outputs(Ok(json(OUTPUTS))).unwrap()
}

fn virtuals() -> Vec<NiriOutput> {
    virtual_outputs(Ok(listed()))
}

#[test]
fn outputs_are_read_and_sorted_by_name() {
    let list = listed();
    let names: Vec<&str> = list.iter().map(|o| o.name.as_str()).collect();
    assert_eq!(names, vec!["eDP-1", "rustdesk-virtual-0", "rustdesk-virtual-1"]);
    assert_eq!(list[0].mode, Some((2256, 1504, 59999)));
    assert_eq!(list[1].mode, None);
    assert!(list[1].logical.is_none());
    let l = list[2].logical.as_ref().unwrap();
    assert_eq!((l.x, l.y, l.width, l.height, l.scale.as_str()), (-5, 7, 960, 540, "2.0"));
}

#[test]
fn an_output_needs_a_name_only() {
    assert!(parse_output(&json(r#"{"make": "niri"}"#)).is_none());
    assert!(parse_output(&json(r#"{"name": 3}"#)).is_none());
    let o = parse_output(&json(r#"{"name": "x", "make": 1}"#)).unwrap();
    assert_eq!((o.name.as_str(), o.make.as_str(), o.model.as_str()), ("x", "", ""));
    assert!(o.mode.is_none() && o.logical.is_none());
}

#[test]
fn a_mode_has_to_be_complete_and_listed() {
    let mode = |text: &str| parse_output(&json(text)).unwrap().mode;
    assert_eq!(mode(r#"{"name": "x", "current_mode": 1, "modes": [{}]}"#), None);
    assert_eq!(mode(r#"{"name": "x", "current_mode": 0, "modes": [{"width": 1, "height": 2}]}"#), None);
    assert_eq!(mode(r#"{"name": "x", "current_mode": -1, "modes": [{}]}"#), None);
    // Values beyond the type wrap around.
    assert_eq!(
        mode(r#"{"name": "x", "current_mode": 0, "modes": [{"width": 65537, "height": 2, "refresh_rate": 4294967299}]}"#),
        Some((1, 2, 3))
    );
}

#[test]
fn a_reply_without_outputs_is_unexpected() {
    assert!(matches!(outputs(Ok(json(r#"{"Version": "1"}"#))), Err(IpcError::UnexpectedOutputs)));
    assert!(matches!(outputs(Ok(json(r#"{"Outputs": []}"#))), Err(IpcError::UnexpectedOutputs)));
    assert!(matches!(outputs(Err(IpcError::NoSocket)), Err(IpcError::NoSocket)));
}

#[test]
fn virtual_outputs_are_those_that_are_on() {
    let list = virtuals();
    assert_eq!(list.len(), 1);
    assert_eq!(list[0].name, "rustdesk-virtual-1");
    assert!(list[0].is_virtual());
    assert!(!listed()[0].is_virtual());
    assert!(virtual_outputs(Err(IpcError::NoSocket)).is_empty());
}

#[test]
fn virtual_outputs_are_found_by_name() {
    assert!(find_virtual(virtuals(), "eDP-1").is_none());
    assert!(find_virtual(virtuals(), "rustdesk-virtual-0").is_none());
    assert_eq!(find_virtual(virtuals(), "rustdesk-virtual-1").unwrap().mode, Some((1920, 1080, 60000)));
}

#[test]
fn resolutions_start_with_the_current_one() {
    let list = resolutions_for(virtuals(), "rustdesk-virtual-1").unwrap();
    let sizes: Vec<(i32, i32)> = list.iter().map(|r| (r.width, r.height)).collect();
    assert_eq!(
        sizes,
        vec![
            (1920, 1080),
            (3024, 1964),
            (2560, 1600),
            (2560, 1440),
            (1920, 1200),
            (1680, 1050),
            (1600, 900),
            (1440, 900),
            (1280, 800),
        ]
    );
    let current = current_resolution_for(virtuals(), "rustdesk-virtual-1").unwrap();
    assert_eq!((current.width, current.height), (1920, 1080));
    assert!(resolutions_for(virtuals(), "eDP-1").is_none());
    assert!(current_resolution_for(virtuals(), "eDP-1").is_none());
}

#[test]
fn a_resolution_of_its_own_comes_before_all_presets() {
    let mut list = virtuals();
    list[0].mode = Some((1000, 500, 60000));
    let offered = resolutions_for(list, "rustdesk-virtual-1").unwrap();
    assert_eq!(offered.len(), 10);
    assert_eq!((offered[0].width, offered[0].height), (1000, 500));
}

#[test]
fn requests_are_written_as_the_compositor_reads_them() {
    assert_eq!(encode_json(&version_request()), r#""Version""#);
    assert_eq!(encode_json(&outputs_request()), r#""Outputs""#);
    assert_eq!(encode_json(&workspaces_request()), r#""Workspaces""#);
    assert_eq!(
        encode_json(&output_enabled_request("DP-1", true)),
        r#"{"Output":{"action":"On","output":"DP-1"}}"#
    );
    assert_eq!(
        encode_json(&output_enabled_request("DP-1", false)),
        r#"{"Output":{"action":"Off","output":"DP-1"}}"#
    );
    assert_eq!(
        encode_json(&custom_mode_request("v", 1920, 1080, "59.94")),
        r#"{"Output":{"action":{"CustomMode":{"mode":{"height":1080,"refresh":59.94,"width":1920}}},"output":"v"}}"#
    );
    assert_eq!(
        encode_json(&move_workspace_to_monitor(7, "DP-1")),
        r#"{"Action":{"MoveWorkspaceToMonitor":{"output":"DP-1","reference":{"Id":7}}}}"#
    );
    assert_eq!(
        encode_json(&create_virtual_output_request("v", 800, 600, 60, Some("2.0"))),
        r#"{"CreateVirtualOutput":{"height":600,"name":"v","refresh_rate":60,"scale":2.0,"width":800}}"#
    );
    assert_eq!(
        encode_json(&create_virtual_output_request("v", 800, 600, 60, None)),
        r#"{"CreateVirtualOutput":{"height":600,"name":"v","refresh_rate":60,"scale":null,"width":800}}"#
    );
    assert_eq!(
        encode_json(&remove_virtual_output("v")),
        r#"{"RemoveVirtualOutput":{"name":"v"}}"#
    );
}

#[test]
fn a_request_is_one_line() {
    let line = request_line(&output_enabled_request("a\nb", true));
    assert_eq!(line, "{\"Output\":{\"action\":\"On\",\"output\":\"a\\nb\"}}\n");
}

#[test]
fn a_number_that_cannot_be_read_is_null() {
    assert_eq!(encode_json(&Json::fraction("2.5")), "2.5");
    assert_eq!(encode_json(&Json::fraction("inf")), "null");
    assert_eq!(encode_json(&Json::unsigned(18446744073709551615)), "18446744073709551615");
}

#[test]
fn documents_are_taken_apart() {
    let v = json(r#"{"a": [1, -2, 2.5, "s", null, true]}"#);
    let items = v.get("a").unwrap().as_array().unwrap();
    assert_eq!((items[0].as_u64(), items[0].as_i64()), (Some(1), Some(1)));
    assert_eq!((items[1].as_u64(), items[1].as_i64()), (None, Some(-2)));
    assert_eq!((items[2].as_u64(), items[2].as_i64(), items[2].as_decimal()), (None, None, Some("2.5")));
    assert_eq!(items[3].as_text(), Some("s"));
    assert!(items[4].is_null() && !items[5].is_null());
    assert!(v.get("b").is_none() && items[0].get("a").is_none());
    assert!(v.as_object().is_some() && v.as_array().is_none());
    assert_eq!(encode_json(&v), r#"{"a":[1,-2,2.5,"s",null,true]}"#);
    assert_eq!(parse_json("{").unwrap_err(), "EOF while parsing an object at line 1 column 1");
    assert_eq!(parse_json("[1 2]").unwrap_err(), "expected `,` or `]` at line 1 column 4");
}

#[test]
fn documents_nest_only_so_deep() {
    let nested = |n: usize| "[".repeat(n) + &"]".repeat(n);
    assert_eq!(encode_json(&json(&nested(127))), nested(127));
    assert!(parse_json(&nested(128)).unwrap_err().starts_with("recursion limit exceeded"));
}

#[test]
fn custom_modes_are_for_virtual_outputs() {
    match set_custom_mode(virtuals(), "eDP-1", None) {
        Err(IpcError::NotVirtual(name)) => assert_eq!(name, "eDP-1"),
        other => panic!("{:?}", other),
    }
    assert!(matches!(set_custom_mode(virtuals(), "rustdesk-virtual-1", None), Ok(Refresh::Current(60000))));
    match set_custom_mode(virtuals(), "rustdesk-virtual-1", Some("30.5".to_owned())) {
        Ok(Refresh::Given(hz)) => assert_eq!(hz, "30.5"),
        other => panic!("{:?}", other),
    }
    let mut off = virtuals();
    off[0].mode = None;
    assert!(matches!(set_custom_mode(off, "rustdesk-virtual-1", None), Ok(Refresh::Standard)));
}

#[test]
fn a_missing_output_is_an_error() {
    match set_output_enabled("DP-9", Ok(json(r#"{"OutputConfigChanged": "OutputWasMissing"}"#))) {
        Err(IpcError::OutputMissing(name)) => assert_eq!(name, "DP-9"),
        other => panic!("{:?}", other),
    }
    assert!(set_output_enabled("DP-1", Ok(json(r#"{"OutputConfigChanged": "Applied"}"#))).is_ok());
    assert!(set_output_enabled("DP-1", Ok(json(r#""Handled""#))).is_ok());
    assert!(matches!(set_output_enabled("x", Err(IpcError::EmptyReply)), Err(IpcError::EmptyReply)));
}

#[test]
fn workspaces_are_read() {
    let list = workspaces(Ok(json(
        r#"{"Workspaces": [{"id": 1, "output": "DP-1", "active_window_id": 5},
            {"id": 2, "output": null, "active_window_id": null}, {"output": "x"}, {"id": 3}]}"#,
    )))
    .unwrap();
    let seen: Vec<(u64, Option<&str>, bool)> =
        list.iter().map(|w| (w.id, w.output.as_deref(), w.has_windows)).collect();
    assert_eq!(seen, vec![(1, Some("DP-1"), true), (2, None, false), (3, None, false)]);
    assert!(matches!(workspaces(Ok(json("{}"))), Err(IpcError::UnexpectedWorkspaces)));
    assert!(matches!(workspaces(Err(IpcError::NoSocket)), Err(IpcError::NoSocket)));
}

#[test]
fn a_created_output_may_be_named_otherwise() {
    let named = |text: &str| create_virtual_output("v", Ok(json(text))).unwrap();
    assert_eq!(named(r#"{"VirtualOutputCreated": "v-2"}"#), "v-2");
    assert_eq!(named(r#""Handled""#), "v");
    assert!(matches!(create_virtual_output("v", Err(IpcError::NoSocket)), Err(IpcError::NoSocket)));
}

#[test]
fn replies_are_ok_or_err() {
    assert_eq!(encode_json(&payload(json(r#"{"Ok": {"a": 1}}"#)).unwrap()), r#"{"a":1}"#);
    assert!(payload(json("{}")).unwrap().is_null());
    match payload(json(r#"{"Err": "no such thing", "Ok": 1}"#)) {
        Err(IpcError::Refused(why)) => assert_eq!(why, "no such thing"),
        other => panic!("{:?}", other),
    }
    match payload(json(r#"{"Err": 5}"#)) {
        Err(IpcError::Refused(why)) => assert_eq!(why, "unknown error"),
        other => panic!("{:?}", other),
    }
}

#[test]
fn blank_and_broken_replies_are_told_apart() {
    assert!(matches!(decode_reply(" \t\r\n"), Err(IpcError::EmptyReply)));
    assert!(matches!(decode_reply("\u{3000}"), Err(IpcError::EmptyReply)));
    match decode_reply("{\n") {
        Err(IpcError::BadReply(why)) => {
            assert_eq!(why, "EOF while parsing an object at line 2 column 0")
        }
        other => panic!("{:?}", other),
    }
    assert_eq!(encode_json(&decode_reply("{\"Ok\":null}\n").unwrap()), r#"{"Ok":null}"#);
}

fn entry(name: &str) -> DirEntry {
    DirEntry { name: Some(name.to_owned()), path: join_path(&b"/run/user/1000".to_vec(), name) }
}

#[test]
fn sockets_are_those_of_the_compositor() {
    let entries = || {
        vec![
            entry("niri.wayland-2.77.sock"),
            entry("wayland-1"),
            entry("niri.wayland-1.99.sock"),
            entry("niri.lock"),
            entry("niri.sock"),
            DirEntry { name: None, path: b"/run/user/1000/niri.\xff.sock".to_vec() },
        ]
    };
    let names: Vec<String> = candidate_sockets(Some(b"/tmp/s".to_vec()), entries())
        .into_iter()
        .map(|p| String::from_utf8(p).unwrap())
        .collect();
    assert_eq!(
        names,
        vec![
            "/tmp/s",
            "/run/user/1000/niri.sock",
            "/run/user/1000/niri.wayland-1.99.sock",
            "/run/user/1000/niri.wayland-2.77.sock",
        ]
    );
    assert_eq!(candidate_sockets(None, entries()).len(), 3);
    assert!(candidate_sockets(None, Vec::new()).is_empty());
}

#[test]
fn a_remembered_socket_is_the_only_one() {
    let found = vec![b"a".to_vec(), b"b".to_vec()];
    assert_eq!(request_sockets(Some(b"c".to_vec()), found.clone()), vec![b"c".to_vec()]);
    assert_eq!(request_sockets(None, found.clone()), found);
}

#[test]
fn the_first_socket_that_replies_is_remembered() {
    let sockets = vec![b"a".to_vec(), b"b".to_vec(), b"c".to_vec()];
    let mut remembered = None;
    let r = request(
        &sockets,
        |p: &Vec<u8>| {
            if p == b"a" {
                Err(IpcError::Io("refused".to_owned()))
            } else {
                decode_reply(&format!("{{\"Ok\": \"{}\"}}", String::from_utf8(p.clone()).unwrap()))
            }
        },
        &mut remembered,
    );
    assert_eq!(r.unwrap().as_text(), Some("b"));
    assert_eq!(remembered, Some(b"b".to_vec()));
}

#[test]
fn a_refusal_is_a_reply() {
    let sockets = vec![b"a".to_vec(), b"b".to_vec()];
    let mut remembered = None;
    let r = request(&sockets, |_: &Vec<u8>| decode_reply(r#"{"Err": "no"}"#), &mut remembered);
    assert!(matches!(&r, Err(IpcError::Refused(why)) if why == "no"));
    assert!(!is_available(&r));
    assert_eq!(remembered, Some(b"a".to_vec()));
}

#[test]
fn a_socket_that_fails_is_forgotten() {
    let mut remembered = Some(b"a".to_vec());
    let sockets = request_sockets(remembered.clone(), Vec::new());
    let r = request(&sockets, |_: &Vec<u8>| Err(IpcError::EmptyReply), &mut remembered);
    assert!(matches!(r, Err(IpcError::EmptyReply)));
    assert_eq!(remembered, None);
    let none: Vec<Vec<u8>> = Vec::new();
    let r = request(&none, |_: &Vec<u8>| Err(IpcError::EmptyReply), &mut remembered);
    assert!(matches!(r, Err(IpcError::NoSocket)));
    assert!(is_available(&Ok(Json::Null)));
}

#[test]
fn the_runtime_directory_is_given_or_the_users() {
    assert_eq!(runtime_dir(Some(b"/x".to_vec()), Some(7)), b"/x".to_vec());
    assert_eq!(runtime_dir(None, Some(1000)), b"/run/user/1000".to_vec());
    assert_eq!(runtime_dir(None, None), b"/run/user/0".to_vec());
}

#[test]
fn paths_are_joined_by_one_separator() {
    assert_eq!(join_path(&b"/a".to_vec(), "b"), b"/a/b".to_vec());
    assert_eq!(join_path(&b"/a/".to_vec(), "b"), b"/a/b".to_vec());
    assert_eq!(join_path(&Vec::new(), "b"), b"b".to_vec());
}

#[test]
fn no_resolution_is_offered_twice() {
    let mut list = virtuals();
    list[0].mode = Some((2560, 1440, 60000));
    let offered = resolutions_for(list, "rustdesk-virtual-1").unwrap();
    assert_eq!(offered.len(), 9);
    for i in 0..offered.len() {
        for j in 0..i {
            assert_ne!(offered[i], offered[j]);
        }
    }
}

#[test]
fn errors_say_what_went_wrong() {
    let say = |e: IpcError| e.message("/run/user/7");
    assert_eq!(say(IpcError::Io("broken pipe".to_owned())), "broken pipe");
    assert_eq!(say(IpcError::BadReply("EOF".to_owned())), "EOF");
    assert_eq!(say(IpcError::EmptyReply), "empty reply from niri");
    assert_eq!(say(IpcError::NoSocket), "no niri IPC socket found in /run/user/7");
    assert_eq!(say(IpcError::Refused("no".to_owned())), "niri: no");
    assert_eq!(say(IpcError::UnexpectedOutputs), "unexpected Outputs reply");
    assert_eq!(say(IpcError::UnexpectedWorkspaces), "unexpected Workspaces reply");
    assert_eq!(say(IpcError::NotVirtual("DP-1".to_owned())), "DP-1 is not a niri virtual output");
    assert_eq!(say(IpcError::OutputMissing("DP-1".to_owned())), "niri: output DP-1 does not exist");
}

#[test]
fn requests_with_integers_are_read_back() {
    let same = |request: Json| {
        let line = request_line(&request);
        let read = parse_json(line.strip_suffix('\n').unwrap()).unwrap();
        assert_eq!(encode_json(&read), encode_json(&request));
        read
    };
    let moved = same(move_workspace_to_monitor(u64::MAX, "DP-1"));
    let to = moved.get("Action").unwrap().get("MoveWorkspaceToMonitor").unwrap();
    assert_eq!(to.get("reference").unwrap().get("Id").unwrap().as_u64(), Some(u64::MAX));
    let created = same(create_virtual_output_request("v", 800, 600, 60, None));
    let v = created.get("CreateVirtualOutput").unwrap();
    assert_eq!(v.get("width").unwrap().as_u64(), Some(800));
    assert_eq!(v.get("width").unwrap().as_i64(), Some(800));
    assert_eq!(v.get("width").unwrap().as_decimal(), Some("800"));
}

#[test]
fn requests_with_fractions_are_read_back() {
    let read = |request: Json| parse_json(request_line(&request).strip_suffix('\n').unwrap()).unwrap();
    let mode = read(custom_mode_request("v", 1920, 1080, "59.940"));
    let refresh = mode
        .get("Output")
        .and_then(|o| o.get("action"))
        .and_then(|a| a.get("CustomMode"))
        .and_then(|m| m.get("mode"))
        .and_then(|m| m.get("refresh"))
        .unwrap();
    assert_eq!((refresh.as_decimal(), refresh.as_u64()), (Some("59.94"), None));
    let scale = |text: Option<&str>| {
        let made = read(create_virtual_output_request("v", 800, 600, 60, text));
        let scale = made.get("CreateVirtualOutput").unwrap().get("scale").unwrap();
        scale.as_decimal().map(str::to_owned)
    };
    assert_eq!(scale(Some("2.0")), Some("2.0".to_owned()));
    assert_eq!(scale(Some("2")), Some("2".to_owned()));
    assert_eq!(scale(Some("null")), None);
    assert_eq!(scale(None), None);
}

#[test]
fn members_are_sent_in_the_order_of_their_keys() {
    let v = Json::Object(vec![
        ("b".to_owned(), Json::unsigned(1)),
        ("a".to_owned(), Json::fraction("0.5")),
        ("b".to_owned(), Json::Null),
    ]);
    assert_eq!(encode_json(&v), r#"{"a":0.5,"b":null}"#);
}
