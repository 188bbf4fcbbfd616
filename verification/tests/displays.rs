use niri_display::json::parse_json;
use niri_display::niri_ipc::{outputs, NiriOutput, Resolution};
use niri_display::virtual_display::{
    append, capturer_info, display_infos, embed_cursor, DisplayInfo, Scale,
};

fn virtuals() -> Vec<NiriOutput> {
    let reply = r#"{"Outputs": {
        "a": {"name": "v1", "make": "niri", "model": "virtual", "current_mode": 0,
              "modes": [{"width": 1920, "height": 1080, "refresh_rate": 60000}],
              "logical": {"x": 10, "y": -20, "width": 960, "height": 540, "scale": 2.0}},
        "b": {"name": "v2", "make": "niri", "model": "virtual", "current_mode": 0,
              "modes": [{"width": 800, "height": 600, "refresh_rate": 60000}],
              "logical": {"x": 970, "y": 0, "width": 0, "height": 0, "scale": 1.0}},
        "c": {"name": "v3", "make": "niri", "model": "virtual", "logical":
              {"x": 0, "y": 0, "width": 1, "height": 1, "scale": 1.0}}
    }}"#;
    outputs(Ok(parse_json(reply).unwrap())).unwrap()
}

fn drm(name: &str) -> DisplayInfo {
    DisplayInfo {
        x: 0,
        y: 0,
        width: 2256,
        height: 1504,
        name: name.to_owned(),
        online: true,
        cursor_embedded: false,
        original_resolution: Resolution { width: 2256, height: 1504 },
        scale: Scale { pixels: 1, points: 1 },
    }
}

#[test]
fn the_cursor_is_embedded_only_on_request() {
    assert!(embed_cursor("Y"));
    assert!(!embed_cursor("y"));
    assert!(!embed_cursor(""));
    assert!(!embed_cursor("N"));
}

#[test]
fn a_display_stands_for_each_output_that_is_on() {
    let infos = display_infos(virtuals(), true);
    assert_eq!(infos.len(), 2);
    let d = &infos[0];
    assert_eq!((d.x, d.y, d.width, d.height), (10, -20, 1920, 1080));
    assert_eq!(d.name, "v1");
    assert!(d.online && d.cursor_embedded);
    assert_eq!(d.original_resolution, Resolution { width: 0, height: 0 });
    assert_eq!(d.scale, Scale { pixels: 1920, points: 960 });
    // Without a width in points the scale is one.
    assert_eq!(infos[1].scale, Scale { pixels: 1, points: 1 });
}

#[test]
fn virtual_displays_follow_the_enumerated_ones() {
    let mut infos = vec![drm("eDP-1")];
    append(&mut infos, virtuals(), false);
    let names: Vec<&str> = infos.iter().map(|d| d.name.as_str()).collect();
    assert_eq!(names, vec!["eDP-1", "v1", "v2"]);
    assert!(!infos[1].cursor_embedded);
    append(&mut infos, Vec::new(), false);
    assert_eq!(infos.len(), 3);
}

#[test]
fn appended_displays_are_captured_from_their_output() {
    let mut infos = vec![drm("eDP-1")];
    append(&mut infos, virtuals(), false);
    let c = capturer_info(2, &None, 0, &Some(infos), virtuals(), true).unwrap();
    assert_eq!(c.name, "v2");
    assert_eq!(c.origin, (970, 0));
    assert_eq!((c.width, c.height), (800, 600));
    assert_eq!((c.ndisplay, c.current), (3, 2));
    assert_eq!((c.privacy_mode_id, c.capturer_privacy_mode_id), (0, 0));
    assert!(c.embed_cursor);
}

#[test]
fn what_was_advertised_comes_first() {
    let mut told = drm("v1");
    told.x = 77;
    let c = capturer_info(0, &Some(told), 4, &Some(vec![drm("eDP-1")]), virtuals(), false).unwrap();
    assert_eq!((c.name.as_str(), c.origin), ("v1", (77, 0)));
    assert_eq!(c.ndisplay, 4);
    // The display itself always counts.
    let c = capturer_info(6, &Some(drm("v1")), 4, &None, virtuals(), false).unwrap();
    assert_eq!((c.ndisplay, c.current), (7, 6));
}

#[test]
fn other_displays_are_left_to_others() {
    assert!(capturer_info(0, &None, 0, &Some(vec![drm("eDP-1")]), virtuals(), false).is_none());
    assert!(capturer_info(1, &None, 0, &Some(vec![drm("v1")]), virtuals(), false).is_none());
    assert!(capturer_info(0, &None, 0, &None, virtuals(), false).is_none());
    assert!(capturer_info(usize::MAX, &None, 0, &Some(vec![drm("v1")]), virtuals(), false).is_none());
    assert!(capturer_info(0, &Some(drm("v3")), 0, &None, virtuals(), false).is_none());
}
