use niri_display::niri_cursor::{
    arrow_names, arrow_of, config_path, cursor_data, cursor_id, load, niri_cursor_config,
    CursorData, CursorImage, ID,
};

fn word(out: &mut Vec<u8>, n: u32) {
    out.extend_from_slice(&n.to_le_bytes());
}

// An Xcursor file with one image for each (nominal size, width, height, xhot, yhot, first byte).
fn file(images: &[(u32, u32, u32, u32, u32, u8)]) -> Vec<u8> {
    let mut out = b"Xcur".to_vec();
    word(&mut out, 16);
    word(&mut out, 0x10000);
    word(&mut out, images.len() as u32);
    let mut pos = 16 + 12 * images.len() as u32;
    for (size, w, h, _, _, _) in images {
        word(&mut out, 0xfffd0002);
        word(&mut out, *size);
        word(&mut out, pos);
        pos += 36 + 4 * w * h;
    }
    for (size, w, h, xhot, yhot, first) in images {
        for n in [36, 0xfffd0002, *size, 1, *w, *h, *xhot, *yhot, 0] {
            word(&mut out, n);
        }
        out.extend((0..4 * w * h).map(|i| first.wrapping_add(i as u8)));
    }
    out
}

#[test]
fn the_id_spells_the_name() {
    assert_eq!(ID, u64::from_be_bytes(*b"niricurs"));
}

#[test]
fn the_cursor_is_served_while_a_takeover_lasts() {
    let cursor = load(&file(&[(24, 2, 1, 1, 0, 7)]), 24).map(|a| a.cursor);
    assert_eq!(cursor_id(true, &cursor), Some(ID));
    assert_eq!(cursor_id(false, &cursor), None);
    assert_eq!(cursor_id(true, &None), None);
    let served = cursor_data(cursor_id(true, &cursor).unwrap(), &cursor).unwrap();
    assert_eq!(served.colors, vec![7, 8, 9, 10, 11, 12, 13, 14]);
    assert_eq!((served.hotx, served.hoty, served.width, served.height), (1, 0, 2, 1));
    assert!(cursor_data(ID + 1, &cursor).is_none());
    assert!(cursor_data(ID, &None).is_none());
}

#[test]
fn the_arrow_is_read_from_its_file() {
    let c = load(&file(&[(24, 2, 3, 1, 2, 0)]), 24).unwrap().cursor;
    assert_eq!((c.id, c.hotx, c.hoty, c.width, c.height), (ID, 1, 2, 2, 3));
    assert_eq!(c.colors, (0..24).collect::<Vec<u8>>());
}

#[test]
fn the_nearest_size_is_taken() {
    let data = file(&[(16, 1, 1, 0, 0, 1), (32, 1, 1, 0, 0, 2), (24, 1, 1, 0, 0, 3), (24, 1, 1, 0, 0, 4)]);
    let first = |size: u32| load(&data, size).unwrap().cursor.colors[0];
    assert_eq!(first(24), 3);
    assert_eq!(first(0), 1);
    assert_eq!(first(1000), 2);
    // Of two that are as near, the first.
    assert_eq!(first(20), 1);
    assert_eq!(first(28), 2);
    assert_eq!(first(u32::MAX), 2);
}

#[test]
fn files_that_are_refused_give_no_arrow() {
    assert!(load(b"", 24).is_none());
    assert!(load(b"Xcur", 24).is_none());
    assert!(load(&file(&[]), 24).is_none());
    // No pixels, a hot spot beyond the image, and a file that is cut off.
    assert!(load(&file(&[(24, 0, 1, 0, 0, 0)]), 24).is_none());
    assert!(load(&file(&[(24, 1, 1, 2, 0, 0)]), 24).is_none());
    let whole = file(&[(24, 2, 2, 0, 0, 0)]);
    assert!(load(&whole[..whole.len() - 1], 24).is_none());
    assert!(load(&whole, 24).is_some());
}

#[test]
fn an_arrow_is_made_of_an_image() {
    let image = |size: u32, byte: u8| CursorImage {
        size,
        width: 1,
        height: 1,
        xhot: 1,
        yhot: 1,
        pixels_rgba: vec![byte; 4],
    };
    let arrow = arrow_of(&vec![image(48, 1), image(30, 2)], 24).unwrap();
    assert_eq!(arrow.size, 30);
    let c: CursorData = arrow.cursor;
    assert_eq!(c.colors, vec![2; 4]);
    assert_eq!((c.hotx, c.hoty), (1, 1));
    assert!(arrow_of(&Vec::new(), 24).is_none());
}

#[test]
fn the_configuration_is_below_the_users() {
    assert_eq!(config_path(Some("/c"), Some("/h")), Some(b"/c/niri/config.kdl".to_vec()));
    assert_eq!(config_path(None, Some("/h")), Some(b"/h/.config/niri/config.kdl".to_vec()));
    assert_eq!(config_path(Some(""), Some("/h")), Some(b"niri/config.kdl".to_vec()));
    assert_eq!(config_path(None, None), None);
}

fn config(theme: Option<&str>, size: Option<&str>, text: Option<&str>) -> (String, u32) {
    niri_cursor_config(theme, size, text)
}

fn pair(theme: &str, size: u32) -> (String, u32) {
    (theme.to_owned(), size)
}

#[test]
fn the_configuration_comes_before_the_environment() {
    let text = "cursor {\n    xcursor-theme \"Bibata\" // dark\n    xcursor-size 64\n}\n";
    assert_eq!(config(Some("Adwaita"), Some("32"), Some(text)), pair("Bibata", 64));
    assert_eq!(config(Some("Adwaita"), Some("32"), Some("// nothing")), pair("Adwaita", 32));
    assert_eq!(config(Some("Adwaita"), Some("32"), None), pair("Adwaita", 32));
}

#[test]
fn defaults_stand_in_for_what_is_not_known() {
    assert_eq!(config(None, None, None), pair("default", 24));
    assert_eq!(config(Some(""), Some("x"), Some("")), pair("default", 24));
    assert_eq!(config(None, Some("0"), Some("cursor { xcursor-size 0; }")), pair("default", 24));
    assert_eq!(config(None, Some(" 32"), None), pair("default", 24));
    assert_eq!(config(None, Some("+32"), None), pair("default", 32));
}

fn read(text: &str) -> (String, u32) {
    config(None, None, Some(text))
}

#[test]
fn a_block_may_stand_on_one_line() {
    assert_eq!(read("cursor { xcursor-theme \"Breeze\"; xcursor-size 64; }"), pair("Breeze", 64));
    assert_eq!(read("cursor{xcursor-theme\"Breeze\";xcursor-size 64}"), pair("Breeze", 64));
    assert_eq!(read("cursor {\r\n\txcursor-size 64;\r\n\txcursor-theme \"Breeze\";\r\n}"), pair("Breeze", 64));
    assert_eq!(read("cursor { xcursor-theme Breeze"), pair("Breeze", 24));
}

#[test]
fn only_the_cursor_block_counts() {
    assert_eq!(read("xcursor-size 64\nxcursor-theme \"A\""), pair("default", 24));
    assert_eq!(read("input { xcursor-size 64; }\ncursor { xcursor-theme \"B\"; }"), pair("B", 24));
    assert_eq!(read("cursor { inner { xcursor-size 64; }; xcursor-theme \"C\"; }"), pair("C", 24));
    assert_eq!(read("outer { cursor { xcursor-size 64; } }"), pair("default", 24));
    assert_eq!(read("cursor { } xcursor-size 64"), pair("default", 24));
    assert_eq!(read("} cursor { xcursor-size 64; }"), pair("default", 64));
    assert_eq!(read("cursor; { xcursor-size 64; }"), pair("default", 24));
}

#[test]
fn quotes_are_respected() {
    assert_eq!(read("cursor { xcursor-theme \"a//b; {c}\"; }"), pair("a//b; {c}", 24));
    assert_eq!(read("cursor { xcursor-theme \" a \\\"b\\\\ \"; }"), pair(" a \"b\\ ", 24));
    assert_eq!(read("cursor { xcursor-theme r\"a\\\"; xcursor-size 3; }"), pair("a\\", 3));
    assert_eq!(read("cursor { xcursor-theme r#\"a\"b\"#; xcursor-size 3; }"), pair("a\"b", 3));
    assert_eq!(read("rule { match app-id=r#\"^x\\\"#; }\ncursor { xcursor-size 3; }"), pair("default", 3));
    assert_eq!(read("\"cursor\" { xcursor-theme red; }"), pair("red", 24));
    assert_eq!(read("cursor { xcursor-theme \"open; }"), pair("open; }", 24));
    // A size is a number, not a text.
    assert_eq!(read("cursor { xcursor-size \"64\"; }"), pair("default", 24));
}

#[test]
fn escapes_stand_for_their_characters() {
    let theme = |written: &str| read(&format!("cursor {{ xcursor-theme \"{}\"; }}", written)).0;
    assert_eq!(theme(r"a\tb\nc\rd\be\ff"), "a\tb\nc\rd\u{8}e\u{c}f");
    assert_eq!(theme(r"a\/b\\c\u{41}\u{1F600}d"), "a/b\\cA\u{1F600}d");
    assert_eq!(theme(r"\u{0000e9}\u{E9}"), "\u{e9}\u{e9}");
    // A backslash that begins no escape stays.
    assert_eq!(theme(r"\q\ \u41"), r"\q\ \u41");
    assert_eq!(theme(r"\u{}\u{d800}\u{110000}"), r"\u{}\u{d800}\u{110000}");
    assert_eq!(theme(r"\u{0000041}\u{4x}\u{41"), r"\u{0000041}\u{4x}\u{41");
    // There are none in a raw text.
    assert_eq!(read(r#"cursor { xcursor-theme r"a\tb"; }"#), pair(r"a\tb", 24));
}

#[test]
fn a_byte_order_mark_is_white_space() {
    assert_eq!(read("\u{feff}cursor { xcursor-size 64; }"), pair("default", 64));
    assert_eq!(read("cursor {\u{feff}xcursor-size\u{feff}64\u{feff}}"), pair("default", 64));
}

#[test]
fn a_property_is_no_value() {
    assert_eq!(read("cursor { xcursor-size=5; xcursor-theme=\"A\"; }"), pair("default", 24));
    assert_eq!(read("cursor { xcursor-size = 5; }"), pair("default", 24));
    assert_eq!(read("cursor { xcursor-theme A b=\"c\"; xcursor-size 3; }"), pair("default", 3));
    assert_eq!(read("cursor { xcursor-theme \"a=b\"; }"), pair("a=b", 24));
}

#[test]
fn a_theme_may_be_of_several_words() {
    assert_eq!(read("cursor { xcursor-theme My Theme\n}"), pair("My Theme", 24));
    assert_eq!(read("cursor { xcursor-theme  My  Own\tTheme ; }"), pair("My  Own\tTheme", 24));
    assert_eq!(read("cursor { xcursor-theme My Theme // dark\n}"), pair("My Theme", 24));
    assert_eq!(read("cursor { xcursor-theme \"My\" \"Theme\"; }"), pair("My\" \"Theme", 24));
    assert_eq!(read("cursor { xcursor-theme \"\" \"\"; }"), pair(" ", 24));
}

#[test]
fn comments_are_respected() {
    assert_eq!(read("cursor { // xcursor-size 5\n//xcursor-theme \"A\"\nxcursor-theme B\n}"), pair("B", 24));
    assert_eq!(read("cursor { xcursor-size 3//2\n}"), pair("default", 3));
    assert_eq!(read("cursor { xcursor-size /* 5 /* 6 */ */ 7 /* }"), pair("default", 7));
    assert_eq!(read("/* cursor { xcursor-size 5; } */"), pair("default", 24));
    assert_eq!(read("cursor { /-xcursor-size 5; xcursor-theme A; }"), pair("A", 24));
    assert_eq!(read("/- cursor { xcursor-size 5; }"), pair("default", 24));
    assert_eq!(read("cursor /-{ xcursor-size 5; }"), pair("default", 24));
    assert_eq!(read("cursor { xcursor-size /-5 6; }"), pair("default", 6));
    assert_eq!(read("cursor { xcursor-size \\\n 8\n}"), pair("default", 8));
}

#[test]
fn the_last_statement_that_says_something_counts() {
    let text = "cursor { xcursor-size 48; xcursor-size big; xcursor-size 4294967296\nxcursor-size 1 2\n\
                xcursor-size; xcursor-theme A; xcursor-theme \"\"; xcursor-theme B }";
    assert_eq!(read(text), pair("B", 48));
    assert_eq!(read("cursor { xcursor-size 4294967295; xcursor-sizes 5; }"), pair("default", 4294967295));
    assert_eq!(read("cursor { xcursor-size 1; }\ncursor { xcursor-size 2; }"), pair("default", 2));
}

#[test]
fn the_arrow_has_two_names() {
    assert_eq!(arrow_names(), vec!["default", "left_ptr"]);
}
