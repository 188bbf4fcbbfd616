//! Displays backed by the compositor's virtual outputs.
//!
//! A virtual output has no connector, so it is not among the displays that are enumerated through
//! DRM: it is appended to them, and captured from the compositor. Display indices therefore run
//! over the DRM displays first and the virtual ones after them.
use crate::niri_ipc::{find_virtual, first_named, NiriOutput, NiriOutputView, Resolution};
use crate::order::{lemma_filter_map_is_filter, views};
use crate::text::same_text;
use vstd::prelude::*;

verus! {

/// A scale as a ratio of pixels to points.
#[derive(Debug, Clone, Copy, PartialEq, Eq, Structural)]
pub struct Scale {
    pub pixels: i32,
    pub points: i32,
}

/// A display as a client is told of it.
#[derive(Debug)]
pub struct DisplayInfo {
    pub x: i32,
    pub y: i32,
    pub width: i32,
    pub height: i32,
    pub name: String,
    pub online: bool,
    pub cursor_embedded: bool,
    /// A virtual display is marked by a size of nothing: a client then offers custom sizes.
    pub original_resolution: Resolution,
    pub scale: Scale,
}

/// The mathematical value of a [`DisplayInfo`].
pub struct DisplayInfoView {
    pub x: i32,
    pub y: i32,
    pub width: i32,
    pub height: i32,
    pub name: Seq<char>,
    pub online: bool,
    pub cursor_embedded: bool,
    pub original_resolution: Resolution,
    pub scale: Scale,
}

impl View for DisplayInfo {
    type V = DisplayInfoView;

    open spec fn view(&self) -> DisplayInfoView {
        DisplayInfoView {
            x: self.x,
            y: self.y,
            width: self.width,
            height: self.height,
            name: self.name@,
            online: self.online,
            cursor_embedded: self.cursor_embedded,
            original_resolution: self.original_resolution,
            scale: self.scale,
        }
    }
}

/// Whether the cursor is drawn into captured frames, given the option `niri-embed-cursor`. It is
/// not unless that is asked for: a client then draws its own pointer, without delay.
pub fn embed_cursor(option: &str) -> (r: bool)
    ensures
        r == (option@ == "Y"@),
{
    same_text(option, "Y")
}

/// How many pixels go to a point of an output, `width` pixels and `points` points wide.
pub open spec fn scale_of(width: u16, points: i32) -> Scale {
    if points > 0 {
        Scale { pixels: width as i32, points }
    } else {
        Scale { pixels: 1, points: 1 }
    }
}

/// The display that an output stands for, if it is on.
pub open spec fn info_of(o: NiriOutputView, embed: bool) -> Option<DisplayInfoView> {
    match (o.mode, o.logical) {
        (Some((w, h, _)), Some(l)) => Some(
            DisplayInfoView {
                x: l.x,
                y: l.y,
                width: w as i32,
                height: h as i32,
                name: o.name,
                online: true,
                cursor_embedded: embed,
                original_resolution: Resolution { width: 0, height: 0 },
                scale: scale_of(w, l.width),
            },
        ),
        _ => None,
    }
}

/// The displays that outputs stand for, in their order.
pub open spec fn infos_of(virtuals: Seq<NiriOutputView>, embed: bool) -> Seq<DisplayInfoView> {
    virtuals.filter_map(|o: NiriOutputView| info_of(o, embed))
}

fn display_info(o: NiriOutput, embed: bool) -> (r: Option<DisplayInfo>)
    ensures
        match r {
            Some(d) => info_of(o@, embed) == Some(d@),
            None => info_of(o@, embed) is None,
        },
{
    match (o.mode, o.logical) {
        (Some((w, h, _)), Some(l)) => {
            let scale = if l.width > 0 {
                Scale { pixels: w as i32, points: l.width }
            } else {
                Scale { pixels: 1, points: 1 }
            };
            Some(
                DisplayInfo {
                    x: l.x,
                    y: l.y,
                    width: w as i32,
                    height: h as i32,
                    name: o.name,
                    online: true,
                    cursor_embedded: embed,
                    original_resolution: Resolution { width: 0, height: 0 },
                    scale,
                },
            )
        },
        _ => None,
    }
}

/// One display for each virtual output that is on.
pub fn display_infos(virtuals: Vec<NiriOutput>, embed: bool) -> (r: Vec<DisplayInfo>)
    ensures
        views(r@) == infos_of(views(virtuals@), embed),
{
    let ghost all = views(virtuals@);
    let ghost read = |o: NiriOutputView| info_of(o, embed);
    let mut r: Vec<DisplayInfo> = Vec::new();
    assert(views(r@) =~= all.take(0).filter_map(read));
    for o in it: virtuals
        invariant
            it.seq() == virtuals@,
            all == views(virtuals@),
            read == |o: NiriOutputView| info_of(o, embed),
            views(r@) == all.take(it.index() as int).filter_map(read),
    {
        proof {
            all.lemma_filter_map_take_succ(read, it.index() as int);
        }
        let ghost before = r@;
        if let Some(d) = display_info(o, embed) {
            r.push(d);
            assert(views(r@) =~= views(before) + seq![d@]);
        } else {
            assert(views(before) =~= views(before) + Seq::empty());
        }
    }
    assert(all.take(all.len() as int) =~= all);
    r
}

/// Appends the virtual displays to the enumerated ones, which keep their indices.
pub fn append(infos: &mut Vec<DisplayInfo>, virtuals: Vec<NiriOutput>, embed: bool)
    ensures
        views(final(infos)@) == views(old(infos)@) + infos_of(views(virtuals@), embed),
{
    let mut added = display_infos(virtuals, embed);
    let ghost new = added@;
    infos.append(&mut added);
    assert(views(infos@) =~= views(old(infos)@) + views(new));
}

/// What a capturer of a virtual output is made with, and what is told of it.
#[derive(Debug)]
pub struct CapturerInfo {
    pub name: String,
    pub origin: (i32, i32),
    pub width: usize,
    pub height: usize,
    pub ndisplay: usize,
    pub current: usize,
    pub privacy_mode_id: i32,
    /// The id under which the capturer itself was made.
    pub capturer_privacy_mode_id: i32,
    pub embed_cursor: bool,
}

/// The mathematical value of a [`CapturerInfo`].
pub struct CapturerInfoView {
    pub name: Seq<char>,
    pub origin: (i32, i32),
    pub width: int,
    pub height: int,
    pub ndisplay: int,
    pub current: int,
    pub privacy_mode_id: int,
    pub capturer_privacy_mode_id: int,
    pub embed_cursor: bool,
}

impl View for CapturerInfo {
    type V = CapturerInfoView;

    open spec fn view(&self) -> CapturerInfoView {
        CapturerInfoView {
            name: self.name@,
            origin: self.origin,
            width: self.width as int,
            height: self.height as int,
            ndisplay: self.ndisplay as int,
            current: self.current as int,
            privacy_mode_id: self.privacy_mode_id as int,
            capturer_privacy_mode_id: self.capturer_privacy_mode_id as int,
            embed_cursor: self.embed_cursor,
        }
    }
}

/// What is known of a display: what it was advertised with comes first, since the client goes by
/// that, and then what is enumerated, if that can be done.
pub open spec fn known_display(
    display_idx: int,
    advertised: Option<DisplayInfoView>,
    enumerated: Option<Seq<DisplayInfoView>>,
) -> Option<DisplayInfoView> {
    match (advertised, enumerated) {
        (Some(d), _) => Some(d),
        (None, Some(list)) => if 0 <= display_idx < list.len() {
            Some(list[display_idx])
        } else {
            None
        },
        (None, None) => None,
    }
}

/// How many displays there are: as many as were advertised, or else as are enumerated; and the
/// display itself is one of them.
pub open spec fn display_count(
    display_idx: int,
    synced: int,
    enumerated: Option<Seq<DisplayInfoView>>,
) -> int {
    let n = if synced > 0 {
        synced
    } else {
        match enumerated {
            Some(list) => list.len() as int,
            None => 0,
        }
    };
    if n > display_idx + 1 {
        n
    } else {
        display_idx + 1
    }
}

/// What the display with index `display_idx` is captured with; `None` if it is not a virtual
/// output that is on.
pub open spec fn capture_of(
    display_idx: int,
    advertised: Option<DisplayInfoView>,
    synced: int,
    enumerated: Option<Seq<DisplayInfoView>>,
    virtuals: Seq<NiriOutputView>,
    embed: bool,
) -> Option<CapturerInfoView> {
    match known_display(display_idx, advertised, enumerated) {
        Some(info) => match first_named(virtuals, info.name) {
            Some(o) => match o.mode {
                Some((w, h, _)) => Some(
                    CapturerInfoView {
                        name: info.name,
                        origin: (info.x, info.y),
                        width: w as int,
                        height: h as int,
                        ndisplay: display_count(display_idx, synced, enumerated),
                        current: display_idx,
                        privacy_mode_id: 0,
                        capturer_privacy_mode_id: 0,
                        embed_cursor: embed,
                    },
                ),
                None => None,
            },
            None => None,
        },
        None => None,
    }
}

/// What a list that may be missing holds.
pub open spec fn enumerated_views(enumerated: Option<Vec<DisplayInfo>>) -> Option<
    Seq<DisplayInfoView>,
> {
    match enumerated {
        Some(list) => Some(views(list@)),
        None => None,
    }
}

/// Decides whether a display is a virtual output, and what it is captured with. `advertised` is
/// what the client was told of the display, `synced` the number of displays that it was told of,
/// and `enumerated` the list of displays, if there is one.
pub fn capturer_info(
    display_idx: usize,
    advertised: &Option<DisplayInfo>,
    synced: usize,
    enumerated: &Option<Vec<DisplayInfo>>,
    virtuals: Vec<NiriOutput>,
    embed: bool,
) -> (r: Option<CapturerInfo>)
    requires
        *advertised is Some ==> display_idx < usize::MAX,
    ensures
        ({
            let told = match *advertised {
                Some(d) => Some(d@),
                None => None,
            };
            let plan = capture_of(
                display_idx as int,
                told,
                synced as int,
                enumerated_views(*enumerated),
                views(virtuals@),
                embed,
            );
            match r {
                Some(c) => plan == Some(c@),
                None => plan is None,
            }
        }),
{
    let info: &DisplayInfo = match (advertised, enumerated) {
        (Some(d), _) => d,
        (None, Some(list)) => if display_idx < list.len() {
            &list[display_idx]
        } else {
            return None;
        },
        (None, None) => {
            return None;
        },
    };
    let n: usize = if synced > 0 {
        synced
    } else {
        match enumerated {
            Some(list) => list.len(),
            None => 0,
        }
    };
    let ndisplay: usize = if n > display_idx + 1 {
        n
    } else {
        display_idx + 1
    };
    let output = match find_virtual(virtuals, info.name.as_str()) {
        Some(output) => output,
        None => {
            return None;
        },
    };
    match output.mode {
        Some((w, h, _)) => Some(
            CapturerInfo {
                name: info.name.clone(),
                origin: (info.x, info.y),
                width: w as usize,
                height: h as usize,
                ndisplay,
                current: display_idx,
                privacy_mode_id: 0,
                capturer_privacy_mode_id: 0,
                embed_cursor: embed,
            },
        ),
        None => None,
    }
}

/// Of outputs with different names, each is the first of its name.
proof fn lemma_first_of_its_name(virtuals: Seq<NiriOutputView>, i: int)
    requires
        0 <= i < virtuals.len(),
        forall|a: int, b: int|
            0 <= a < b < virtuals.len() ==> (#[trigger] virtuals[a]).name != (
            #[trigger] virtuals[b]).name,
    ensures
        first_named(virtuals, virtuals[i].name) == Some(virtuals[i]),
    decreases virtuals.len(),
{
    if i > 0 {
        let rest = virtuals.drop_first();
        assert(rest[i - 1] == virtuals[i]);
        assert(virtuals[0].name != virtuals[i].name);
        lemma_first_of_its_name(rest, i - 1);
    }
}

/// A display that outputs stand for is that of one of them.
proof fn lemma_info_has_output(virtuals: Seq<NiriOutputView>, embed: bool, k: int) -> (i: int)
    requires
        0 <= k < infos_of(virtuals, embed).len(),
    ensures
        0 <= i < virtuals.len(),
        info_of(virtuals[i], embed) == Some(infos_of(virtuals, embed)[k]),
    decreases virtuals.len(),
{
    let read = |o: NiriOutputView| info_of(o, embed);
    if virtuals.len() == 0 {
        assert(infos_of(virtuals, embed).len() == 0) by {
            reveal(Seq::filter_map);
        }
        0
    } else {
        let n = virtuals.len() - 1;
        let front = virtuals.drop_last();
        virtuals.lemma_filter_map_take_succ(read, n);
        assert(virtuals.take(n) =~= front);
        assert(virtuals.take(n + 1) =~= virtuals);
        if k < infos_of(front, embed).len() {
            let i = lemma_info_has_output(front, embed, k);
            assert(front[i] == virtuals[i]);
            i
        } else {
            n
        }
    }
}

/// Every consumer of the list means the same display by an index: the display that was appended
/// with index `k` is captured from its own output, at the size that it was appended with.
pub proof fn law_appended_display_is_captured(
    enumerated: Seq<DisplayInfoView>,
    virtuals: Seq<NiriOutputView>,
    embed: bool,
    k: int,
)
    requires
        0 <= k < infos_of(virtuals, embed).len(),
        forall|a: int, b: int|
            0 <= a < b < virtuals.len() ==> (#[trigger] virtuals[a]).name != (
            #[trigger] virtuals[b]).name,
    ensures
        ({
            let all = enumerated + infos_of(virtuals, embed);
            let idx = enumerated.len() + k;
            let info = infos_of(virtuals, embed)[k];
            capture_of(idx, None, 0, Some(all), virtuals, embed) == Some(
                CapturerInfoView {
                    name: info.name,
                    origin: (info.x, info.y),
                    width: info.width as int,
                    height: info.height as int,
                    ndisplay: all.len() as int,
                    current: idx,
                    privacy_mode_id: 0,
                    capturer_privacy_mode_id: 0,
                    embed_cursor: embed,
                },
            )
        }),
{
    let i = lemma_info_has_output(virtuals, embed, k);
    lemma_first_of_its_name(virtuals, i);
    let all = enumerated + infos_of(virtuals, embed);
    assert(all[enumerated.len() + k] == infos_of(virtuals, embed)[k]);
}

/// Appending leaves the displays that were there where they were.
pub proof fn law_append_keeps_indices(
    enumerated: Seq<DisplayInfoView>,
    virtuals: Seq<NiriOutputView>,
    embed: bool,
    i: int,
)
    requires
        0 <= i < enumerated.len(),
    ensures
        (enumerated + infos_of(virtuals, embed))[i] == enumerated[i],
{
}

/// A display is told of for an output that has a mode and a place, and as the output is: at its
/// place, as large as its mode, in physical pixels, under its name, and with as many pixels to a
/// point as its mode has to its width in points, or one where that is not known. It is online, and
/// has no size of its own.
pub proof fn law_display_is_told_as_the_output_is(o: NiriOutputView, embed: bool)
    ensures
        info_of(o, embed) is Some <==> o.mode is Some && o.logical is Some,
        info_of(o, embed) matches Some(d) ==> {
            let (w, h, _) = o.mode->0;
            let place = o.logical->0;
            &&& d.name == o.name
            &&& d.x == place.x && d.y == place.y
            &&& d.width == w && d.height == h
            &&& d.online
            &&& d.cursor_embedded == embed
            &&& d.original_resolution.width == 0 && d.original_resolution.height == 0
            &&& place.width > 0 ==> d.scale.points == place.width && d.scale.pixels == w
            &&& place.width <= 0 ==> d.scale.points == 1 && d.scale.pixels == 1
        },
{
}

/// Each output that has a mode and a place stands for a display, in the order of the outputs.
pub proof fn law_each_output_that_is_on_is_told_of(virtuals: Seq<NiriOutputView>, embed: bool)
    ensures
        infos_of(virtuals, embed) == virtuals.filter(
            |o: NiriOutputView| o.mode is Some && o.logical is Some,
        ).map_values(|o: NiriOutputView| info_of(o, embed)->0),
{
    lemma_filter_map_is_filter(
        virtuals,
        |o: NiriOutputView| info_of(o, embed),
        |o: NiriOutputView| o.mode is Some && o.logical is Some,
        |o: NiriOutputView| info_of(o, embed)->0,
    );
}

/// A display is captured if the first virtual output of its name has a mode, and then as large as
/// that mode, at the place that the client knows. What it was advertised with comes before what is
/// enumerated under its index. The displays that are told of include the one that is captured, and
/// are else as many as were advertised, or, where none was, as are enumerated.
pub proof fn law_capture_goes_by_what_the_client_knows(
    idx: int,
    advertised: Option<DisplayInfoView>,
    synced: int,
    enumerated: Option<Seq<DisplayInfoView>>,
    virtuals: Seq<NiriOutputView>,
    embed: bool,
)
    requires
        0 <= idx,
        0 <= synced,
    ensures
        ({
            let plan = capture_of(idx, advertised, synced, enumerated, virtuals, embed);
            let listed = match enumerated {
                Some(list) => list.len() as int,
                None => 0,
            };
            let known = advertised is Some || idx < listed;
            let d = if advertised is Some {
                advertised->0
            } else {
                enumerated->0[idx]
            };
            let o = first_named(virtuals, d.name);
            &&& plan is Some <==> known && o is Some && o->0.mode is Some
            &&& plan matches Some(c) ==> {
                let (w, h, _) = o->0.mode->0;
                &&& c.name == d.name
                &&& c.origin.0 == d.x && c.origin.1 == d.y
                &&& c.width == w && c.height == h
                &&& c.current == idx
                &&& c.current < c.ndisplay
                &&& synced > 0 ==> c.ndisplay >= synced && (c.ndisplay == synced || c.ndisplay == idx
                    + 1)
                &&& synced == 0 ==> c.ndisplay >= listed && (c.ndisplay == listed || c.ndisplay
                    == idx + 1)
                &&& c.privacy_mode_id == 0 && c.capturer_privacy_mode_id == 0
                &&& c.embed_cursor == embed
            }
        }),
{
}

} // verus!
