//! What is said to niri over its IPC socket, and what its replies mean.
//!
//! A request is one JSON document on a line, and so is a reply, `{"Ok": ..}` or `{"Err": ".."}`.
//! The functions here make requests and read the payload of replies; [`crate::ipc_session`] is
//! about sending them. Virtual outputs are those of the make `niri` and the model `virtual`.
use crate::json::{
    each_sent, item_views, json_number, json_value, law_members_are_sent, law_first_member_with_key,
    law_plain_document_is_sent, lemma_objects_are_sent, max_depth, member_views, number_view,
    object1, object2, object3, Json, JsonView,
};
use crate::order::{
    is_sort_of, law_sorting_keeps_items, lemma_filter_empty, lemma_filter_map_is_filter,
    lemma_filter_take_succ, sort_by_name, views, Named,
};
use crate::text::{same_text, text_less};
use vstd::prelude::*;

verus! {

/// Where an output lies in the space that windows are placed in. `scale` is the decimal text of
/// its scale.
#[derive(Debug, Clone)]
pub struct Logical {
    pub x: i32,
    pub y: i32,
    pub width: i32,
    pub height: i32,
    pub scale: String,
}

/// An output of the compositor.
#[derive(Debug, Clone)]
pub struct NiriOutput {
    pub name: String,
    pub make: String,
    pub model: String,
    /// Current mode in physical pixels and millihertz; `None` if the output is off.
    pub mode: Option<(u16, u16, u32)>,
    pub logical: Option<Logical>,
}

/// A workspace of the compositor.
#[derive(Debug, Clone)]
pub struct NiriWorkspace {
    pub id: u64,
    pub output: Option<String>,
    pub has_windows: bool,
}

/// A size in physical pixels.
#[derive(Debug, Clone, Copy, PartialEq, Eq, Structural)]
pub struct Resolution {
    pub width: i32,
    pub height: i32,
}

/// Why a request had no success.
#[derive(Debug)]
pub enum IpcError {
    /// The socket could not be used.
    Io(String),
    /// The reply was blank.
    EmptyReply,
    /// The reply was not a JSON document; what was said of it.
    BadReply(String),
    /// There is no socket to try.
    NoSocket,
    /// The compositor refused the request.
    Refused(String),
    /// The payload does not list outputs.
    UnexpectedOutputs,
    /// The payload does not list workspaces.
    UnexpectedWorkspaces,
    /// There is no virtual output with this name.
    NotVirtual(String),
    /// There is no output with this name.
    OutputMissing(String),
}

/// What an error says; `runtime_dir` is the directory in which sockets are looked for.
pub open spec fn error_text(e: IpcError, runtime_dir: Seq<char>) -> Seq<char> {
    match e {
        IpcError::Io(text) | IpcError::BadReply(text) => text@,
        IpcError::EmptyReply => "empty reply from niri"@,
        IpcError::NoSocket => "no niri IPC socket found in "@ + runtime_dir,
        IpcError::Refused(why) => "niri: "@ + why@,
        IpcError::UnexpectedOutputs => "unexpected Outputs reply"@,
        IpcError::UnexpectedWorkspaces => "unexpected Workspaces reply"@,
        IpcError::NotVirtual(name) => name@ + " is not a niri virtual output"@,
        IpcError::OutputMissing(name) => "niri: output "@ + name@ + " does not exist"@,
    }
}

impl IpcError {
    /// What the error says; `runtime_dir` is the directory in which sockets are looked for.
    pub fn message(&self, runtime_dir: &str) -> (r: String)
        ensures
            r@ == error_text(*self, runtime_dir@),
    {
        match self {
            IpcError::Io(text) => text.clone(),
            IpcError::BadReply(text) => text.clone(),
            IpcError::EmptyReply => "empty reply from niri".to_owned(),
            IpcError::NoSocket => {
                let mut r = "no niri IPC socket found in ".to_owned();
                r.append(runtime_dir);
                r
            },
            IpcError::Refused(why) => {
                let mut r = "niri: ".to_owned();
                r.append(why.as_str());
                r
            },
            IpcError::UnexpectedOutputs => "unexpected Outputs reply".to_owned(),
            IpcError::UnexpectedWorkspaces => "unexpected Workspaces reply".to_owned(),
            IpcError::NotVirtual(name) => {
                let mut r = name.clone();
                r.append(" is not a niri virtual output");
                r
            },
            IpcError::OutputMissing(name) => {
                let mut r = "niri: output ".to_owned();
                r.append(name.as_str());
                r.append(" does not exist");
                r
            },
        }
    }
}

/// The mathematical value of a [`Logical`].
pub struct LogicalView {
    pub x: i32,
    pub y: i32,
    pub width: i32,
    pub height: i32,
    pub scale: Seq<char>,
}

/// The mathematical value of a [`NiriOutput`].
pub struct NiriOutputView {
    pub name: Seq<char>,
    pub make: Seq<char>,
    pub model: Seq<char>,
    pub mode: Option<(u16, u16, u32)>,
    pub logical: Option<LogicalView>,
}

/// The mathematical value of a [`NiriWorkspace`].
pub struct NiriWorkspaceView {
    pub id: u64,
    pub output: Option<Seq<char>>,
    pub has_windows: bool,
}

impl View for Logical {
    type V = LogicalView;

    open spec fn view(&self) -> LogicalView {
        LogicalView {
            x: self.x,
            y: self.y,
            width: self.width,
            height: self.height,
            scale: self.scale@,
        }
    }
}

impl View for NiriOutput {
    type V = NiriOutputView;

    open spec fn view(&self) -> NiriOutputView {
        NiriOutputView {
            name: self.name@,
            make: self.make@,
            model: self.model@,
            mode: self.mode,
            logical: match self.logical {
                Some(l) => Some(l@),
                None => None,
            },
        }
    }
}

impl View for NiriWorkspace {
    type V = NiriWorkspaceView;

    open spec fn view(&self) -> NiriWorkspaceView {
        NiriWorkspaceView {
            id: self.id,
            output: match self.output {
                Some(o) => Some(o@),
                None => None,
            },
            has_windows: self.has_windows,
        }
    }
}

impl Named for NiriOutput {
    open spec fn key(v: NiriOutputView) -> Seq<char> {
        v.name
    }

    fn name(&self) -> (r: &str) {
        self.name.as_str()
    }
}

impl NiriOutputView {
    pub open spec fn is_virtual(self) -> bool {
        self.make == "niri"@ && self.model == "virtual"@
    }

    /// A virtual output that is on: it has a mode and a place.
    pub open spec fn is_virtual_on(self) -> bool {
        self.is_virtual() && self.mode is Some && self.logical is Some
    }
}

impl NiriOutput {
    /// Whether the compositor itself owns this output.
    pub fn is_virtual(&self) -> (r: bool)
        ensures
            r == self@.is_virtual(),
    {
        same_text(self.make.as_str(), "niri") && same_text(self.model.as_str(), "virtual")
    }

    /// Whether this is a virtual output that is on.
    pub fn is_virtual_on(&self) -> (r: bool)
        ensures
            r == self@.is_virtual_on(),
    {
        self.is_virtual() && self.mode.is_some() && self.logical.is_some()
    }
}

/// The text of a member, where the member is a string.
pub open spec fn member_text(v: JsonView, key: Seq<char>) -> Option<Seq<char>> {
    match v.get(key) {
        Some(m) => m.as_text(),
        None => None,
    }
}

/// The value of a member, where the member is a `u64`.
pub open spec fn member_u64(v: JsonView, key: Seq<char>) -> Option<u64> {
    match v.get(key) {
        Some(m) => m.as_u64(),
        None => None,
    }
}

/// The value of a member, where the member is an `i64`.
pub open spec fn member_i64(v: JsonView, key: Seq<char>) -> Option<i64> {
    match v.get(key) {
        Some(m) => m.as_i64(),
        None => None,
    }
}

/// The decimal text of a member, where the member is a number.
pub open spec fn member_decimal(v: JsonView, key: Seq<char>) -> Option<Seq<char>> {
    match v.get(key) {
        Some(m) => m.as_decimal(),
        None => None,
    }
}

/// The items of a member, where the member is an array.
pub open spec fn member_array(v: JsonView, key: Seq<char>) -> Option<Seq<JsonView>> {
    match v.get(key) {
        Some(m) => m.as_array(),
        None => None,
    }
}

fn text_at<'a>(v: &'a Json, key: &str) -> (r: Option<&'a str>)
    ensures
        match r {
            Some(s) => member_text(v@, key@) == Some(s@),
            None => member_text(v@, key@) is None,
        },
{
    match v.get(key) {
        Some(m) => m.as_text(),
        None => None,
    }
}

fn u64_at(v: &Json, key: &str) -> (r: Option<u64>)
    ensures
        r == member_u64(v@, key@),
{
    match v.get(key) {
        Some(m) => m.as_u64(),
        None => None,
    }
}

fn i64_at(v: &Json, key: &str) -> (r: Option<i64>)
    ensures
        r == member_i64(v@, key@),
{
    match v.get(key) {
        Some(m) => m.as_i64(),
        None => None,
    }
}

fn decimal_at<'a>(v: &'a Json, key: &str) -> (r: Option<&'a str>)
    ensures
        match r {
            Some(s) => member_decimal(v@, key@) == Some(s@),
            None => member_decimal(v@, key@) is None,
        },
{
    match v.get(key) {
        Some(m) => m.as_decimal(),
        None => None,
    }
}

fn array_at<'a>(v: &'a Json, key: &str) -> (r: Option<&'a Vec<Json>>)
    ensures
        match r {
            Some(items) => member_array(v@, key@) == Some(item_views(items@)),
            None => member_array(v@, key@) is None,
        },
{
    match v.get(key) {
        Some(m) => m.as_array(),
        None => None,
    }
}

/// The text of a member, and nothing where it is missing or not a string.
pub open spec fn text_or_empty(v: JsonView, key: Seq<char>) -> Seq<char> {
    match member_text(v, key) {
        Some(s) => s,
        None => Seq::empty(),
    }
}

/// A mode: width, height and refresh rate, cut to the widths of their types.
pub open spec fn mode_of(m: JsonView) -> Option<(u16, u16, u32)> {
    match (
        member_u64(m, "width"@),
        member_u64(m, "height"@),
        member_u64(m, "refresh_rate"@),
    ) {
        (Some(w), Some(h), Some(rate)) => Some((w as u16, h as u16, rate as u32)),
        _ => None,
    }
}

/// The mode that `current_mode` points at in the list of modes.
pub open spec fn current_mode_of(v: JsonView) -> Option<(u16, u16, u32)> {
    match (member_u64(v, "current_mode"@), member_array(v, "modes"@)) {
        (Some(i), Some(modes)) => if (i as usize) < modes.len() {
            mode_of(modes[i as usize as int])
        } else {
            None
        },
        _ => None,
    }
}

/// A logical position, all of whose members are there; the integers are cut to `i32`.
pub open spec fn logical_of(l: JsonView) -> Option<LogicalView> {
    match (
        member_i64(l, "x"@),
        member_i64(l, "y"@),
        member_i64(l, "width"@),
        member_i64(l, "height"@),
        member_decimal(l, "scale"@),
    ) {
        (Some(x), Some(y), Some(width), Some(height), Some(scale)) => Some(
            LogicalView {
                x: x as i32,
                y: y as i32,
                width: width as i32,
                height: height as i32,
                scale,
            },
        ),
        _ => None,
    }
}

/// The output that a document describes. Only the name has to be there.
pub open spec fn output_of(v: JsonView) -> Option<NiriOutputView> {
    match member_text(v, "name"@) {
        Some(name) => Some(
            NiriOutputView {
                name,
                make: text_or_empty(v, "make"@),
                model: text_or_empty(v, "model"@),
                mode: current_mode_of(v),
                logical: match v.get("logical"@) {
                    Some(l) => logical_of(l),
                    None => None,
                },
            },
        ),
        None => None,
    }
}

fn parse_mode(m: &Json) -> (r: Option<(u16, u16, u32)>)
    ensures
        r == mode_of(m@),
{
    match (u64_at(m, "width"), u64_at(m, "height"), u64_at(m, "refresh_rate")) {
        (Some(w), Some(h), Some(rate)) => Some((w as u16, h as u16, rate as u32)),
        _ => None,
    }
}

fn parse_logical(l: &Json) -> (r: Option<Logical>)
    ensures
        match r {
            Some(p) => logical_of(l@) == Some(p@),
            None => logical_of(l@) is None,
        },
{
    match (
        i64_at(l, "x"),
        i64_at(l, "y"),
        i64_at(l, "width"),
        i64_at(l, "height"),
        decimal_at(l, "scale"),
    ) {
        (Some(x), Some(y), Some(width), Some(height), Some(scale)) => Some(
            Logical {
                x: x as i32,
                y: y as i32,
                width: width as i32,
                height: height as i32,
                scale: scale.to_owned(),
            },
        ),
        _ => None,
    }
}

/// Reads the description of an output; `None` if it has no name.
pub fn parse_output(v: &Json) -> (r: Option<NiriOutput>)
    ensures
        match r {
            Some(o) => output_of(v@) == Some(o@),
            None => output_of(v@) is None,
        },
{
    let name = match text_at(v, "name") {
        Some(name) => name.to_owned(),
        None => {
            return None;
        },
    };
    let make = match text_at(v, "make") {
        Some(make) => make.to_owned(),
        None => String::new(),
    };
    let model = match text_at(v, "model") {
        Some(model) => model.to_owned(),
        None => String::new(),
    };
    let mode = match (u64_at(v, "current_mode"), array_at(v, "modes")) {
        (Some(i), Some(modes)) => if (i as usize) < modes.len() {
            parse_mode(&modes[i as usize])
        } else {
            None
        },
        _ => None,
    };
    let logical = match v.get("logical") {
        Some(l) => parse_logical(l),
        None => None,
    };
    Some(NiriOutput { name, make, model, mode, logical })
}

/// The outputs that the members of a document describe, in the order of the members.
pub open spec fn described_outputs(members: Seq<(Seq<char>, JsonView)>) -> Seq<NiriOutputView> {
    members.filter_map(|m: (Seq<char>, JsonView)| output_of(m.1))
}

/// Reads the reply to [`outputs_request`]: the outputs, in the order of their names. Members that
/// do not describe an output are passed over.
pub fn outputs(reply: Result<Json, IpcError>) -> (r: Result<Vec<NiriOutput>, IpcError>)
    ensures
        match reply {
            Err(e) => r == Err::<Vec<NiriOutput>, _>(e),
            Ok(payload) => match payload@.get("Outputs"@) {
                Some(JsonView::Object(members)) => r is Ok && is_sort_of(
                    views(r->Ok_0@),
                    described_outputs(members),
                    |o: NiriOutputView| o.name,
                ),
                _ => r == Err::<Vec<NiriOutput>, _>(IpcError::UnexpectedOutputs),
            },
        },
{
    let payload = match reply {
        Ok(payload) => payload,
        Err(e) => {
            return Err(e);
        },
    };
    let members = match payload.get("Outputs") {
        Some(list) => match list.as_object() {
            Some(members) => members,
            None => {
                return Err(IpcError::UnexpectedOutputs);
            },
        },
        None => {
            return Err(IpcError::UnexpectedOutputs);
        },
    };
    let ghost all = member_views(members@);
    let ghost read = |m: (Seq<char>, JsonView)| output_of(m.1);
    let mut list: Vec<NiriOutput> = Vec::new();
    let mut i: usize = 0;
    assert(views(list@) =~= all.take(0).filter_map(read)) by {
        reveal(Seq::filter_map);
        assert(all.take(0).len() == 0);
    }
    while i < members.len()
        invariant
            i <= members@.len(),
            all == member_views(members@),
            read == |m: (Seq<char>, JsonView)| output_of(m.1),
            views(list@) == all.take(i as int).filter_map(read),
        decreases members@.len() - i,
    {
        proof {
            all.lemma_filter_map_take_succ(read, i as int);
        }
        if let Some(o) = parse_output(&members[i].1) {
            let ghost before = list@;
            list.push(o);
            assert(views(list@) =~= views(before) + seq![o@]);
        } else {
            assert(views(list@) =~= views(list@) + Seq::empty());
        }
        i = i + 1;
    }
    assert(all.take(all.len() as int) =~= all);
    let sorted = sort_by_name(list);
    assert(is_sort_of(views(sorted@), views(list@), |o: NiriOutputView| o.name)) by {
        let k1 = |v: NiriOutputView| <NiriOutput as Named>::key(v);
        let k2 = |o: NiriOutputView| o.name;
        assert(k1 =~= k2);
    }
    Ok(sorted)
}

/// The virtual outputs that are on, in the order of the list that was asked for. None if the
/// compositor cannot be asked.
pub fn virtual_outputs(list: Result<Vec<NiriOutput>, IpcError>) -> (r: Vec<NiriOutput>)
    ensures
        views(r@) == (match list {
            Ok(l) => views(l@).filter(|o: NiriOutputView| o.is_virtual_on()),
            Err(_) => Seq::empty(),
        }),
{
    let mut kept: Vec<NiriOutput> = Vec::new();
    assert(views(kept@) =~= Seq::empty());
    if let Ok(list) = list {
        let ghost all = views(list@);
        let ghost on = |o: NiriOutputView| o.is_virtual_on();
        proof {
            lemma_filter_empty(all.take(0), on);
        }
        for o in it: list
            invariant
                it.seq() == list@,
                all == views(list@),
                on == |o: NiriOutputView| o.is_virtual_on(),
                views(kept@) == all.take(it.index() as int).filter(on),
        {
            proof {
                lemma_filter_take_succ(all, on, it.index() as int);
            }
            if o.is_virtual_on() {
                let ghost before = kept@;
                kept.push(o);
                assert(views(kept@) =~= views(before).push(o@));
            }
        }
        assert(all.take(all.len() as int) =~= all);
    }
    kept
}

/// The first output with a name.
pub open spec fn first_named(list: Seq<NiriOutputView>, name: Seq<char>) -> Option<NiriOutputView>
    decreases list.len(),
{
    if list.len() == 0 {
        None
    } else if list[0].name == name {
        Some(list[0])
    } else {
        first_named(list.drop_first(), name)
    }
}

/// The virtual output with a name, among those that are on.
pub fn find_virtual(virtuals: Vec<NiriOutput>, name: &str) -> (r: Option<NiriOutput>)
    ensures
        match r {
            Some(o) => first_named(views(virtuals@), name@) == Some(o@),
            None => first_named(views(virtuals@), name@) is None,
        },
{
    let mut rest = virtuals;
    let ghost all = views(virtuals@);
    let mut i: usize = 0;
    assert(all.skip(0) =~= all);
    while i < rest.len()
        invariant
            i <= rest@.len(),
            rest@ == virtuals@,
            all == views(virtuals@),
            first_named(all, name@) == first_named(all.skip(i as int), name@),
        decreases rest@.len() - i,
    {
        assert(all.skip(i as int)[0] == rest@[i as int]@);
        if same_text(rest[i].name.as_str(), name) {
            return Some(rest.swap_remove(i));
        }
        assert(all.skip(i as int).drop_first() =~= all.skip(i + 1));
        i = i + 1;
    }
    None
}

/// Asks for the compositor's version.
pub fn version_request() -> (r: Json)
    ensures
        r@ == JsonView::Text("Version"@),
        r@.is_shallow(max_depth()),
{
    Json::text("Version")
}

/// Whether a compositor answers, given the reply to [`version_request`].
pub fn is_available(reply: &Result<Json, IpcError>) -> (r: bool)
    ensures
        r == (reply is Ok),
{
    reply.is_ok()
}

/// Asks for the list of outputs.
pub fn outputs_request() -> (r: Json)
    ensures
        r@ == JsonView::Text("Outputs"@),
        r@.is_shallow(max_depth()),
{
    Json::text("Outputs")
}

/// The refresh rate that a mode is set with, in hertz.
#[derive(Debug)]
pub enum Refresh {
    /// The rate that was asked for, as decimal text.
    Given(String),
    /// The rate of the current mode, in millihertz.
    Current(u32),
    /// 60 hertz.
    Standard,
}

/// Decides on setting a custom mode: only a virtual output that is on has one set. Without
/// `refresh_hz` it keeps its refresh rate. The request is [`custom_mode_request`].
pub fn set_custom_mode(virtuals: Vec<NiriOutput>, name: &str, refresh_hz: Option<String>) -> (r:
    Result<Refresh, IpcError>)
    ensures
        match first_named(views(virtuals@), name@) {
            None => r matches Err(IpcError::NotVirtual(n)) && n@ == name@,
            Some(o) => match (refresh_hz, o.mode) {
                (Some(hz), _) => r == Ok::<_, IpcError>(Refresh::Given(hz)),
                (None, Some((_, _, mhz))) => r == Ok::<_, IpcError>(Refresh::Current(mhz)),
                (None, None) => r == Ok::<_, IpcError>(Refresh::Standard),
            },
        },
{
    match find_virtual(virtuals, name) {
        None => Err(IpcError::NotVirtual(name.to_owned())),
        Some(output) => match (refresh_hz, output.mode) {
            (Some(hz), _) => Ok(Refresh::Given(hz)),
            (None, Some((_, _, mhz))) => Ok(Refresh::Current(mhz)),
            (None, None) => Ok(Refresh::Standard),
        },
    }
}

/// The request that gives an output an action.
pub open spec fn output_action(name: Seq<char>, action: JsonView) -> JsonView {
    object1("Output"@, object2("action"@, action, "output"@, JsonView::Text(name)))
}

/// The request for a custom mode, with a refresh rate.
pub open spec fn custom_mode(name: Seq<char>, width: u16, height: u16, refresh: JsonView) -> JsonView {
    output_action(
        name,
        object1(
            "CustomMode"@,
            object1(
                "mode"@,
                object3(
                    "height"@,
                    JsonView::unsigned(height as u64),
                    "refresh"@,
                    refresh,
                    "width"@,
                    JsonView::unsigned(width as u64),
                ),
            ),
        ),
    )
}

/// Asks for a custom mode; `refresh` is the rate in hertz, as decimal text. It is sent as the number
/// that is read in the text, and everything else as it is.
pub fn custom_mode_request(name: &str, width: u16, height: u16, refresh: &str) -> (r: Json)
    ensures
        r@ == custom_mode(name@, width, height, JsonView::fraction(refresh@)),
        json_value(r@) == custom_mode(name@, width, height, number_view(json_number(refresh@))),
        r@.is_shallow(max_depth()),
{
    let mode = Json::object_of_3(
        "height",
        Json::unsigned(height as u64),
        "refresh",
        Json::fraction(refresh),
        "width",
        Json::unsigned(width as u64),
    );
    proof {
        lemma_keys_in_order();
        let h = JsonView::unsigned(height as u64);
        let w = JsonView::unsigned(width as u64);
        let f = JsonView::fraction(refresh@);
        let nothing = JsonView::Null;
        lemma_objects_are_sent("height"@, h, "refresh"@, f, "width"@, w);
        lemma_objects_are_sent("mode"@, mode@, "mode"@, nothing, "mode"@, nothing);
        let action = object1("mode"@, mode@);
        lemma_objects_are_sent("CustomMode"@, action, "mode"@, nothing, "mode"@, nothing);
        let named = object1("CustomMode"@, action);
        let to = JsonView::Text(name@);
        lemma_objects_are_sent("action"@, named, "output"@, to, "output"@, nothing);
        let body = object2("action"@, named, "output"@, to);
        lemma_objects_are_sent("Output"@, body, "output"@, nothing, "output"@, nothing);
        reveal_with_fuel(JsonView::is_shallow, 7);
    }
    let action = Json::object_of_1("CustomMode", Json::object_of_1("mode", mode));
    Json::object_of_1("Output", Json::object_of_2("action", action, "output", Json::text(name)))
}

/// The keys of requests stand in their order.
proof fn lemma_keys_in_order()
    ensures
        text_less("action"@, "output"@),
        text_less("output"@, "reference"@),
        text_less("height"@, "refresh"@),
        text_less("refresh"@, "width"@),
        text_less("height"@, "name"@),
        text_less("height"@, "refresh_rate"@),
        text_less("height"@, "scale"@),
        text_less("height"@, "width"@),
        text_less("name"@, "refresh_rate"@),
        text_less("name"@, "scale"@),
        text_less("name"@, "width"@),
        text_less("refresh_rate"@, "scale"@),
        text_less("refresh_rate"@, "width"@),
        text_less("scale"@, "width"@),
{
    reveal_strlit("action");
    reveal_strlit("output");
    reveal_strlit("reference");
    reveal_strlit("height");
    reveal_strlit("name");
    reveal_strlit("refresh");
    reveal_strlit("refresh_rate");
    reveal_strlit("scale");
    reveal_strlit("width");
}

/// Asks for an output to be turned on or off.
pub fn output_enabled_request(name: &str, on: bool) -> (r: Json)
    ensures
        r@ == output_action(
            name@,
            JsonView::Text(if on {
                "On"@
            } else {
                "Off"@
            }),
        ),
        json_value(r@) == r@,
        r@.is_shallow(max_depth()),
{
    let action = if on {
        Json::text("On")
    } else {
        Json::text("Off")
    };
    let r = Json::object_of_1(
        "Output",
        Json::object_of_2("action", action, "output", Json::text(name)),
    );
    proof {
        lemma_keys_in_order();
        reveal_with_fuel(JsonView::is_plain, 4);
        law_plain_document_is_sent(r@, max_depth());
    }
    r
}

/// Reads the reply to [`output_enabled_request`]. That there is no such output is said in a reply
/// that is otherwise a success.
pub fn set_output_enabled(name: &str, reply: Result<Json, IpcError>) -> (r: Result<(), IpcError>)
    ensures
        match reply {
            Err(e) => r == Err::<(), _>(e),
            Ok(payload) => if member_text(payload@, "OutputConfigChanged"@) == Some(
                "OutputWasMissing"@,
            ) {
                r matches Err(IpcError::OutputMissing(n)) && n@ == name@
            } else {
                r == Ok::<(), IpcError>(())
            },
        },
{
    let payload = match reply {
        Ok(payload) => payload,
        Err(e) => {
            return Err(e);
        },
    };
    match text_at(&payload, "OutputConfigChanged") {
        Some(change) => if same_text(change, "OutputWasMissing") {
            Err(IpcError::OutputMissing(name.to_owned()))
        } else {
            Ok(())
        },
        None => Ok(()),
    }
}

/// Asks for the list of workspaces.
pub fn workspaces_request() -> (r: Json)
    ensures
        r@ == JsonView::Text("Workspaces"@),
        r@.is_shallow(max_depth()),
{
    Json::text("Workspaces")
}

/// The workspace that a document describes. Only the id has to be there; a workspace has windows
/// if one of them is active.
pub open spec fn workspace_of(w: JsonView) -> Option<NiriWorkspaceView> {
    match member_u64(w, "id"@) {
        Some(id) => Some(
            NiriWorkspaceView {
                id,
                output: member_text(w, "output"@),
                has_windows: match w.get("active_window_id"@) {
                    Some(v) => !(v is Null),
                    None => false,
                },
            },
        ),
        None => None,
    }
}

fn parse_workspace(w: &Json) -> (r: Option<NiriWorkspace>)
    ensures
        match r {
            Some(ws) => workspace_of(w@) == Some(ws@),
            None => workspace_of(w@) is None,
        },
{
    let id = match u64_at(w, "id") {
        Some(id) => id,
        None => {
            return None;
        },
    };
    let output = match text_at(w, "output") {
        Some(output) => Some(output.to_owned()),
        None => None,
    };
    let has_windows = match w.get("active_window_id") {
        Some(v) => !v.is_null(),
        None => false,
    };
    Some(NiriWorkspace { id, output, has_windows })
}

/// Reads the reply to [`workspaces_request`]: the workspaces, in the order of the reply. Items
/// that do not describe a workspace are passed over.
pub fn workspaces(reply: Result<Json, IpcError>) -> (r: Result<Vec<NiriWorkspace>, IpcError>)
    ensures
        match reply {
            Err(e) => r == Err::<Vec<NiriWorkspace>, _>(e),
            Ok(payload) => match member_array(payload@, "Workspaces"@) {
                Some(items) => r is Ok && views(r->Ok_0@) == items.filter_map(
                    |w: JsonView| workspace_of(w),
                ),
                None => r == Err::<Vec<NiriWorkspace>, _>(IpcError::UnexpectedWorkspaces),
            },
        },
{
    let payload = match reply {
        Ok(payload) => payload,
        Err(e) => {
            return Err(e);
        },
    };
    let items = match array_at(&payload, "Workspaces") {
        Some(items) => items,
        None => {
            return Err(IpcError::UnexpectedWorkspaces);
        },
    };
    let ghost all = item_views(items@);
    let ghost read = |w: JsonView| workspace_of(w);
    let mut list: Vec<NiriWorkspace> = Vec::new();
    let mut i: usize = 0;
    assert(views(list@) =~= all.take(0).filter_map(read));
    while i < items.len()
        invariant
            i <= items@.len(),
            all == item_views(items@),
            read == |w: JsonView| workspace_of(w),
            views(list@) == all.take(i as int).filter_map(read),
        decreases items@.len() - i,
    {
        proof {
            all.lemma_filter_map_take_succ(read, i as int);
        }
        if let Some(ws) = parse_workspace(&items[i]) {
            let ghost before = list@;
            list.push(ws);
            assert(views(list@) =~= views(before) + seq![ws@]);
        } else {
            assert(views(list@) =~= views(list@) + Seq::empty());
        }
        i = i + 1;
    }
    assert(all.take(all.len() as int) =~= all);
    Ok(list)
}

/// Asks for a workspace, addressed by its stable id, to be moved to an output.
pub fn move_workspace_to_monitor(id: u64, output: &str) -> (r: Json)
    ensures
        r@ == object1(
            "Action"@,
            object1(
                "MoveWorkspaceToMonitor"@,
                object2(
                    "output"@,
                    JsonView::Text(output@),
                    "reference"@,
                    object1("Id"@, JsonView::unsigned(id)),
                ),
            ),
        ),
        json_value(r@) == r@,
        r@.is_shallow(max_depth()),
{
    let reference = Json::object_of_1("Id", Json::unsigned(id));
    let to = Json::object_of_2("output", Json::text(output), "reference", reference);
    let r = Json::object_of_1("Action", Json::object_of_1("MoveWorkspaceToMonitor", to));
    proof {
        lemma_keys_in_order();
        reveal_with_fuel(JsonView::is_plain, 6);
        law_plain_document_is_sent(r@, max_depth());
    }
    r
}

/// The members of the description of a new virtual output.
pub open spec fn virtual_output_members(
    name: Seq<char>,
    width: u16,
    height: u16,
    refresh_hz: u32,
    scale: JsonView,
) -> Seq<(Seq<char>, JsonView)> {
    seq![
        ("height"@, JsonView::unsigned(height as u64)),
        ("name"@, JsonView::Text(name)),
        ("refresh_rate"@, JsonView::unsigned(refresh_hz as u64)),
        ("scale"@, scale),
        ("width"@, JsonView::unsigned(width as u64)),
    ]
}

/// Asks for a new virtual output; `scale` is its scale as decimal text, if it is to have one. The
/// scale is sent as the number that is read in the text, and everything else as it is.
pub fn create_virtual_output_request(
    name: &str,
    width: u16,
    height: u16,
    refresh_hz: u32,
    scale: Option<&str>,
) -> (r: Json)
    ensures
        r@ == object1(
            "CreateVirtualOutput"@,
            JsonView::Object(
                virtual_output_members(
                    name@,
                    width,
                    height,
                    refresh_hz,
                    match scale {
                        Some(s) => JsonView::fraction(s@),
                        None => JsonView::Null,
                    },
                ),
            ),
        ),
        json_value(r@) == object1(
            "CreateVirtualOutput"@,
            JsonView::Object(
                virtual_output_members(
                    name@,
                    width,
                    height,
                    refresh_hz,
                    match scale {
                        Some(s) => number_view(json_number(s@)),
                        None => JsonView::Null,
                    },
                ),
            ),
        ),
        r@.is_shallow(max_depth()),
{
    let scale_value = match scale {
        Some(s) => Json::fraction(s),
        None => Json::Null,
    };
    let members = vec![
        ("height".to_owned(), Json::unsigned(height as u64)),
        ("name".to_owned(), Json::text(name)),
        ("refresh_rate".to_owned(), Json::unsigned(refresh_hz as u64)),
        ("scale".to_owned(), scale_value),
        ("width".to_owned(), Json::unsigned(width as u64)),
    ];
    assert(member_views(members@) =~= virtual_output_members(
        name@,
        width,
        height,
        refresh_hz,
        scale_value@,
    ));
    proof {
        let asked = member_views(members@);
        lemma_keys_in_order();
        law_members_are_sent(asked);
        assert(each_sent(asked) =~= virtual_output_members(
            name@,
            width,
            height,
            refresh_hz,
            json_value(scale_value@),
        ));
        let (nothing, key) = (JsonView::Null, "CreateVirtualOutput"@);
        lemma_objects_are_sent(key, JsonView::Object(asked), key, nothing, key, nothing);
        reveal_with_fuel(JsonView::is_shallow, 4);
    }
    Json::object_of_1("CreateVirtualOutput", Json::object(members))
}

/// Reads the reply to [`create_virtual_output_request`]: the name that the output was given, which
/// is the one asked for unless the reply says otherwise.
pub fn create_virtual_output(name: &str, reply: Result<Json, IpcError>) -> (r: Result<
    String,
    IpcError,
>)
    ensures
        match reply {
            Err(e) => r == Err::<String, _>(e),
            Ok(payload) => r is Ok && r->Ok_0@ == (match member_text(
                payload@,
                "VirtualOutputCreated"@,
            ) {
                Some(given) => given,
                None => name@,
            }),
        },
{
    match reply {
        Ok(payload) => match text_at(&payload, "VirtualOutputCreated") {
            Some(given) => Ok(given.to_owned()),
            None => Ok(name.to_owned()),
        },
        Err(e) => Err(e),
    }
}

/// Asks for a virtual output to be removed.
pub fn remove_virtual_output(name: &str) -> (r: Json)
    ensures
        r@ == object1("RemoveVirtualOutput"@, object1("name"@, JsonView::Text(name@))),
        json_value(r@) == r@,
        r@.is_shallow(max_depth()),
{
    let r = Json::object_of_1("RemoveVirtualOutput", Json::object_of_1("name", Json::text(name)));
    proof {
        reveal_with_fuel(JsonView::is_plain, 4);
        law_plain_document_is_sent(r@, max_depth());
    }
    r
}

/// The largest width or height that is offered.
pub const MAX_DIMENSION: i32 = 16384;

/// The resolutions that are offered next to the current one, in physical pixels.
pub open spec fn preset_resolutions() -> Seq<Resolution> {
    seq![
        Resolution { width: 3024, height: 1964 },
        Resolution { width: 2560, height: 1600 },
        Resolution { width: 2560, height: 1440 },
        Resolution { width: 1920, height: 1200 },
        Resolution { width: 1920, height: 1080 },
        Resolution { width: 1680, height: 1050 },
        Resolution { width: 1600, height: 900 },
        Resolution { width: 1440, height: 900 },
        Resolution { width: 1280, height: 800 },
    ]
}

fn presets() -> (r: Vec<Resolution>)
    ensures
        r@ == preset_resolutions(),
{
    let r = vec![
        Resolution { width: 3024, height: 1964 },
        Resolution { width: 2560, height: 1600 },
        Resolution { width: 2560, height: 1440 },
        Resolution { width: 1920, height: 1200 },
        Resolution { width: 1920, height: 1080 },
        Resolution { width: 1680, height: 1050 },
        Resolution { width: 1600, height: 900 },
        Resolution { width: 1440, height: 900 },
        Resolution { width: 1280, height: 800 },
    ];
    assert(r@ =~= preset_resolutions());
    r
}

/// Which presets are offered next to a resolution.
pub open spec fn is_offered(own: Resolution) -> spec_fn(Resolution) -> bool {
    |p: Resolution| p.width <= MAX_DIMENSION && p.height <= MAX_DIMENSION && p != own
}

/// The resolutions offered for an output: its own, then the presets that differ from it.
pub open spec fn offered_resolutions(own: Resolution) -> Seq<Resolution> {
    seq![own] + preset_resolutions().filter(is_offered(own))
}

/// The current resolution of a virtual output.
pub open spec fn own_resolution(virtuals: Seq<NiriOutputView>, name: Seq<char>) -> Option<
    Resolution,
> {
    match first_named(virtuals, name) {
        Some(o) => match o.mode {
            Some((w, h, _)) => Some(Resolution { width: w as i32, height: h as i32 }),
            None => None,
        },
        None => None,
    }
}

/// The current resolution of a virtual output, or `None` if `name` is not one.
pub fn current_resolution_for(virtuals: Vec<NiriOutput>, name: &str) -> (r: Option<Resolution>)
    ensures
        r == own_resolution(views(virtuals@), name@),
{
    match find_virtual(virtuals, name) {
        Some(o) => match o.mode {
            Some((w, h, _)) => Some(Resolution { width: w as i32, height: h as i32 }),
            None => None,
        },
        None => None,
    }
}

/// The resolutions advertised for a virtual output, or `None` if `name` is not one.
pub fn resolutions_for(virtuals: Vec<NiriOutput>, name: &str) -> (r: Option<Vec<Resolution>>)
    ensures
        match own_resolution(views(virtuals@), name@) {
            Some(own) => r is Some && r->0@ == offered_resolutions(own),
            None => r is None,
        },
{
    let own = match current_resolution_for(virtuals, name) {
        Some(own) => own,
        None => {
            return None;
        },
    };
    let presets = presets();
    let ghost all = preset_resolutions();
    let ghost other = is_offered(own);
    let mut list: Vec<Resolution> = vec![own];
    let mut i: usize = 0;
    proof {
        lemma_filter_empty(all.take(0), other);
        assert(list@ =~= seq![own] + all.take(0).filter(other));
    }
    while i < presets.len()
        invariant
            i <= presets@.len(),
            presets@ == all,
            all == preset_resolutions(),
            other == is_offered(own),
            list@ == seq![own] + all.take(i as int).filter(other),
        decreases presets@.len() - i,
    {
        let p = presets[i];
        proof {
            lemma_filter_take_succ(all, other, i as int);
        }
        if p.width <= MAX_DIMENSION && p.height <= MAX_DIMENSION && p != own {
            list.push(p);
            assert(list@ =~= seq![own] + all.take(i + 1).filter(other));
        }
        i = i + 1;
    }
    assert(all.take(all.len() as int) =~= all);
    Some(list)
}

/// The current resolution is offered, before the others.
pub proof fn law_own_resolution_first(own: Resolution)
    ensures
        offered_resolutions(own).len() > 0,
        offered_resolutions(own)[0] == own,
{
}

/// What a filter keeps of a list without repetitions has none.
proof fn lemma_filter_no_duplicates(s: Seq<Resolution>, p: spec_fn(Resolution) -> bool)
    requires
        s.no_duplicates(),
    ensures
        s.filter(p).no_duplicates(),
        forall|i: int| 0 <= i < s.filter(p).len() ==> p(#[trigger] s.filter(p)[i]),
        forall|i: int| 0 <= i < s.filter(p).len() ==> s.contains(#[trigger] s.filter(p)[i]),
    decreases s.len(),
{
    reveal(Seq::filter);
    if s.len() > 0 {
        let front = s.drop_last();
        lemma_filter_no_duplicates(front, p);
        let kept = front.filter(p);
        assert forall|i: int| 0 <= i < kept.len() implies s.contains(#[trigger] kept[i])
            && kept[i] != s.last() by {
            let k = choose|k: int| 0 <= k < front.len() && front[k] == kept[i];
            assert(s[k] == kept[i]);
        }
        assert(s[s.len() - 1] == s.last());
    }
}

/// No resolution is offered twice.
pub proof fn law_offers_differ(own: Resolution)
    ensures
        offered_resolutions(own).no_duplicates(),
{
    lemma_filter_no_duplicates(preset_resolutions(), is_offered(own));
    let kept = preset_resolutions().filter(is_offered(own));
    assert forall|i: int, j: int|
        0 <= i < j < offered_resolutions(own).len() implies offered_resolutions(own)[i]
        != offered_resolutions(own)[j] by {
        assert(offered_resolutions(own)[j] == kept[j - 1]);
        assert(is_offered(own)(kept[j - 1]));
    }
}

/// Every preset is offered, unless it is the current resolution.
pub proof fn law_presets_are_offered(own: Resolution, i: int)
    requires
        0 <= i < preset_resolutions().len(),
    ensures
        offered_resolutions(own).contains(preset_resolutions()[i]),
{
    let p = preset_resolutions()[i];
    let kept = preset_resolutions().filter(is_offered(own));
    if p == own {
        assert(offered_resolutions(own)[0] == p);
    } else {
        preset_resolutions().lemma_filter_contains(is_offered(own), i);
        let k = choose|k: int| 0 <= k < kept.len() && kept[k] == p;
        assert(offered_resolutions(own)[k + 1] == p);
    }
}

/// An output that is found among the virtual ones has the name, is virtual and is on.
pub proof fn law_found_is_virtual_and_on(list: Seq<NiriOutputView>, name: Seq<char>)
    ensures
        first_named(list.filter(|o: NiriOutputView| o.is_virtual_on()), name) matches Some(o)
            ==> o.name == name && o.is_virtual_on(),
{
    let on = |o: NiriOutputView| o.is_virtual_on();
    let kept = list.filter(on);
    lemma_first_named_is_there(kept, name);
    if first_named(kept, name) is Some {
        let i = choose|i: int| 0 <= i < kept.len() && Some(kept[i]) == first_named(kept, name);
        list.lemma_filter_pred(on, i);
    }
}

proof fn lemma_first_named_is_there(list: Seq<NiriOutputView>, name: Seq<char>)
    ensures
        first_named(list, name) matches Some(o) ==> o.name == name && list.contains(o),
    decreases list.len(),
{
    if list.len() > 0 {
        let rest = list.drop_first();
        lemma_first_named_is_there(rest, name);
        if list[0].name == name {
            assert(list.contains(list[0]));
        } else if first_named(rest, name) is Some {
            let o = first_named(rest, name)->0;
            let k = choose|k: int| 0 <= k < rest.len() && rest[k] == o;
            assert(list[k + 1] == o);
        }
    }
}

/// A number of a document as an unsigned integer.
pub open spec fn is_unsigned(v: Option<JsonView>, n: int) -> bool {
    v matches Some(JsonView::Number { unsigned: Some(u), .. }) && u == n
}

/// A number of a document as a signed integer.
pub open spec fn is_signed(v: Option<JsonView>, n: int) -> bool {
    v matches Some(JsonView::Number { signed: Some(i), .. }) && i == n
}

/// A mode is read as the three numbers that it is listed with; of numbers that are too large for
/// their types the low bits are.
pub proof fn law_mode_is_read_as_listed(m: JsonView, w: int, h: int, rate: int)
    requires
        is_unsigned(m.get("width"@), w),
        is_unsigned(m.get("height"@), h),
        is_unsigned(m.get("refresh_rate"@), rate),
    ensures
        mode_of(m) matches Some((a, b, c)) && {
            &&& a == w % 0x1_0000
            &&& b == h % 0x1_0000
            &&& c == rate % 0x1_0000_0000
            &&& w < 0x1_0000 ==> a == w
            &&& h < 0x1_0000 ==> b == h
            &&& rate < 0x1_0000_0000 ==> c == rate
        },
{
    let (w, h, rate) = (w as u64, h as u64, rate as u64);
    assert(w as u16 == w % 0x1_0000) by (bit_vector);
    assert(h as u16 == h % 0x1_0000) by (bit_vector);
    assert(rate as u32 == rate % 0x1_0000_0000) by (bit_vector);
}

/// A mode that lacks one of its numbers is none.
pub proof fn law_mode_needs_its_numbers(m: JsonView)
    requires
        mode_of(m) is Some,
    ensures
        m.get("width"@) matches Some(JsonView::Number { unsigned: Some(_), .. }),
        m.get("height"@) matches Some(JsonView::Number { unsigned: Some(_), .. }),
        m.get("refresh_rate"@) matches Some(JsonView::Number { unsigned: Some(_), .. }),
{
}

/// The mode of an output is the one in its list of modes whose index it gives as the current one;
/// an output that gives no such index, or no list, has none.
pub proof fn law_current_mode_is_the_one_pointed_at(v: JsonView, modes: Seq<JsonView>, i: int)
    requires
        v.get("modes"@) == Some(JsonView::Array(modes)),
        0 <= i <= usize::MAX,
    ensures
        is_unsigned(v.get("current_mode"@), i) && i < modes.len() ==> current_mode_of(v) == mode_of(
            modes[i],
        ),
        is_unsigned(v.get("current_mode"@), i) && i >= modes.len() ==> current_mode_of(v) is None,
        !(v.get("current_mode"@) matches Some(JsonView::Number { unsigned: Some(_), .. }))
            ==> current_mode_of(v) is None,
{
}

/// A place is read as the numbers that it is given with, and its scale as the text of the number.
pub proof fn law_place_is_read_as_given(
    l: JsonView,
    x: int,
    y: int,
    width: int,
    height: int,
    scale: Seq<char>,
)
    requires
        is_signed(l.get("x"@), x),
        is_signed(l.get("y"@), y),
        is_signed(l.get("width"@), width),
        is_signed(l.get("height"@), height),
        l.get("scale"@) matches Some(JsonView::Number { text, .. }) && text == scale,
    ensures
        logical_of(l) matches Some(p) && {
            &&& i32::MIN <= x <= i32::MAX ==> p.x == x
            &&& i32::MIN <= y <= i32::MAX ==> p.y == y
            &&& i32::MIN <= width <= i32::MAX ==> p.width == width
            &&& i32::MIN <= height <= i32::MAX ==> p.height == height
            &&& p.scale == scale
        },
{
}

/// A place that lacks one of its numbers is none.
pub proof fn law_place_needs_its_numbers(l: JsonView)
    requires
        logical_of(l) is Some,
    ensures
        l.get("x"@) matches Some(JsonView::Number { signed: Some(_), .. }),
        l.get("y"@) matches Some(JsonView::Number { signed: Some(_), .. }),
        l.get("width"@) matches Some(JsonView::Number { signed: Some(_), .. }),
        l.get("height"@) matches Some(JsonView::Number { signed: Some(_), .. }),
        l.get("scale"@) matches Some(JsonView::Number { .. }),
{
}

/// An output is described by what has a name, and is read as it is described: its name, its make and
/// its model, which are empty where they are not texts, its current mode, and its place.
pub proof fn law_output_is_read_as_described(v: JsonView)
    ensures
        output_of(v) is Some <==> (v.get("name"@) matches Some(JsonView::Text(_))),
        output_of(v) matches Some(o) ==> {
            &&& v.get("name"@) == Some(JsonView::Text(o.name))
            &&& (v.get("make"@) matches Some(JsonView::Text(t)) ==> o.make == t)
            &&& (v.get("model"@) matches Some(JsonView::Text(t)) ==> o.model == t)
            &&& (!(v.get("make"@) matches Some(JsonView::Text(_))) ==> o.make.len() == 0)
            &&& (!(v.get("model"@) matches Some(JsonView::Text(_))) ==> o.model.len() == 0)
            &&& o.mode == current_mode_of(v)
            &&& (v.get("logical"@) matches Some(l) ==> o.logical == logical_of(l))
            &&& (v.get("logical"@) is None ==> o.logical is None)
        },
{
}

/// The outputs of a reply are those that its members describe, each once, by their names.
pub proof fn law_outputs_are_those_described(
    members: Seq<(Seq<char>, JsonView)>,
    listed: Seq<NiriOutputView>,
)
    requires
        is_sort_of(listed, described_outputs(members), |o: NiriOutputView| o.name),
    ensures
        described_outputs(members) == members.filter(
            |m: (Seq<char>, JsonView)| (m.1.get("name"@) matches Some(JsonView::Text(_))),
        ).map_values(|m: (Seq<char>, JsonView)| output_of(m.1)->0),
        listed.to_multiset() =~= described_outputs(members).to_multiset(),
        forall|i: int, j: int|
            0 <= i < j < listed.len() && (#[trigger] listed[i]).name != (
            #[trigger] listed[j]).name ==> text_less(listed[i].name, listed[j].name),
{
    lemma_filter_map_is_filter(
        members,
        |m: (Seq<char>, JsonView)| output_of(m.1),
        |m: (Seq<char>, JsonView)| (m.1.get("name"@) matches Some(JsonView::Text(_))),
        |m: (Seq<char>, JsonView)| output_of(m.1)->0,
    );
    let key = |o: NiriOutputView| o.name;
    law_sorting_keeps_items(listed, described_outputs(members), key);
    assert forall|i: int, j: int|
        0 <= i < j < listed.len() && (#[trigger] listed[i]).name != (
        #[trigger] listed[j]).name implies text_less(listed[i].name, listed[j].name) by {
        assert(key(listed[i]) != key(listed[j]));
    }
}

/// An output is virtual if the compositor made it as one, and it is on if it has a mode and a place.
pub proof fn law_virtual_outputs_are_the_compositors(o: NiriOutputView)
    ensures
        o.is_virtual() <==> o.make == "niri"@ && o.model == "virtual"@,
        o.is_virtual_on() <==> o.make == "niri"@ && o.model == "virtual"@ && o.mode is Some
            && o.logical is Some,
{
}

/// The output that is found by a name is the first of that name, and there is none only if no
/// output has it.
pub proof fn law_first_of_a_name_is_found(list: Seq<NiriOutputView>, name: Seq<char>) -> (i: int)
    ensures
        match first_named(list, name) {
            Some(o) => {
                &&& 0 <= i < list.len()
                &&& list[i] == o
                &&& o.name == name
                &&& forall|j: int| 0 <= j < i ==> (#[trigger] list[j]).name != name
            },
            None => forall|j: int| 0 <= j < list.len() ==> (#[trigger] list[j]).name != name,
        },
    decreases list.len(),
{
    if list.len() == 0 || list[0].name == name {
        0
    } else {
        let rest = list.drop_first();
        let i = law_first_of_a_name_is_found(rest, name);
        assert forall|j: int|
            0 < j < list.len() && (first_named(rest, name) is None || j <= i) implies (
        #[trigger] list[j]).name != name by {
            assert(rest[j - 1] == list[j]);
        }
        i + 1
    }
}

/// The current resolution of a virtual output is the width and the height of its mode.
pub proof fn law_own_resolution_is_the_modes(virtuals: Seq<NiriOutputView>, name: Seq<char>)
    ensures
        match first_named(virtuals, name) {
            Some(o) => match o.mode {
                Some((w, h, _)) => own_resolution(virtuals, name) matches Some(r) && r.width == w
                    && r.height == h,
                None => own_resolution(virtuals, name) is None,
            },
            None => own_resolution(virtuals, name) is None,
        },
{
}

/// The request for a custom mode says which output it is for, and the width, the height and the
/// refresh rate under their names.
#[verifier::rlimit(40)]
#[verifier::spinoff_prover]
pub proof fn law_custom_mode_request_says_its_mode(
    name: Seq<char>,
    width: u16,
    height: u16,
    refresh: JsonView,
)
    ensures
        ({
            let body = custom_mode(name, width, height, refresh).get("Output"@)->0;
            let mode = body.get("action"@)->0.get("CustomMode"@)->0.get("mode"@)->0;
            &&& custom_mode(name, width, height, refresh).get("Output"@) is Some
            &&& body.get("output"@) == Some(JsonView::Text(name))
            &&& body.get("action"@) is Some
            &&& is_unsigned(mode.get("width"@), width as int)
            &&& is_unsigned(mode.get("height"@), height as int)
            &&& mode.get("refresh"@) == Some(refresh)
        }),
{
    reveal_strlit("action");
    reveal_strlit("output");
    reveal_strlit("height");
    reveal_strlit("refresh");
    reveal_strlit("width");
    let h = JsonView::unsigned(height as u64);
    let w = JsonView::unsigned(width as u64);
    let mode = object3("height"@, h, "refresh"@, refresh, "width"@, w);
    let action = object1("CustomMode"@, object1("mode"@, mode));
    assert("height"@[0] != "refresh"@[0] && "height"@[0] != "width"@[0] && "refresh"@[0]
        != "width"@[0]);
    assert("action"@[0] != "output"@[0]);
    lemma_members_of_3("height"@, h, "refresh"@, refresh, "width"@, w);
    lemma_members_of_1("mode"@, mode);
    lemma_members_of_1("CustomMode"@, object1("mode"@, mode));
    lemma_members_of_2("action"@, action, "output"@, JsonView::Text(name));
    lemma_members_of_1(
        "Output"@,
        object2("action"@, action, "output"@, JsonView::Text(name)),
    );
}

proof fn lemma_members_of_1(k: Seq<char>, v: JsonView)
    ensures
        object1(k, v).get(k) == Some(v),
{
    let members = seq![(k, v)];
    assert(members[0] == (k, v));
}

proof fn lemma_members_of_2(k0: Seq<char>, v0: JsonView, k1: Seq<char>, v1: JsonView)
    requires
        k0 != k1,
    ensures
        object2(k0, v0, k1, v1).get(k0) == Some(v0),
        object2(k0, v0, k1, v1).get(k1) == Some(v1),
{
    let members = seq![(k0, v0), (k1, v1)];
    assert(members[0] == (k0, v0) && members[1] == (k1, v1));
    law_first_member_with_key(members, k0);
    law_first_member_with_key(members, k1);
}

proof fn lemma_members_of_3(
    k0: Seq<char>,
    v0: JsonView,
    k1: Seq<char>,
    v1: JsonView,
    k2: Seq<char>,
    v2: JsonView,
)
    requires
        k0 != k1,
        k0 != k2,
        k1 != k2,
    ensures
        object3(k0, v0, k1, v1, k2, v2).get(k0) == Some(v0),
        object3(k0, v0, k1, v1, k2, v2).get(k1) == Some(v1),
        object3(k0, v0, k1, v1, k2, v2).get(k2) == Some(v2),
{
    let members = seq![(k0, v0), (k1, v1), (k2, v2)];
    assert(members[0] == (k0, v0) && members[1] == (k1, v1) && members[2] == (k2, v2));
    law_first_member_with_key(members, k0);
    law_first_member_with_key(members, k1);
    law_first_member_with_key(members, k2);
}

/// The request for an action on an output says the output and the action.
pub proof fn law_output_action_says_its_output(name: Seq<char>, action: JsonView)
    ensures
        ({
            let body = output_action(name, action).get("Output"@)->0;
            &&& output_action(name, action).get("Output"@) is Some
            &&& body.get("output"@) == Some(JsonView::Text(name))
            &&& body.get("action"@) == Some(action)
        }),
{
    reveal_strlit("action");
    reveal_strlit("output");
    assert("action"@[0] != "output"@[0]);
    lemma_members_of_2("action"@, action, "output"@, JsonView::Text(name));
    lemma_members_of_1("Output"@, object2("action"@, action, "output"@, JsonView::Text(name)));
}

/// The description of a new virtual output says its name, its size, its refresh rate and its scale,
/// each under its name.
#[verifier::rlimit(40)]
#[verifier::spinoff_prover]
pub proof fn law_new_output_is_described(
    name: Seq<char>,
    width: u16,
    height: u16,
    refresh_hz: u32,
    scale: JsonView,
)
    ensures
        ({
            let d = JsonView::Object(
                virtual_output_members(name, width, height, refresh_hz, scale),
            );
            &&& d.get("name"@) == Some(JsonView::Text(name))
            &&& is_unsigned(d.get("width"@), width as int)
            &&& is_unsigned(d.get("height"@), height as int)
            &&& is_unsigned(d.get("refresh_rate"@), refresh_hz as int)
            &&& d.get("scale"@) == Some(scale)
        }),
{
    reveal_strlit("height");
    reveal_strlit("name");
    reveal_strlit("refresh_rate");
    reveal_strlit("scale");
    reveal_strlit("width");
    let members = virtual_output_members(name, width, height, refresh_hz, scale);
    assert("height"@[0] != "name"@[0] && "height"@[0] != "refresh_rate"@[0] && "height"@[0]
        != "scale"@[0] && "height"@[0] != "width"@[0]);
    assert("name"@[0] != "refresh_rate"@[0] && "name"@[0] != "scale"@[0] && "name"@[0]
        != "width"@[0]);
    assert("refresh_rate"@[0] != "scale"@[0] && "refresh_rate"@[0] != "width"@[0] && "scale"@[0]
        != "width"@[0]);
    assert(members.len() == 5);
    assert(members[0].0 == "height"@ && members[1].0 == "name"@ && members[2].0 == "refresh_rate"@
        && members[3].0 == "scale"@ && members[4].0 == "width"@);
    law_first_member_with_key(members, "height"@);
    law_first_member_with_key(members, "name"@);
    law_first_member_with_key(members, "refresh_rate"@);
    law_first_member_with_key(members, "scale"@);
    law_first_member_with_key(members, "width"@);
}

/// A workspace is described by what has an id, and is read as it is described: its id, its output if
/// that is a text, and that it has windows if it names an active one.
pub proof fn law_workspace_is_read_as_described(w: JsonView)
    ensures
        workspace_of(w) is Some <==> (w.get("id"@) matches Some(
            JsonView::Number { unsigned: Some(_), .. },
        )),
        workspace_of(w) matches Some(ws) ==> {
            &&& is_unsigned(w.get("id"@), ws.id as int)
            &&& (ws.output matches Some(o) ==> w.get("output"@) == Some(JsonView::Text(o)))
            &&& (w.get("output"@) matches Some(JsonView::Text(o)) ==> ws.output == Some(o))
            &&& ws.has_windows <==> w.get("active_window_id"@) is Some && w.get(
                "active_window_id"@,
            ) != Some(JsonView::Null)
        },
{
}

/// Nothing is offered but the current resolution and the presets.
pub proof fn law_only_presets_are_offered(own: Resolution, k: int)
    requires
        0 <= k < offered_resolutions(own).len(),
    ensures
        k == 0 || preset_resolutions().contains(offered_resolutions(own)[k]),
        k > 0 ==> offered_resolutions(own)[k] != own,
{
    let kept = preset_resolutions().filter(is_offered(own));
    if k > 0 {
        preset_resolutions().lemma_filter_pred(is_offered(own), k - 1);
        assert(kept.contains(kept[k - 1]));
        preset_resolutions().lemma_filter_contains_rev(is_offered(own), kept[k - 1]);
        assert(offered_resolutions(own)[k] == kept[k - 1]);
    }
}

} // verus!
