//! Capturing an output that has no DRM scanout through `wlr-screencopy`.
//!
//! The compositor renders a virtual output on demand: each frame is one capture request, for which
//! the compositor says what buffer it wants, copies the output into that buffer and reports that
//! it is ready. The requests are sent and the replies dispatched by the caller; what is asked for
//! next, and what becomes of a reply, is decided here.
use crate::convert::{PixelBuffer, Pixfmt};
use crate::text::{decimal, decimal_text, same_text};
use vstd::prelude::*;

verus! {

/// The format of the pixels in a shared buffer. Of those that are not known only the code is kept.
#[derive(Debug, Clone, Copy, PartialEq, Eq, Structural)]
pub enum ShmFormat {
    Xrgb8888,
    Argb8888,
    Xbgr8888,
    Abgr8888,
    Other(u32),
}

/// What buffer the compositor wants.
#[derive(Debug, Clone, Copy, PartialEq, Eq, Structural)]
pub struct BufferParams {
    pub width: u32,
    pub height: u32,
    pub stride: u32,
    pub format: ShmFormat,
}

/// How copying a frame ended.
#[derive(Debug, Clone, Copy, PartialEq, Eq, Structural)]
pub enum CopyEnd {
    Ready,
    Failed,
}

/// What the compositor has said of the frame that is being captured.
#[derive(Debug, Clone, Copy, PartialEq, Eq, Structural)]
pub struct Pending {
    pub params: Option<BufferParams>,
    pub y_invert: bool,
    pub done: Option<CopyEnd>,
}

/// What the compositor says of a frame. A format or a set of flags that is not known is missing.
#[derive(Debug, Clone, Copy, PartialEq, Eq, Structural)]
pub enum FrameEvent {
    Buffer { format: Option<ShmFormat>, width: u32, height: u32, stride: u32 },
    Flags { y_invert: Option<bool> },
    Ready,
    Failed,
    Other,
}

/// What is known before the compositor has said anything.
pub open spec fn nothing_pending() -> Pending {
    Pending { params: None, y_invert: false, done: None }
}

/// What is known after the compositor has said one thing more. The first buffer that is offered is
/// the one that counts; of the flags and of the end it is the last.
pub open spec fn after_event(p: Pending, event: FrameEvent) -> Pending {
    match event {
        FrameEvent::Buffer { format: Some(format), width, height, stride } => if p.params is None {
            Pending { params: Some(BufferParams { width, height, stride, format }), ..p }
        } else {
            p
        },
        FrameEvent::Flags { y_invert: Some(y_invert) } => Pending { y_invert, ..p },
        FrameEvent::Ready => Pending { done: Some(CopyEnd::Ready), ..p },
        FrameEvent::Failed => Pending { done: Some(CopyEnd::Failed), ..p },
        _ => p,
    }
}

/// What is known after the compositor has said several things.
pub open spec fn after_events(p: Pending, events: Seq<FrameEvent>) -> Pending
    decreases events.len(),
{
    if events.len() == 0 {
        p
    } else {
        after_event(after_events(p, events.drop_last()), events.last())
    }
}

impl Pending {
    /// Takes note of what the compositor says.
    pub fn event(&mut self, event: FrameEvent)
        ensures
            *final(self) == after_event(*old(self), event),
    {
        match event {
            FrameEvent::Buffer { format: Some(format), width, height, stride } => {
                if self.params.is_none() {
                    self.params = Some(BufferParams { width, height, stride, format });
                }
            },
            FrameEvent::Flags { y_invert: Some(y_invert) } => {
                self.y_invert = y_invert;
            },
            FrameEvent::Ready => {
                self.done = Some(CopyEnd::Ready);
            },
            FrameEvent::Failed => {
                self.done = Some(CopyEnd::Failed);
            },
            _ => {},
        }
    }
}

/// The buffer that was offered first stays, whatever is offered later.
pub proof fn law_first_offer_is_kept(p: Pending, events: Seq<FrameEvent>)
    requires
        p.params is Some,
    ensures
        after_events(p, events).params == p.params,
    decreases events.len(),
{
    if events.len() > 0 {
        law_first_offer_is_kept(p, events.drop_last());
    }
}

/// Why there is no capturer, or no frame.
#[derive(Debug)]
pub enum CaptureError {
    /// There is no frame yet.
    WouldBlock,
    /// Anything that a text tells.
    Other(String),
    /// There is no output with this name.
    NoOutput(String),
    /// Pixels of the format with this code are not understood.
    UnsupportedFormat(ShmFormat),
}

/// The mathematical value of a [`CaptureError`].
pub enum CaptureErrorView {
    WouldBlock,
    Other(Seq<char>),
    NoOutput(Seq<char>),
    UnsupportedFormat(ShmFormat),
}

impl View for CaptureError {
    type V = CaptureErrorView;

    open spec fn view(&self) -> CaptureErrorView {
        match *self {
            CaptureError::WouldBlock => CaptureErrorView::WouldBlock,
            CaptureError::Other(text) => CaptureErrorView::Other(text@),
            CaptureError::NoOutput(name) => CaptureErrorView::NoOutput(name@),
            CaptureError::UnsupportedFormat(f) => CaptureErrorView::UnsupportedFormat(f),
        }
    }
}

/// An error that a text tells.
pub fn other(text: String) -> (r: CaptureError)
    ensures
        r@ == CaptureErrorView::Other(text@),
{
    CaptureError::Other(text)
}

/// How far capturing a frame has come.
#[derive(Debug, Clone, Copy, PartialEq, Eq, Structural)]
pub enum Phase {
    /// No frame is being captured.
    Idle,
    /// The compositor is about to say what buffer it wants.
    Params,
    /// A buffer is being made.
    Buffer { params: BufferParams },
    /// The compositor is copying the output.
    Copy { params: BufferParams },
}

/// Captures one output.
#[derive(Debug)]
pub struct ScreencopyCapturer {
    pub name: String,
    /// The output, as an index into the list that it was found in.
    pub output: usize,
    /// How many bytes the pool of buffers is made with.
    pub pool_size: usize,
    /// What the buffer is like, once there is one.
    pub buffer: Option<BufferParams>,
    /// The size that the display was advertised with. If the output turns out to have another, it
    /// was resized, and a new capturer is needed.
    pub session_size: (u32, u32),
    pub overlay_cursor: bool,
    pub pending: Pending,
    pub phase: Phase,
}

/// Whether the output with index `i` is the first with a name.
pub open spec fn is_first_named(names: Seq<Option<String>>, name: Seq<char>, i: int) -> bool {
    &&& 0 <= i < names.len()
    &&& names[i] matches Some(n) && n@ == name
    &&& forall|j: int| 0 <= j < i ==> !(#[trigger] names[j] matches Some(n) && n@ == name)
}

/// The output of a name that is taken is one of that name, no output before it has the name, and
/// where an output has it one is taken.
pub proof fn law_first_output_of_a_name(names: Seq<Option<String>>, name: Seq<char>, j: int) -> (i:
    int)
    requires
        0 <= j < names.len(),
        names[j] matches Some(n) && n@ == name,
    ensures
        is_first_named(names, name, i),
        i <= j,
        forall|k: int| is_first_named(names, name, k) ==> k == i && names[k] is Some && names[k]->0@
            == name,
    decreases j,
{
    if exists|k: int| 0 <= k < j && (#[trigger] names[k] matches Some(n) && n@ == name) {
        let k = choose|k: int| 0 <= k < j && (#[trigger] names[k] matches Some(n) && n@ == name);
        law_first_output_of_a_name(names, name, k)
    } else {
        assert(is_first_named(names, name, j));
        assert forall|k: int| is_first_named(names, name, k) implies k == j by {
            assert(names[k] matches Some(n) && n@ == name);
            assert(names[j] matches Some(n) && n@ == name);
        }
        j
    }
}

/// The least number of bytes in a pool of buffers.
pub const MIN_POOL: usize = 4096;

/// How many bytes a pool is made with: four to a pixel.
pub open spec fn pool_size_of(width: int, height: int) -> int {
    if width * height * 4 > MIN_POOL {
        width * height * 4
    } else {
        MIN_POOL as int
    }
}

impl ScreencopyCapturer {
    /// While the compositor copies, it copies into a buffer of the kind that it asked for, and that
    /// has the size that the display was advertised with. The same size is what a buffer is made
    /// with.
    pub open spec fn well_formed(self) -> bool {
        match self.phase {
            Phase::Copy { params } => {
                &&& self.buffer == Some(params)
                &&& (params.width, params.height) == self.session_size
            },
            Phase::Buffer { params } => (params.width, params.height) == self.session_size,
            _ => true,
        }
    }

    /// A capturer of the output named `output_name`, which is the first of this name in `names`,
    /// the names of the outputs as far as they have one. `width` and `height` are the physical size
    /// that the display was advertised with.
    pub fn new(
        output_name: &str,
        width: usize,
        height: usize,
        embed_cursor: bool,
        names: &Vec<Option<String>>,
    ) -> (r: Result<ScreencopyCapturer, CaptureError>)
        requires
            width * height * 4 <= usize::MAX,
        ensures
            match r {
                Ok(c) => {
                    &&& is_first_named(names@, output_name@, c.output as int)
                    &&& c.well_formed()
                    &&& c.name@ == output_name@
                    &&& c.pool_size == pool_size_of(width as int, height as int)
                    &&& c.buffer is None
                    &&& c.session_size == (width as u32, height as u32)
                    &&& c.overlay_cursor == embed_cursor
                    &&& c.pending == nothing_pending()
                    &&& c.phase is Idle
                },
                Err(e) => {
                    &&& e@ == CaptureErrorView::NoOutput(output_name@)
                    &&& forall|i: int| !is_first_named(names@, output_name@, i)
                },
            },
    {
        let mut output: usize = 0;
        while output < names.len() && !is_named(&names[output], output_name)
            invariant
                output <= names@.len(),
                forall|j: int|
                    0 <= j < output ==> !(#[trigger] names@[j] matches Some(n) && n@
                        == output_name@),
            decreases names@.len() - output,
        {
            output = output + 1;
        }
        if output == names.len() {
            return Err(CaptureError::NoOutput(output_name.to_owned()));
        }
        assert(0 <= width * height) by (nonlinear_arith);
        let bytes: usize = width * height * 4;
        let pool_size: usize = if bytes > MIN_POOL {
            bytes
        } else {
            MIN_POOL
        };
        Ok(
            ScreencopyCapturer {
                name: output_name.to_owned(),
                output,
                pool_size,
                buffer: None,
                session_size: (
                    #[verifier::truncate]
                    (width as u32),
                    #[verifier::truncate]
                    (height as u32),
                ),
                overlay_cursor: embed_cursor,
                pending: Pending { params: None, y_invert: false, done: None },
                phase: Phase::Idle,
            },
        )
    }

    /// Whether the compositor has said what buffer it wants.
    pub fn has_params(&self) -> (r: bool)
        ensures
            r == (self.pending.params is Some),
    {
        self.pending.params.is_some()
    }

    /// Whether the compositor has said how copying ended.
    pub fn is_done(&self) -> (r: bool)
        ensures
            r == (self.pending.done is Some),
    {
        self.pending.done.is_some()
    }
}

fn is_named(name: &Option<String>, wanted: &str) -> (r: bool)
    ensures
        r == (*name matches Some(n) && n@ == wanted@),
{
    match name {
        Some(n) => same_text(n.as_str(), wanted),
        None => false,
    }
}

/// What has happened.
#[derive(Debug, Clone, Copy, PartialEq, Eq, Structural)]
pub enum CaptureEvent {
    /// A frame is asked for.
    Begin,
    /// What was waited for is there, or the wait came to nothing.
    Waited { done: bool },
    /// A buffer was made, or could not be.
    BufferMade { done: bool },
}

/// What is to be done.
#[derive(Debug)]
pub enum CaptureAction {
    /// Ask for a capture, with the cursor drawn into it or not, and wait until the compositor says
    /// what buffer it wants.
    Capture { overlay_cursor: i32 },
    /// Make a buffer.
    MakeBuffer { width: i32, height: i32, stride: i32, format: ShmFormat },
    /// Ask for the copy, and wait until the compositor says how it ended.
    Copy,
    /// Give the frame up: its object is destroyed, and the error is that of the wait.
    GiveUp,
    /// Return the error of making the buffer.
    Leave,
    /// Give the frame up: its object is destroyed, and this is the error.
    Fail(CaptureError),
    /// The frame's object is destroyed, and the pixels are in the buffer.
    Deliver(FrameShape),
}

/// How the pixels of a frame lie in its buffer.
#[derive(Debug, Clone, Copy, PartialEq, Eq, Structural)]
pub struct FrameShape {
    pub pixfmt: Pixfmt,
    pub width: u32,
    pub height: u32,
    pub stride: u32,
    /// The last row comes first.
    pub y_invert: bool,
}

/// The mathematical value of a [`CaptureAction`].
pub enum CaptureActionView {
    Capture { overlay_cursor: i32 },
    MakeBuffer { width: i32, height: i32, stride: i32, format: ShmFormat },
    Copy,
    GiveUp,
    Leave,
    Fail(CaptureErrorView),
    Deliver(FrameShape),
}

impl View for CaptureAction {
    type V = CaptureActionView;

    open spec fn view(&self) -> CaptureActionView {
        match *self {
            CaptureAction::Capture { overlay_cursor } => CaptureActionView::Capture {
                overlay_cursor,
            },
            CaptureAction::MakeBuffer { width, height, stride, format } =>
                CaptureActionView::MakeBuffer { width, height, stride, format },
            CaptureAction::Copy => CaptureActionView::Copy,
            CaptureAction::GiveUp => CaptureActionView::GiveUp,
            CaptureAction::Leave => CaptureActionView::Leave,
            CaptureAction::Fail(e) => CaptureActionView::Fail(e@),
            CaptureAction::Deliver(shape) => CaptureActionView::Deliver(shape),
        }
    }
}

/// The format of pixels in memory that a format of shared buffers is; the names of the latter go
/// by the order of the bytes in a little-endian word.
pub open spec fn pixfmt_of(format: ShmFormat) -> Option<Pixfmt> {
    match format {
        ShmFormat::Xrgb8888 | ShmFormat::Argb8888 => Some(Pixfmt::BGRA),
        ShmFormat::Xbgr8888 | ShmFormat::Abgr8888 => Some(Pixfmt::RGBA),
        ShmFormat::Other(_) => None,
    }
}

/// A size, as it is written.
pub open spec fn size_text(size: (u32, u32)) -> Seq<char> {
    decimal(size.0 as nat) + "x"@ + decimal(size.1 as nat)
}

/// What is said of an output that was resized.
pub open spec fn geometry_text(name: Seq<char>, from: (u32, u32), to: (u32, u32)) -> Seq<char> {
    "screencopy: output "@ + name + " changed geometry ("@ + size_text(from) + " -> "@ + size_text(
        to,
    ) + "); rebuilding"@
}

/// What is said of a copy that failed.
pub open spec fn failure_text(name: Seq<char>) -> Seq<char> {
    "screencopy of "@ + name + ": "@ + "compositor reported screencopy failure"@
}

/// Whether a capturer can be told of an event: it is one that follows on what was asked for, and a
/// wait is over only if what was waited for is there.
pub open spec fn follows(c: ScreencopyCapturer, event: CaptureEvent) -> bool {
    match (c.phase, event) {
        (_, CaptureEvent::Begin) => true,
        (Phase::Params, CaptureEvent::Waited { done }) => done ==> c.pending.params is Some,
        (Phase::Copy { .. }, CaptureEvent::Waited { done }) => done ==> c.pending.done is Some,
        (Phase::Buffer { .. }, CaptureEvent::BufferMade { .. }) => true,
        _ => false,
    }
}

/// What an event leads to.
pub open spec fn capture_step(c: ScreencopyCapturer, event: CaptureEvent) -> (
    ScreencopyCapturer,
    CaptureActionView,
) {
    let idle = ScreencopyCapturer { phase: Phase::Idle, ..c };
    match (c.phase, event) {
        (_, CaptureEvent::Begin) => (
            ScreencopyCapturer { pending: nothing_pending(), phase: Phase::Params, ..c },
            CaptureActionView::Capture {
                overlay_cursor: if c.overlay_cursor {
                    1
                } else {
                    0
                },
            },
        ),
        (Phase::Params, CaptureEvent::Waited { done: true }) => {
            let params = c.pending.params->0;
            if (params.width, params.height) != c.session_size {
                (
                    idle,
                    CaptureActionView::Fail(
                        CaptureErrorView::Other(
                            geometry_text(c.name@, c.session_size, (params.width, params.height)),
                        ),
                    ),
                )
            } else if c.buffer != Some(params) {
                (
                    ScreencopyCapturer { phase: Phase::Buffer { params }, ..c },
                    CaptureActionView::MakeBuffer {
                        width: params.width as i32,
                        height: params.height as i32,
                        stride: params.stride as i32,
                        format: params.format,
                    },
                )
            } else {
                (
                    ScreencopyCapturer { phase: Phase::Copy { params }, ..c },
                    CaptureActionView::Copy,
                )
            }
        },
        (Phase::Buffer { params }, CaptureEvent::BufferMade { done: true }) => (
            ScreencopyCapturer { buffer: Some(params), phase: Phase::Copy { params }, ..c },
            CaptureActionView::Copy,
        ),
        (Phase::Buffer { .. }, CaptureEvent::BufferMade { done: false }) => (
            idle,
            CaptureActionView::Leave,
        ),
        (Phase::Copy { params }, CaptureEvent::Waited { done: true }) => {
            let taken = ScreencopyCapturer { pending: Pending { done: None, ..c.pending }, ..idle };
            if c.pending.done == Some(CopyEnd::Failed) {
                (
                    taken,
                    CaptureActionView::Fail(CaptureErrorView::Other(failure_text(c.name@))),
                )
            } else {
                match pixfmt_of(params.format) {
                    Some(pixfmt) => (
                        taken,
                        CaptureActionView::Deliver(
                            FrameShape {
                                pixfmt,
                                width: params.width,
                                height: params.height,
                                stride: params.stride,
                                y_invert: c.pending.y_invert,
                            },
                        ),
                    ),
                    None => (
                        taken,
                        CaptureActionView::Fail(CaptureErrorView::UnsupportedFormat(params.format)),
                    ),
                }
            }
        },
        _ => (idle, CaptureActionView::GiveUp),
    }
}

fn size_words(size: (u32, u32)) -> (r: String)
    ensures
        r@ == size_text(size),
{
    let mut r = decimal_text(size.0 as u64);
    r.append("x");
    r.append(decimal_text(size.1 as u64).as_str());
    r
}

fn geometry_words(name: &str, from: (u32, u32), to: (u32, u32)) -> (r: String)
    ensures
        r@ == geometry_text(name@, from, to),
{
    let mut r = "screencopy: output ".to_owned();
    r.append(name);
    r.append(" changed geometry (");
    r.append(size_words(from).as_str());
    r.append(" -> ");
    r.append(size_words(to).as_str());
    r.append("); rebuilding");
    r
}

fn failure_words(name: &str) -> (r: String)
    ensures
        r@ == failure_text(name@),
{
    let mut r = "screencopy of ".to_owned();
    r.append(name);
    r.append(": ");
    r.append("compositor reported screencopy failure");
    r
}

fn known_pixfmt(format: ShmFormat) -> (r: Option<Pixfmt>)
    ensures
        r == pixfmt_of(format),
{
    match format {
        ShmFormat::Xrgb8888 | ShmFormat::Argb8888 => Some(Pixfmt::BGRA),
        ShmFormat::Xbgr8888 | ShmFormat::Abgr8888 => Some(Pixfmt::RGBA),
        ShmFormat::Other(_) => None,
    }
}

impl ScreencopyCapturer {
    /// Decides what is done next in capturing a frame. The compositor is never asked to copy into a
    /// buffer of another size or kind than it wants: an output that was resized is refused before
    /// that.
    pub fn frame(&mut self, event: CaptureEvent) -> (r: CaptureAction)
        requires
            old(self).well_formed(),
            follows(*old(self), event),
        ensures
            (*final(self), r@) == capture_step(*old(self), event),
            final(self).well_formed(),
    {
        let phase = self.phase;
        self.phase = Phase::Idle;
        match (phase, event) {
            (_, CaptureEvent::Begin) => {
                self.pending = Pending { params: None, y_invert: false, done: None };
                self.phase = Phase::Params;
                CaptureAction::Capture {
                    overlay_cursor: if self.overlay_cursor {
                        1
                    } else {
                        0
                    },
                }
            },
            (Phase::Params, CaptureEvent::Waited { done: true }) => {
                let params = match self.pending.params {
                    Some(params) => params,
                    None => {
                        return CaptureAction::GiveUp;
                    },
                };
                if params.width != self.session_size.0 || params.height != self.session_size.1 {
                    let text = geometry_words(
                        self.name.as_str(),
                        self.session_size,
                        (params.width, params.height),
                    );
                    return CaptureAction::Fail(other(text));
                }
                if self.buffer == Some(params) {
                    self.phase = Phase::Copy { params };
                    CaptureAction::Copy
                } else {
                    self.phase = Phase::Buffer { params };
                    CaptureAction::MakeBuffer {
                        width: #[verifier::truncate]
                        (params.width as i32),
                        height: #[verifier::truncate]
                        (params.height as i32),
                        stride: #[verifier::truncate]
                        (params.stride as i32),
                        format: params.format,
                    }
                }
            },
            (Phase::Buffer { params }, CaptureEvent::BufferMade { done }) => {
                if !done {
                    return CaptureAction::Leave;
                }
                self.buffer = Some(params);
                self.phase = Phase::Copy { params };
                CaptureAction::Copy
            },
            (Phase::Copy { params }, CaptureEvent::Waited { done: true }) => {
                let end = self.pending.done;
                self.pending.done = None;
                if let Some(CopyEnd::Failed) = end {
                    return CaptureAction::Fail(other(failure_words(self.name.as_str())));
                }
                match known_pixfmt(params.format) {
                    Some(pixfmt) => CaptureAction::Deliver(
                        FrameShape {
                            pixfmt,
                            width: params.width,
                            height: params.height,
                            stride: params.stride,
                            y_invert: self.pending.y_invert,
                        },
                    ),
                    None => CaptureAction::Fail(CaptureError::UnsupportedFormat(params.format)),
                }
            },
            _ => CaptureAction::GiveUp,
        }
    }
}

/// A copy goes into a buffer of the kind that the compositor wants, and of the size that the
/// display was advertised with.
pub proof fn law_copy_goes_into_fitting_buffer(c: ScreencopyCapturer, event: CaptureEvent)
    requires
        c.well_formed(),
        follows(c, event),
        capture_step(c, event).1 is Copy,
    ensures
        ({
            let next = capture_step(c, event).0;
            &&& next.buffer matches Some(params) && (params.width, params.height)
                == c.session_size
            &&& event is Waited ==> next.buffer == c.pending.params
            &&& event is BufferMade ==> c.phase == (Phase::Buffer { params: next.buffer->0 })
        }),
{
}

/// A frame that is delivered has the size that the display was advertised with.
pub proof fn law_frame_has_session_size(c: ScreencopyCapturer, event: CaptureEvent)
    requires
        c.well_formed(),
        follows(c, event),
        capture_step(c, event).1 is Deliver,
    ensures
        capture_step(c, event).1 matches CaptureActionView::Deliver(shape) && (
        shape.width,
        shape.height,
    ) == c.session_size,
{
}

/// A frame is delivered only after the compositor has said that it is ready.
pub proof fn law_delivered_when_ready(c: ScreencopyCapturer, event: CaptureEvent)
    requires
        follows(c, event),
        capture_step(c, event).1 is Deliver,
    ensures
        c.pending.done == Some(CopyEnd::Ready),
{
}

/// How many events there are at most until a frame is had or given up.
pub open spec fn steps_left(phase: Phase) -> int {
    match phase {
        Phase::Params => 3,
        Phase::Buffer { .. } => 2,
        Phase::Copy { .. } => 1,
        Phase::Idle => 0,
    }
}

/// Capturing a frame comes to an end: each event brings it nearer, and once nothing is left to be
/// done the frame is delivered or given up.
pub proof fn law_capture_ends(c: ScreencopyCapturer, event: CaptureEvent)
    requires
        follows(c, event),
        !(event is Begin),
    ensures
        ({
            let (next, action) = capture_step(c, event);
            &&& 0 <= steps_left(next.phase) < steps_left(c.phase)
            &&& next.phase is Idle <==> (action is Deliver || action is Fail || action is GiveUp
                || action is Leave)
        }),
{
}

/// A capturer never changes what it captures, nor the size that it captures.
pub proof fn law_session_stays(c: ScreencopyCapturer, event: CaptureEvent)
    ensures
        ({
            let next = capture_step(c, event).0;
            &&& next.name == c.name
            &&& next.output == c.output
            &&& next.pool_size == c.pool_size
            &&& next.session_size == c.session_size
            &&& next.overlay_cursor == c.overlay_cursor
        }),
{
}

/// A step of capturing: the compositor says something, or the capturer is told of an event.
pub enum CaptureStep {
    Said(FrameEvent),
    Did(CaptureEvent),
}

/// The capturer after some steps, and what the last of them led to.
pub open spec fn capture_run(c: ScreencopyCapturer, steps: Seq<CaptureStep>) -> (
    ScreencopyCapturer,
    Option<CaptureActionView>,
)
    decreases steps.len(),
{
    if steps.len() == 0 {
        (c, None)
    } else {
        let before = capture_run(c, steps.drop_last()).0;
        match steps.last() {
            CaptureStep::Said(event) => (
                ScreencopyCapturer { pending: after_event(before.pending, event), ..before },
                None,
            ),
            CaptureStep::Did(event) => {
                let (after, action) = capture_step(before, event);
                (after, Some(action))
            },
        }
    }
}

/// Whether each event of some steps is one that a capturer can be told of.
pub open spec fn in_order(c: ScreencopyCapturer, steps: Seq<CaptureStep>) -> bool {
    forall|i: int|
        0 <= i < steps.len() ==> (#[trigger] steps[i] matches CaptureStep::Did(event) ==> follows(
            capture_run(c, steps.take(i)).0,
            event,
        ))
}

/// Whether the capture that is going on was begun with step `b`.
pub open spec fn begun_at(steps: Seq<CaptureStep>, b: int) -> bool {
    &&& 0 <= b < steps.len()
    &&& steps[b] == CaptureStep::Did(CaptureEvent::Begin)
    &&& forall|j: int|
        b < j < steps.len() ==> #[trigger] steps[j] != CaptureStep::Did(CaptureEvent::Begin)
}

/// Whether a step offers a buffer of a known format.
pub open spec fn is_offer(step: CaptureStep) -> bool {
    step matches CaptureStep::Said(FrameEvent::Buffer { format: Some(_), .. })
}

/// Whether a step tells flags that are known.
pub open spec fn is_flags(step: CaptureStep) -> bool {
    step matches CaptureStep::Said(FrameEvent::Flags { y_invert: Some(_) })
}

/// Whether a step tells how copying ended.
pub open spec fn is_end(step: CaptureStep) -> bool {
    step == CaptureStep::Said(FrameEvent::Ready) || step == CaptureStep::Said(FrameEvent::Failed)
}

/// Whether step `o` is the first of its kind after step `b`; it is `b` itself if there is none.
pub open spec fn is_first_after(
    steps: Seq<CaptureStep>,
    b: int,
    o: int,
    kind: spec_fn(CaptureStep) -> bool,
) -> bool {
    &&& b <= o < steps.len()
    &&& o > b ==> kind(steps[o])
    &&& forall|j: int| b < j < steps.len() && (j < o || o == b) ==> !kind(#[trigger] steps[j])
}

/// Whether step `f` is the last of its kind after step `b`; it is `b` itself if there is none.
pub open spec fn is_last_after(
    steps: Seq<CaptureStep>,
    b: int,
    f: int,
    kind: spec_fn(CaptureStep) -> bool,
) -> bool {
    &&& b <= f < steps.len()
    &&& f > b ==> kind(steps[f])
    &&& forall|j: int| f < j < steps.len() ==> !kind(#[trigger] steps[j])
}

/// What holds of some steps holds of them without the last.
proof fn lemma_front_in_order(c: ScreencopyCapturer, steps: Seq<CaptureStep>)
    requires
        in_order(c, steps),
        steps.len() > 0,
    ensures
        in_order(c, steps.drop_last()),
        steps.last() matches CaptureStep::Did(event) ==> follows(
            capture_run(c, steps.drop_last()).0,
            event,
        ),
{
    let n = steps.len() - 1;
    let front = steps.drop_last();
    assert(steps.take(n) =~= front);
    assert(steps[n] == steps.last());
    assert forall|i: int| 0 <= i < front.len() implies (
    #[trigger] front[i] matches CaptureStep::Did(event) ==> follows(
        capture_run(c, front.take(i)).0,
        event,
    )) by {
        assert(front[i] == steps[i]);
        assert(front.take(i) =~= steps.take(i));
    }
}

proof fn lemma_front_begun(steps: Seq<CaptureStep>, b: int)
    requires
        begun_at(steps, b),
        b < steps.len() - 1,
    ensures
        begun_at(steps.drop_last(), b),
        steps.last() != CaptureStep::Did(CaptureEvent::Begin),
{
    let front = steps.drop_last();
    assert(front[b] == steps[b]);
    assert(steps[steps.len() - 1] == steps.last());
    assert forall|j: int| b < j < front.len() implies #[trigger] front[j] != CaptureStep::Did(
        CaptureEvent::Begin,
    ) by {
        assert(front[j] == steps[j]);
    }
}

/// The last step of a kind stays the last if a step of another kind follows, and else that step is.
proof fn lemma_last_after(
    steps: Seq<CaptureStep>,
    b: int,
    f: int,
    kind: spec_fn(CaptureStep) -> bool,
)
    requires
        0 <= b < steps.len() - 1,
        is_last_after(steps.drop_last(), b, f, kind),
    ensures
        is_last_after(
            steps,
            b,
            if kind(steps.last()) {
                steps.len() - 1
            } else {
                f
            },
            kind,
        ),
{
    let front = steps.drop_last();
    let n = steps.len() - 1;
    assert(steps[n] == steps.last());
    assert(front[f] == steps[f]);
    assert forall|j: int| f < j < n implies !kind(#[trigger] steps[j]) by {
        assert(front[j] == steps[j]);
    }
}

/// The first step of a kind stays the first; where there was none, it may be the last step.
proof fn lemma_first_after(
    steps: Seq<CaptureStep>,
    b: int,
    o: int,
    kind: spec_fn(CaptureStep) -> bool,
)
    requires
        0 <= b < steps.len() - 1,
        is_first_after(steps.drop_last(), b, o, kind),
    ensures
        is_first_after(
            steps,
            b,
            if o == b && kind(steps.last()) {
                steps.len() - 1
            } else {
                o
            },
            kind,
        ),
{
    let front = steps.drop_last();
    let n = steps.len() - 1;
    assert(steps[n] == steps.last());
    assert(front[o] == steps[o]);
    assert forall|j: int| b < j < n && (j < o || o == b) implies !kind(#[trigger] steps[j]) by {
        assert(front[j] == steps[j]);
    }
}

/// The buffer that is asked for, and made, is the one that was offered first.
#[verifier::rlimit(40)]
#[verifier::spinoff_prover]
proof fn lemma_offer_since_begin(c: ScreencopyCapturer, steps: Seq<CaptureStep>, b: int) -> (o: int)
    requires
        in_order(c, steps),
        begun_at(steps, b),
    ensures
        is_first_after(steps, b, o, |s: CaptureStep| is_offer(s)),
        ({
            let now = capture_run(c, steps).0;
            &&& match now.pending.params {
                Some(p) => o > b && steps[o] == CaptureStep::Said(
                    FrameEvent::Buffer {
                        format: Some(p.format),
                        width: p.width,
                        height: p.height,
                        stride: p.stride,
                    },
                ),
                None => o == b,
            }
            &&& (now.phase matches Phase::Buffer { params } ==> now.pending.params == Some(params))
            &&& (now.phase matches Phase::Copy { params } ==> now.pending.params == Some(params))
        }),
    decreases steps.len(),
{
    let n = steps.len() - 1;
    if b == n {
        return b;
    }
    let front = steps.drop_last();
    lemma_front_in_order(c, steps);
    lemma_front_begun(steps, b);
    let o = lemma_offer_since_begin(c, front, b);
    lemma_first_after(steps, b, o, |s: CaptureStep| is_offer(s));
    assert(front[o] == steps[o]);
    assert(steps[n] == steps.last());
    if o == b && is_offer(steps.last()) {
        n
    } else {
        o
    }
}

/// Whether the last row comes first is what the last flags say.
#[verifier::rlimit(40)]
#[verifier::spinoff_prover]
proof fn lemma_flags_since_begin(c: ScreencopyCapturer, steps: Seq<CaptureStep>, b: int) -> (f: int)
    requires
        begun_at(steps, b),
    ensures
        is_last_after(steps, b, f, |s: CaptureStep| is_flags(s)),
        ({
            let y_invert = capture_run(c, steps).0.pending.y_invert;
            &&& (f == b ==> !y_invert)
            &&& (f > b ==> steps[f] == CaptureStep::Said(
                FrameEvent::Flags { y_invert: Some(y_invert) },
            ))
        }),
    decreases steps.len(),
{
    let n = steps.len() - 1;
    if b == n {
        return b;
    }
    let front = steps.drop_last();
    lemma_front_begun(steps, b);
    let f = lemma_flags_since_begin(c, front, b);
    lemma_last_after(steps, b, f, |s: CaptureStep| is_flags(s));
    assert(front[f] == steps[f]);
    assert(steps[n] == steps.last());
    if is_flags(steps.last()) {
        n
    } else {
        f
    }
}

/// While a capture goes on, how its copy ended is what was said last.
#[verifier::rlimit(40)]
#[verifier::spinoff_prover]
proof fn lemma_end_since_begin(c: ScreencopyCapturer, steps: Seq<CaptureStep>, b: int) -> (e: int)
    requires
        in_order(c, steps),
        begun_at(steps, b),
    ensures
        is_last_after(steps, b, e, |s: CaptureStep| is_end(s)),
        ({
            let now = capture_run(c, steps).0;
            !(now.phase is Idle) ==> match now.pending.done {
                Some(CopyEnd::Ready) => e > b && steps[e] == CaptureStep::Said(FrameEvent::Ready),
                Some(CopyEnd::Failed) => e > b && steps[e] == CaptureStep::Said(FrameEvent::Failed),
                None => e == b,
            }
        }),
    decreases steps.len(),
{
    let n = steps.len() - 1;
    if b == n {
        return b;
    }
    let front = steps.drop_last();
    lemma_front_in_order(c, steps);
    lemma_front_begun(steps, b);
    let e = lemma_end_since_begin(c, front, b);
    lemma_last_after(steps, b, e, |s: CaptureStep| is_end(s));
    assert(front[e] == steps[e]);
    assert(steps[n] == steps.last());
    if is_end(steps.last()) {
        n
    } else {
        e
    }
}

/// A frame is delivered as the compositor said it is. Since the capture was begun, the first buffer
/// that it offered gives the size, the stride and the order of the bytes; the last flags say whether
/// the last row comes first, which without any flags it does not; and the last that it said of the
/// end of the copy is that it is ready.
#[verifier::rlimit(40)]
#[verifier::spinoff_prover]
pub proof fn law_delivered_frame_is_as_said(c: ScreencopyCapturer, steps: Seq<CaptureStep>, b: int)
    -> (r: (int, int, int))
    requires
        in_order(c, steps),
        begun_at(steps, b),
        capture_run(c, steps).1 matches Some(CaptureActionView::Deliver(_)),
    ensures
        ({
            let (o, f, e) = r;
            let shape = capture_run(c, steps).1->0->Deliver_0;
            &&& is_first_after(steps, b, o, |s: CaptureStep| is_offer(s))
            &&& is_last_after(steps, b, f, |s: CaptureStep| is_flags(s))
            &&& is_last_after(steps, b, e, |s: CaptureStep| is_end(s))
            &&& b < o && b < e
            &&& steps[o] matches CaptureStep::Said(
                FrameEvent::Buffer { format: Some(format), width, height, stride },
            ) && {
                &&& (shape.width, shape.height, shape.stride) == (width, height, stride)
                &&& shape.pixfmt is BGRA <==> format is Xrgb8888 || format is Argb8888
                &&& shape.pixfmt is RGBA <==> format is Xbgr8888 || format is Abgr8888
                &&& shape.pixfmt is BGRA || shape.pixfmt is RGBA
            }
            &&& (f == b ==> !shape.y_invert)
            &&& (f > b ==> steps[f] == CaptureStep::Said(
                FrameEvent::Flags { y_invert: Some(shape.y_invert) },
            ))
            &&& steps[e] == CaptureStep::Said(FrameEvent::Ready)
        }),
{
    let front = steps.drop_last();
    lemma_front_in_order(c, steps);
    lemma_front_begun(steps, b);
    let o = lemma_offer_since_begin(c, front, b);
    let f = lemma_flags_since_begin(c, front, b);
    let e = lemma_end_since_begin(c, front, b);
    lemma_first_after(steps, b, o, |s: CaptureStep| is_offer(s));
    lemma_last_after(steps, b, f, |s: CaptureStep| is_flags(s));
    lemma_last_after(steps, b, e, |s: CaptureStep| is_end(s));
    assert(front[o] == steps[o] && front[f] == steps[f] && front[e] == steps[e]);
    (o, f, e)
}

/// What an event leads to, by what was said before it. A capture draws the cursor if the capturer
/// is to; a buffer is made just as it was offered, unless there is such a buffer already; an offer
/// of another size than the session's is refused; a copy that is ready is delivered if its pixels
/// are understood; and what comes to nothing is given up.
#[verifier::rlimit(40)]
#[verifier::spinoff_prover]
pub proof fn law_capture_goes_by_what_was_said(c: ScreencopyCapturer, event: CaptureEvent)
    requires
        follows(c, event),
    ensures
        ({
            let (next, action) = capture_step(c, event);
            match (c.phase, event) {
                (_, CaptureEvent::Begin) => {
                    &&& action matches CaptureActionView::Capture { overlay_cursor } && (
                    overlay_cursor == 1 <==> c.overlay_cursor) && (overlay_cursor == 0
                        <==> !c.overlay_cursor)
                    &&& next.pending.params is None && next.pending.done is None
                    &&& !next.pending.y_invert
                    &&& next.buffer == c.buffer
                },
                (Phase::Params, CaptureEvent::Waited { done: true }) => {
                    let p = c.pending.params->0;
                    if p.width != c.session_size.0 || p.height != c.session_size.1 {
                        action matches CaptureActionView::Fail(CaptureErrorView::Other(_))
                    } else if c.buffer == Some(p) {
                        action is Copy
                    } else {
                        action matches CaptureActionView::MakeBuffer {
                            width,
                            height,
                            stride,
                            format,
                        } && {
                            &&& p.width <= i32::MAX ==> width == p.width
                            &&& p.height <= i32::MAX ==> height == p.height
                            &&& p.stride <= i32::MAX ==> stride == p.stride
                            &&& format == p.format
                        }
                    }
                },
                (Phase::Buffer { params }, CaptureEvent::BufferMade { done }) => if done {
                    action is Copy && next.buffer == Some(params)
                } else {
                    action is Leave && next.buffer == c.buffer
                },
                (Phase::Copy { params }, CaptureEvent::Waited { done: true }) => if c.pending.done
                    == Some(CopyEnd::Failed) {
                    action matches CaptureActionView::Fail(CaptureErrorView::Other(_))
                } else if params.format is Other {
                    action == CaptureActionView::Fail(
                        CaptureErrorView::UnsupportedFormat(params.format),
                    )
                } else {
                    action is Deliver
                },
                _ => action is GiveUp && next.buffer == c.buffer,
            }
        }),
{
}

/// A pool holds the bytes of a frame, four to a pixel, and is never smaller than a page; it is not
/// larger than that.
pub proof fn law_pool_holds_the_frame(width: int, height: int)
    ensures
        pool_size_of(width, height) >= 4 * (width * height),
        pool_size_of(width, height) >= 4096,
        pool_size_of(width, height) == 4 * (width * height) || pool_size_of(width, height) == 4096,
{
}

/// What has happened in waiting for the compositor.
#[derive(Debug, Clone, Copy, PartialEq, Eq, Structural)]
pub enum WaitEvent {
    /// What had arrived was dispatched; whether what is waited for is there.
    Dispatched { ready: bool },
    /// Requests were sent, but there is more to be dispatched before anything can be read.
    Unread,
    /// Requests were sent, and reading was prepared; how long it is until the deadline.
    Prepared { remaining_nanos: u128 },
    /// `poll` returned; whether it failed because of a signal is told where it failed.
    Polled { n: i32, interrupted: bool },
    /// What had arrived was read.
    Received,
}

/// What is to be done in waiting for the compositor.
#[derive(Debug, Clone, Copy, PartialEq, Eq, Structural)]
pub enum WaitAction {
    /// What was waited for is there.
    Done,
    /// Dispatch what has arrived.
    Dispatch,
    /// Send the requests and prepare to read.
    Prepare,
    /// Wait for something to read.
    Poll { millis: i32 },
    /// Read what has arrived.
    Receive,
    /// The deadline has passed.
    WouldBlock,
    /// Return the error of `poll`.
    PollError,
}

/// How long `poll` waits, in milliseconds: until the deadline, or as long as it can be told to.
pub open spec fn poll_millis(remaining_nanos: u128) -> int {
    let millis = (remaining_nanos + 999_999) / 1_000_000;
    if millis > i32::MAX {
        i32::MAX as int
    } else {
        millis
    }
}

/// What an event leads to. A `poll` that timed out leads back to a look at the deadline.
pub open spec fn wait_step(event: WaitEvent) -> WaitAction {
    match event {
        WaitEvent::Dispatched { ready: true } => WaitAction::Done,
        WaitEvent::Dispatched { ready: false } => WaitAction::Prepare,
        WaitEvent::Unread => WaitAction::Dispatch,
        WaitEvent::Prepared { remaining_nanos } => if remaining_nanos == 0 {
            WaitAction::WouldBlock
        } else {
            WaitAction::Poll { millis: poll_millis(remaining_nanos) as i32 }
        },
        WaitEvent::Polled { n, interrupted } => if n < 0 {
            if interrupted {
                WaitAction::Dispatch
            } else {
                WaitAction::PollError
            }
        } else if n == 0 {
            WaitAction::Dispatch
        } else {
            WaitAction::Receive
        },
        WaitEvent::Received => WaitAction::Dispatch,
    }
}

/// What a wait begins with: what has arrived already may be what is waited for.
pub fn wait_begin() -> (r: WaitAction)
    ensures
        r is Dispatch,
{
    WaitAction::Dispatch
}

/// Decides what is done next in waiting for the compositor.
pub fn wait_until(event: WaitEvent) -> (r: WaitAction)
    ensures
        r == wait_step(event),
{
    match event {
        WaitEvent::Dispatched { ready } => if ready {
            WaitAction::Done
        } else {
            WaitAction::Prepare
        },
        WaitEvent::Unread => WaitAction::Dispatch,
        WaitEvent::Prepared { remaining_nanos } => {
            if remaining_nanos == 0 {
                return WaitAction::WouldBlock;
            }
            let whole: u128 = remaining_nanos / 1_000_000;
            let begun: u128 = if remaining_nanos % 1_000_000 == 0 {
                whole
            } else {
                whole + 1
            };
            let millis: i32 = if begun > i32::MAX as u128 {
                i32::MAX
            } else {
                begun as i32
            };
            WaitAction::Poll { millis }
        },
        WaitEvent::Polled { n, interrupted } => {
            if n < 0 {
                if interrupted {
                    WaitAction::Dispatch
                } else {
                    WaitAction::PollError
                }
            } else if n == 0 {
                WaitAction::Dispatch
            } else {
                WaitAction::Receive
            }
        },
        WaitEvent::Received => WaitAction::Dispatch,
    }
}

/// A wait ends well only once what was waited for is there.
pub proof fn law_wait_ends_when_ready(event: WaitEvent)
    ensures
        wait_step(event) is Done <==> event == (WaitEvent::Dispatched { ready: true }),
{
}

/// A wait is given up for time exactly when a look at the deadline shows that it has passed.
pub proof fn law_would_block_at_deadline(event: WaitEvent)
    ensures
        wait_step(event) is WouldBlock <==> event == (WaitEvent::Prepared { remaining_nanos: 0 }),
{
}

/// `poll` waits until the deadline, and less than a millisecond beyond it; for a time that it
/// cannot be told it waits as long as it can, and never, by being passed a negative time, for ever.
pub proof fn law_poll_until_deadline(remaining_nanos: u128)
    ensures
        wait_step(WaitEvent::Prepared { remaining_nanos }) matches WaitAction::Poll { millis } ==> {
            &&& 0 < millis
            &&& (millis - 1) * 1_000_000 < remaining_nanos
            &&& remaining_nanos <= millis * 1_000_000 || millis == i32::MAX
        },
{
}

/// What a wait waits for is looked at before the deadline is, at the start and after everything
/// that has happened: only once it is not there are the requests sent and the deadline looked at.
pub proof fn law_ready_before_deadline(event: WaitEvent)
    ensures
        wait_step(event) is Prepare <==> event == (WaitEvent::Dispatched { ready: false }),
        (event matches WaitEvent::Polled { n, .. } && n == 0) || event is Received || event is Unread
            ==> wait_step(event) is Dispatch,
{
}

/// As long as there is time, `poll` waits; what it found is read, and nothing else is; and only a
/// failure that no signal caused is an error.
pub proof fn law_poll_outcomes(event: WaitEvent)
    ensures
        wait_step(event) is Poll <==> (event matches WaitEvent::Prepared { remaining_nanos }
            && remaining_nanos > 0),
        wait_step(event) is Receive <==> (event matches WaitEvent::Polled { n, .. } && n > 0),
        wait_step(event) is PollError <==> (event matches WaitEvent::Polled { n, interrupted } && n
            < 0 && !interrupted),
{
}

/// The rows of `stride` bytes in `data`, of which there are `height`, from the last to the first.
pub open spec fn rows_reversed(data: Seq<u8>, stride: int, height: int) -> Seq<u8>
    decreases height,
{
    if height <= 0 {
        Seq::empty()
    } else {
        data.subrange((height - 1) * stride, height * stride) + rows_reversed(
            data,
            stride,
            height - 1,
        )
    }
}

impl FrameShape {
    /// How many bytes the pixels take.
    pub open spec fn len(self) -> int {
        self.stride * self.height
    }

    /// The pixels that a buffer holds, from the first row to the last.
    pub open spec fn pixels(self, canvas: Seq<u8>) -> Seq<u8> {
        if self.y_invert {
            rows_reversed(canvas.take(self.len()), self.stride as int, self.height as int)
        } else {
            canvas.take(self.len())
        }
    }
}

/// The pixels of a frame. Those of a buffer in which the last row comes first are put in order in
/// `flipped`.
pub fn frame_pixels<'a>(shape: FrameShape, canvas: &'a [u8], flipped: &'a mut Vec<u8>) -> (r:
    PixelBuffer<'a>)
    requires
        shape.len() <= u32::MAX,
        shape.len() <= canvas@.len(),
        shape.y_invert ==> shape.stride > 0,
    ensures
        r.data@ == shape.pixels(canvas@),
        r.pixfmt == shape.pixfmt,
        r.width == shape.width,
        r.height == shape.height,
        r.stride@ == seq![shape.stride as usize],
        final(flipped)@ == (if shape.y_invert {
            shape.pixels(canvas@)
        } else {
            old(flipped)@
        }),
{
    let mut stride: Vec<usize> = Vec::new();
    stride.push(shape.stride as usize);
    assert(stride@ =~= seq![shape.stride as usize]);
    let len: usize = (shape.stride * shape.height) as usize;
    if shape.y_invert {
        flip_rows(canvas, shape.stride as usize, shape.height as usize, flipped);
        PixelBuffer {
            data: flipped.as_slice(),
            pixfmt: shape.pixfmt,
            width: shape.width as usize,
            height: shape.height as usize,
            stride,
        }
    } else {
        PixelBuffer {
            data: vstd::slice::slice_subrange(canvas, 0, len),
            pixfmt: shape.pixfmt,
            width: shape.width as usize,
            height: shape.height as usize,
            stride,
        }
    }
}

/// Puts the rows of `data` into `flipped`, from the last to the first.
pub fn flip_rows(data: &[u8], stride: usize, height: usize, flipped: &mut Vec<u8>)
    requires
        stride * height <= data@.len(),
    ensures
        final(flipped)@ == rows_reversed(
            data@.take(stride * height),
            stride as int,
            height as int,
        ),
{
    let ghost all = data@.take(stride * height);
    let ghost whole = rows_reversed(all, stride as int, height as int);
    flipped.clear();
    assert(data@.len() == data.len());
    let mut left: usize = height;
    while left > 0
        invariant
            stride * height <= data@.len() <= usize::MAX,
            left <= height,
            all == data@.take(stride * height),
            whole == rows_reversed(all, stride as int, height as int),
            whole == flipped@ + rows_reversed(all, stride as int, left as int),
        decreases left,
    {
        assert(0 <= (left - 1) * stride <= left * stride <= height * stride) by (nonlinear_arith)
            requires
                0 < left <= height,
        ;
        assert(height * stride == stride * height) by (nonlinear_arith);
        assert(left * stride == (left - 1) * stride + stride) by (nonlinear_arith);
        let start: usize = (left - 1) * stride;
        let end: usize = start + stride;
        let row = vstd::slice::slice_subrange(data, start, end);
        assert(row@ =~= all.subrange((left - 1) * stride, left * stride));
        let ghost before = flipped@;
        let ghost rest = rows_reversed(all, stride as int, left - 1);
        flipped.extend_from_slice(row);
        assert(flipped@ =~= before + row@);
        assert(before + (row@ + rest) =~= (before + row@) + rest);
        left = left - 1;
    }
    assert(flipped@ + Seq::<u8>::empty() =~= flipped@);
}

/// Reversing rows turns row `i` into the row that is as far from the end, and keeps the length.
pub proof fn law_reversed_row(data: Seq<u8>, stride: int, height: int, i: int)
    requires
        0 <= stride,
        0 <= i < height,
        stride * height <= data.len(),
    ensures
        rows_reversed(data, stride, height).len() == stride * height,
        0 <= i * stride <= (i + 1) * stride <= stride * height,
        rows_reversed(data, stride, height).subrange(i * stride, (i + 1) * stride) == data.subrange(
            (height - 1 - i) * stride,
            (height - i) * stride,
        ),
    decreases height,
{
    let reversed = rows_reversed(data, stride, height);
    let first = data.subrange((height - 1) * stride, height * stride);
    let rest = rows_reversed(data, stride, height - 1);
    lemma_reversed_len(data, stride, height);
    assert(0 <= i * stride <= (i + 1) * stride <= stride * height) by (nonlinear_arith)
        requires
            0 <= i < height,
            0 <= stride,
    ;
    assert(0 <= (height - 1) * stride && height * stride == (height - 1) * stride + stride
        && height * stride == stride * height && (i + 1) * stride == i * stride + stride && stride
        * (height - 1) == (height - 1) * stride) by (nonlinear_arith)
        requires
            0 < height,
            0 <= stride,
    ;
    lemma_reversed_len(data, stride, height - 1);
    if i == 0 {
        assert(i * stride == 0) by (nonlinear_arith)
            requires
                i == 0,
        ;
        assert(reversed.subrange(i * stride, (i + 1) * stride) =~= first);
    } else {
        law_reversed_row(data, stride, height - 1, i - 1);
        assert((i - 1) * stride == i * stride - stride) by (nonlinear_arith);
        assert(0 <= (i - 1) * stride) by (nonlinear_arith)
            requires
                0 < i,
                0 <= stride,
        ;
        assert((i - 1 + 1) * stride == i * stride);
        assert(reversed.subrange(i * stride, (i + 1) * stride) =~= rest.subrange(
            (i - 1) * stride,
            i * stride,
        ));
    }
}

proof fn lemma_reversed_len(data: Seq<u8>, stride: int, height: int)
    requires
        0 <= stride,
        0 <= height,
        stride * height <= data.len(),
    ensures
        rows_reversed(data, stride, height).len() == stride * height,
    decreases height,
{
    if height > 0 {
        assert(0 <= stride * (height - 1) <= stride * height && stride * height == stride * (height
            - 1) + stride && (height - 1) * stride == stride * (height - 1) && height * stride
            == stride * height) by (nonlinear_arith)
            requires
                0 < height,
                0 <= stride,
        ;
        lemma_reversed_len(data, stride, height - 1);
    } else {
        assert(stride * height == 0) by (nonlinear_arith)
            requires
                height == 0,
        ;
    }
}

/// The pixels that are handed on start with the top row of the output: row `i` of them is row `i`
/// of the buffer, or, where the buffer starts with the last row, the row that is as far from its
/// end.
pub proof fn law_pixels_start_at_the_top(shape: FrameShape, canvas: Seq<u8>, i: int, c: int)
    requires
        0 <= i < shape.height,
        0 <= c < shape.stride,
        shape.stride * shape.height <= canvas.len(),
    ensures
        shape.pixels(canvas).len() == shape.stride * shape.height,
        0 <= i * shape.stride + c < shape.pixels(canvas).len(),
        shape.pixels(canvas)[i * shape.stride + c] == (if shape.y_invert {
            canvas[(shape.height - 1 - i) * shape.stride + c]
        } else {
            canvas[i * shape.stride + c]
        }),
{
    let (stride, height) = (shape.stride as int, shape.height as int);
    assert(0 <= i * stride && i * stride + stride <= stride * height && (i + 1) * stride == i
        * stride + stride) by (nonlinear_arith)
        requires
            0 <= i < height,
            0 < stride,
    ;
    if shape.y_invert {
        let data = canvas.take(stride * height);
        let r = height - 1 - i;
        law_reversed_row(data, stride, height, i);
        assert(0 <= r * stride && r * stride + stride <= stride * height && (r + 1) * stride == r
            * stride + stride) by (nonlinear_arith)
            requires
                0 <= r < height,
                0 < stride,
        ;
        assert((height - i) * stride == r * stride + stride) by (nonlinear_arith)
            requires
                r == height - 1 - i,
        ;
        let row = shape.pixels(canvas).subrange(i * stride, (i + 1) * stride);
        assert(row[c] == data.subrange(r * stride, (height - i) * stride)[c]);
    }
}

/// Reversing the rows twice gives them back.
pub proof fn law_flip_twice(data: Seq<u8>, stride: int, height: int)
    requires
        0 < stride,
        0 <= height,
        data.len() == stride * height,
    ensures
        rows_reversed(rows_reversed(data, stride, height), stride, height) == data,
{
    let once = rows_reversed(data, stride, height);
    lemma_reversed_len(data, stride, height);
    lemma_reversed_len(once, stride, height);
    let twice = rows_reversed(once, stride, height);
    assert forall|k: int| 0 <= k < data.len() implies twice[k] == data[k] by {
        let i = k / stride;
        let o = k % stride;
        assert(k == i * stride + o && 0 <= o < stride && 0 <= i < height) by (nonlinear_arith)
            requires
                0 <= k < stride * height,
                0 < stride,
                i == k / stride,
                o == k % stride,
        ;
        law_reversed_row(once, stride, height, i);
        law_reversed_row(data, stride, height, height - 1 - i);
        assert((i + 1) * stride == i * stride + stride) by (nonlinear_arith);
        assert(twice.subrange(i * stride, (i + 1) * stride)[o] == twice[k]);
        assert(data.subrange(i * stride, (i + 1) * stride)[o] == data[k]);
        assert(height - 1 - (height - 1 - i) == i && height - (height - 1 - i) == i + 1);
        assert(height - 1 - i + 1 == height - i);
    }
    assert(twice =~= data);
}

} // verus!
