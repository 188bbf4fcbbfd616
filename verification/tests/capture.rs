use niri_display::convert::{PixelBuffer, Pixfmt};
use niri_display::ppm::{ppm_header, rgb_pixels};
use niri_display::screencopy::{
    flip_rows, frame_pixels, other, wait_begin, wait_until, BufferParams, CaptureAction, CaptureError,
    CaptureEvent, CopyEnd, FrameEvent, FrameShape, Pending, Phase, ScreencopyCapturer, ShmFormat,
    WaitAction, WaitEvent,
};

fn capturer(width: usize, height: usize, embed: bool) -> ScreencopyCapturer {
    let names = vec![None, Some("DP-1".to_owned()), Some("v".to_owned()), Some("v".to_owned())];
    ScreencopyCapturer::new("v", width, height, embed, &names).unwrap()
}

fn offer(c: &mut ScreencopyCapturer, width: u32, height: u32, format: ShmFormat) {
    c.pending.event(FrameEvent::Buffer { format: Some(format), width, height, stride: 4 * width });
}

#[test]
fn a_capturer_is_for_the_first_output_of_its_name() {
    let c = capturer(1920, 1080, false);
    assert_eq!((c.name.as_str(), c.output), ("v", 2));
    assert_eq!(c.pool_size, 1920 * 1080 * 4);
    assert_eq!(c.session_size, (1920, 1080));
    assert_eq!(c.buffer, None);
    assert_eq!(capturer(16, 16, false).pool_size, 4096);
    match ScreencopyCapturer::new("w", 1, 1, false, &vec![None, Some("v".to_owned())]) {
        Err(CaptureError::NoOutput(name)) => assert_eq!(name, "w"),
        other => panic!("{:?}", other),
    }
}

#[test]
fn a_frame_is_captured() {
    let mut c = capturer(8, 4, false);
    assert!(matches!(c.frame(CaptureEvent::Begin), CaptureAction::Capture { overlay_cursor: 0 }));
    assert!(!c.has_params());
    offer(&mut c, 8, 4, ShmFormat::Xrgb8888);
    assert!(c.has_params());
    match c.frame(CaptureEvent::Waited { done: true }) {
        CaptureAction::MakeBuffer { width, height, stride, format } => {
            assert_eq!((width, height, stride, format), (8, 4, 32, ShmFormat::Xrgb8888));
        },
        other => panic!("{:?}", other),
    }
    assert!(matches!(c.frame(CaptureEvent::BufferMade { done: true }), CaptureAction::Copy));
    assert!(!c.is_done());
    c.pending.event(FrameEvent::Ready);
    assert!(c.is_done());
    match c.frame(CaptureEvent::Waited { done: true }) {
        CaptureAction::Deliver(shape) => assert_eq!(
            shape,
            FrameShape { pixfmt: Pixfmt::BGRA, width: 8, height: 4, stride: 32, y_invert: false }
        ),
        other => panic!("{:?}", other),
    }
    assert_eq!(c.phase, Phase::Idle);
    // The buffer is used again for the next frame.
    c.frame(CaptureEvent::Begin);
    assert_eq!(c.pending, Pending { params: None, y_invert: false, done: None });
    offer(&mut c, 8, 4, ShmFormat::Xrgb8888);
    assert!(matches!(c.frame(CaptureEvent::Waited { done: true }), CaptureAction::Copy));
    // It is not used for another format.
    c.frame(CaptureEvent::Begin);
    offer(&mut c, 8, 4, ShmFormat::Abgr8888);
    assert!(matches!(c.frame(CaptureEvent::Waited { done: true }), CaptureAction::MakeBuffer { .. }));
}

#[test]
fn the_cursor_is_drawn_where_it_is_embedded() {
    let mut c = capturer(8, 4, true);
    assert!(matches!(c.frame(CaptureEvent::Begin), CaptureAction::Capture { overlay_cursor: 1 }));
}

#[test]
fn a_resized_output_is_refused_before_the_copy() {
    let mut c = capturer(1920, 1080, false);
    c.frame(CaptureEvent::Begin);
    offer(&mut c, 1280, 800, ShmFormat::Argb8888);
    match c.frame(CaptureEvent::Waited { done: true }) {
        CaptureAction::Fail(CaptureError::Other(text)) => assert_eq!(
            text,
            "screencopy: output v changed geometry (1920x1080 -> 1280x800); rebuilding"
        ),
        other => panic!("{:?}", other),
    }
    assert_eq!(c.phase, Phase::Idle);
}

#[test]
fn a_wait_that_came_to_nothing_gives_the_frame_up() {
    let mut c = capturer(8, 4, false);
    c.frame(CaptureEvent::Begin);
    assert!(matches!(c.frame(CaptureEvent::Waited { done: false }), CaptureAction::GiveUp));
    c.frame(CaptureEvent::Begin);
    offer(&mut c, 8, 4, ShmFormat::Argb8888);
    c.frame(CaptureEvent::Waited { done: true });
    assert!(matches!(c.frame(CaptureEvent::BufferMade { done: false }), CaptureAction::Leave));
    assert_eq!(c.buffer, None);
    c.frame(CaptureEvent::Begin);
    offer(&mut c, 8, 4, ShmFormat::Argb8888);
    c.frame(CaptureEvent::Waited { done: true });
    c.frame(CaptureEvent::BufferMade { done: true });
    assert!(matches!(c.frame(CaptureEvent::Waited { done: false }), CaptureAction::GiveUp));
}

fn copied(format: ShmFormat, end: FrameEvent) -> CaptureAction {
    let mut c = capturer(8, 4, false);
    c.frame(CaptureEvent::Begin);
    offer(&mut c, 8, 4, format);
    c.frame(CaptureEvent::Waited { done: true });
    c.frame(CaptureEvent::BufferMade { done: true });
    c.pending.event(end);
    c.frame(CaptureEvent::Waited { done: true })
}

#[test]
fn a_copy_may_fail() {
    match copied(ShmFormat::Argb8888, FrameEvent::Failed) {
        CaptureAction::Fail(CaptureError::Other(text)) => {
            assert_eq!(text, "screencopy of v: compositor reported screencopy failure");
        },
        other => panic!("{:?}", other),
    }
}

#[test]
fn formats_are_mapped_or_refused() {
    for (format, pixfmt) in [
        (ShmFormat::Xrgb8888, Pixfmt::BGRA),
        (ShmFormat::Argb8888, Pixfmt::BGRA),
        (ShmFormat::Xbgr8888, Pixfmt::RGBA),
        (ShmFormat::Abgr8888, Pixfmt::RGBA),
    ] {
        match copied(format, FrameEvent::Ready) {
            CaptureAction::Deliver(shape) => assert_eq!(shape.pixfmt, pixfmt),
            other => panic!("{:?}", other),
        }
    }
    match copied(ShmFormat::Other(77), FrameEvent::Ready) {
        CaptureAction::Fail(CaptureError::UnsupportedFormat(f)) => assert_eq!(f, ShmFormat::Other(77)),
        other => panic!("{:?}", other),
    }
}

#[test]
fn the_first_offer_counts() {
    let mut p = Pending { params: None, y_invert: false, done: None };
    p.event(FrameEvent::Buffer { format: None, width: 1, height: 1, stride: 4 });
    assert_eq!(p.params, None);
    p.event(FrameEvent::Buffer { format: Some(ShmFormat::Argb8888), width: 2, height: 1, stride: 8 });
    p.event(FrameEvent::Buffer { format: Some(ShmFormat::Xrgb8888), width: 3, height: 1, stride: 12 });
    p.event(FrameEvent::Flags { y_invert: Some(true) });
    p.event(FrameEvent::Flags { y_invert: None });
    p.event(FrameEvent::Other);
    assert_eq!(
        p.params,
        Some(BufferParams { width: 2, height: 1, stride: 8, format: ShmFormat::Argb8888 })
    );
    assert!(p.y_invert);
    assert_eq!(p.done, None);
    p.event(FrameEvent::Failed);
    assert_eq!(p.done, Some(CopyEnd::Failed));
    p.event(FrameEvent::Ready);
    assert_eq!(p.done, Some(CopyEnd::Ready));
}

#[test]
fn a_wait_goes_on_until_the_deadline() {
    assert_eq!(wait_begin(), WaitAction::Dispatch);
    assert_eq!(wait_until(WaitEvent::Dispatched { ready: true }), WaitAction::Done);
    assert_eq!(wait_until(WaitEvent::Dispatched { ready: false }), WaitAction::Prepare);
    assert_eq!(wait_until(WaitEvent::Unread), WaitAction::Dispatch);
    assert_eq!(wait_until(WaitEvent::Received), WaitAction::Dispatch);
    let prepared = |remaining_nanos: u128| wait_until(WaitEvent::Prepared { remaining_nanos });
    assert_eq!(prepared(0), WaitAction::WouldBlock);
    assert_eq!(prepared(1), WaitAction::Poll { millis: 1 });
    assert_eq!(prepared(999_999), WaitAction::Poll { millis: 1 });
    assert_eq!(prepared(1_000_000_000), WaitAction::Poll { millis: 1000 });
    assert_eq!(prepared(1_000_000_001), WaitAction::Poll { millis: 1001 });
    assert_eq!(prepared(u128::MAX), WaitAction::Poll { millis: i32::MAX });
    let polled = |n: i32, interrupted: bool| wait_until(WaitEvent::Polled { n, interrupted });
    assert_eq!(polled(1, false), WaitAction::Receive);
    assert_eq!(polled(0, false), WaitAction::Dispatch);
    assert_eq!(polled(-1, true), WaitAction::Dispatch);
    assert_eq!(polled(-1, false), WaitAction::PollError);
}

#[test]
fn inverted_rows_are_put_in_order() {
    let canvas: Vec<u8> = (0..14).collect();
    let mut flipped = vec![99];
    let shape = FrameShape { pixfmt: Pixfmt::RGBA, width: 1, height: 3, stride: 4, y_invert: true };
    let pb = frame_pixels(shape, &canvas, &mut flipped);
    assert_eq!(pb.data, &[8, 9, 10, 11, 4, 5, 6, 7, 0, 1, 2, 3]);
    assert_eq!((pb.width, pb.height, pb.stride), (1, 3, vec![4]));
    assert_eq!(pb.pixfmt, Pixfmt::RGBA);
    let shape = FrameShape { y_invert: false, ..shape };
    let pb = frame_pixels(shape, &canvas, &mut flipped);
    assert_eq!(pb.data, &canvas[..12]);
}

#[test]
fn flipping_twice_gives_the_rows_back() {
    let rows: Vec<u8> = (0..15).collect();
    let (mut once, mut twice) = (Vec::new(), Vec::new());
    flip_rows(&rows, 5, 3, &mut once);
    assert_ne!(once, rows);
    flip_rows(&once, 5, 3, &mut twice);
    assert_eq!(twice, rows);
}

#[test]
fn images_are_written_without_padding() {
    let data = [1u8, 2, 3, 4, 5, 6, 7, 8, 0, 0, 11, 12, 13, 14, 15, 16, 17, 18, 0, 0, 9];
    let bgra = PixelBuffer { data: &data, pixfmt: Pixfmt::BGRA, width: 2, height: 5, stride: vec![10] };
    assert_eq!(rgb_pixels(&bgra), vec![3, 2, 1, 7, 6, 5, 13, 12, 11, 17, 16, 15]);
    let rgba = PixelBuffer { data: &data, pixfmt: Pixfmt::RGBA, width: 2, height: 1, stride: vec![10] };
    assert_eq!(rgb_pixels(&rgba), vec![1, 2, 3, 5, 6, 7]);
    // Where no row is shown, it does not matter how long one is.
    let low = PixelBuffer { data: &data, pixfmt: Pixfmt::BGRA, width: 9, height: 0, stride: vec![10] };
    assert!(rgb_pixels(&low).is_empty());
    let short = PixelBuffer { data: &data, pixfmt: Pixfmt::BGRA, width: 9, height: 2, stride: vec![22] };
    assert!(rgb_pixels(&short).is_empty());
    assert_eq!(ppm_header(1920, 1080), "P6\n1920 1080\n255\n");
}

#[test]
fn errors_carry_their_text() {
    assert!(matches!(other("broken".to_owned()), CaptureError::Other(t) if t == "broken"));
}

#[test]
fn a_poll_that_timed_out_is_followed_by_a_look_at_the_deadline() {
    let mut action = wait_begin();
    let mut clock = vec![0u128, 400_000];
    let mut seen = Vec::new();
    while action != WaitAction::WouldBlock {
        let event = match action {
            WaitAction::Dispatch => WaitEvent::Dispatched { ready: false },
            WaitAction::Prepare => WaitEvent::Prepared { remaining_nanos: clock.pop().unwrap() },
            WaitAction::Poll { .. } => WaitEvent::Polled { n: 0, interrupted: false },
            other => panic!("{:?}", other),
        };
        seen.push(action);
        action = wait_until(event);
    }
    assert_eq!(
        seen,
        vec![
            WaitAction::Dispatch,
            WaitAction::Prepare,
            WaitAction::Poll { millis: 1 },
            WaitAction::Dispatch,
            WaitAction::Prepare,
        ]
    );
}
