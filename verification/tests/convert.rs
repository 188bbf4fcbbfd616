use niri_display::convert::{
    call_outcome, convert, convert_to_yuv, yuv_fits, CallName, ConvertError, EncodeYuvFormat, Kernel, PackedCall,
    PixelBuffer, Pixfmt, YuvCalls,
};
use niri_display::planes::Plane;

fn frame(data: &[u8], pixfmt: Pixfmt, width: usize, height: usize, stride: usize) -> PixelBuffer<'_> {
    PixelBuffer { data, pixfmt, width, height, stride: vec![stride] }
}

fn i420(w: usize, h: usize) -> EncodeYuvFormat {
    EncodeYuvFormat { pixfmt: Pixfmt::I420, w, h, stride: vec![w, w / 2], u: w * h, v: w * h * 5 / 4 }
}

fn nv12(w: usize, h: usize) -> EncodeYuvFormat {
    EncodeYuvFormat { pixfmt: Pixfmt::NV12, w, h, stride: vec![w, w], u: w * h, v: 0 }
}

fn i444(w: usize, h: usize) -> EncodeYuvFormat {
    EncodeYuvFormat { pixfmt: Pixfmt::I444, w, h, stride: vec![w, w, w], u: w * h, v: 2 * w * h }
}

#[test]
fn i420_is_written_from_the_capture() {
    let data = vec![1u8; 8 * 4 * 4];
    for (from, kernel, bytes) in [
        (Pixfmt::BGRA, Kernel::ARGBToI420, 4),
        (Pixfmt::RGBA, Kernel::ABGRToI420, 4),
        (Pixfmt::RGB565LE, Kernel::RGB565ToI420, 2),
    ] {
        let (mut dst, mut mid) = (vec![9u8], vec![8u8]);
        let captured = frame(&data, from, 8, 4, 8 * bytes);
        let c = convert_to_yuv(&captured, &i420(8, 4), &mut dst, &mut mid, Some(4)).unwrap();
        assert!(c.prepare.is_none());
        assert_eq!(mid, vec![8]);
        assert_eq!(dst.len(), 4 * 8 * 2);
        assert_eq!((dst[0], dst[1]), (9, 0));
        match c.main {
            YuvCalls::I420 { kernel: k, calls } => {
                assert_eq!(k, kernel);
                assert_eq!(calls.len(), 1);
                assert_eq!(calls[0].src, Plane { offset: 0, stride: 8 * bytes as i32 });
                assert_eq!(calls[0].dst_y, Plane { offset: 0, stride: 8 });
                assert_eq!(calls[0].dst_u, Plane { offset: 32, stride: 4 });
                assert_eq!(calls[0].dst_v, Plane { offset: 40, stride: 4 });
                assert_eq!((calls[0].width, calls[0].height), (8, 4));
            },
            other => panic!("{:?}", other),
        }
    }
}

#[test]
fn nv12_from_rgb565_goes_through_the_intermediate_buffer() {
    let data = vec![1u8; 8 * 4 * 2];
    let (mut dst, mut mid) = (Vec::new(), Vec::new());
    let captured = frame(&data, Pixfmt::RGB565LE, 8, 4, 16);
    let c = convert_to_yuv(&captured, &nv12(8, 4), &mut dst, &mut mid, None).unwrap();
    assert_eq!(
        c.prepare,
        Some(PackedCall {
            kernel: Kernel::RGB565ToARGB,
            src: Plane { offset: 0, stride: 16 },
            dst: Plane { offset: 0, stride: 32 },
            width: 8,
            height: 4,
        })
    );
    assert_eq!(mid.len(), 32 * 4);
    // Both strides and the height are rounded up to 64.
    assert_eq!(dst.len(), 64 * (64 + 64));
    match c.main {
        YuvCalls::NV12 { kernel, calls } => {
            assert_eq!(kernel, Kernel::ARGBToNV12);
            assert_eq!(calls[0].src, Plane { offset: 0, stride: 32 });
            assert_eq!(calls[0].dst_uv, Plane { offset: 32, stride: 8 });
        },
        other => panic!("{:?}", other),
    }
}

#[test]
fn nv12_from_rgba_reads_the_capture() {
    let data = vec![1u8; 8 * 4 * 4];
    let (mut dst, mut mid) = (Vec::new(), Vec::new());
    let captured = frame(&data, Pixfmt::RGBA, 8, 4, 32);
    let c = convert_to_yuv(&captured, &nv12(8, 4), &mut dst, &mut mid, None).unwrap();
    assert!(c.prepare.is_none());
    assert!(mid.is_empty());
    match c.main {
        YuvCalls::NV12 { kernel, .. } => assert_eq!(kernel, Kernel::ABGRToNV12),
        other => panic!("{:?}", other),
    }
}

#[test]
fn i444_from_rgba_exchanges_red_and_blue_first() {
    let data = vec![1u8; 40 * 4];
    let (mut dst, mut mid) = (Vec::new(), Vec::new());
    let captured = frame(&data, Pixfmt::RGBA, 8, 4, 40);
    let c = convert_to_yuv(&captured, &i444(8, 4), &mut dst, &mut mid, None).unwrap();
    let prepare = c.prepare.unwrap();
    assert_eq!(prepare.kernel, Kernel::ABGRToARGB);
    assert_eq!(prepare.dst, Plane { offset: 0, stride: 40 });
    assert_eq!(mid.len(), 160);
    assert_eq!(dst.len(), 64 * (64 + 64 + 64));
    match c.main {
        YuvCalls::I444 { call } => {
            assert_eq!(call.kernel, Kernel::ARGBToI444);
            assert_eq!(call.src, Plane { offset: 0, stride: 40 });
            assert_eq!(call.dst_u, Plane { offset: 32, stride: 8 });
            assert_eq!(call.dst_v, Plane { offset: 64, stride: 8 });
        },
        other => panic!("{:?}", other),
    }
}

#[test]
fn i444_from_bgra_and_rgb565() {
    let data = vec![1u8; 8 * 4 * 4];
    let (mut dst, mut mid) = (Vec::new(), Vec::new());
    let captured = frame(&data, Pixfmt::BGRA, 8, 4, 32);
    let c = convert_to_yuv(&captured, &i444(8, 4), &mut dst, &mut mid, None).unwrap();
    assert!(c.prepare.is_none() && mid.is_empty());
    let captured = frame(&data, Pixfmt::RGB565LE, 8, 4, 16);
    let c = convert_to_yuv(&captured, &i444(8, 4), &mut dst, &mut mid, None).unwrap();
    assert_eq!(c.prepare.unwrap().kernel, Kernel::RGB565ToARGB);
    assert_eq!(mid.len(), 128);
}

#[test]
fn refused_conversions_leave_the_buffers_alone() {
    let data = vec![0u8; 128];
    let (mut dst, mut mid) = (vec![1u8, 2], vec![3u8]);
    let big = frame(&data, Pixfmt::BGRA, 9, 4, 36);
    assert_eq!(
        convert_to_yuv(&big, &i420(8, 4), &mut dst, &mut mid, None).unwrap_err(),
        ConvertError::SrcTooLarge { src_width: 9, src_height: 4, dst_width: 8, dst_height: 4 }
    );
    let tall = frame(&data, Pixfmt::BGRA, 8, 5, 32);
    assert_eq!(
        convert_to_yuv(&tall, &i420(8, 4), &mut dst, &mut mid, None).unwrap_err(),
        ConvertError::SrcTooLarge { src_width: 8, src_height: 5, dst_width: 8, dst_height: 4 }
    );
    let narrow = frame(&data, Pixfmt::BGRA, 8, 4, 31);
    assert_eq!(
        convert_to_yuv(&narrow, &i420(8, 4), &mut dst, &mut mid, None).unwrap_err(),
        ConvertError::StrideTooSmall { stride: 31, needed: 32 }
    );
    let short = frame(&data[..127], Pixfmt::BGRA, 8, 4, 32);
    assert_eq!(
        convert_to_yuv(&short, &i420(8, 4), &mut dst, &mut mid, None).unwrap_err(),
        ConvertError::WrongSrcLen { len: 127, stride: 32, height: 4 }
    );
    let planar = frame(&data, Pixfmt::NV12, 8, 4, 8);
    assert_eq!(
        convert_to_yuv(&planar, &i420(8, 4), &mut dst, &mut mid, None).unwrap_err(),
        ConvertError::Unsupported { from: Pixfmt::NV12, to: Pixfmt::I420 }
    );
    let packed = frame(&data, Pixfmt::BGRA, 8, 4, 32);
    let mut to_bgra = i420(8, 4);
    to_bgra.pixfmt = Pixfmt::RGBA;
    assert_eq!(
        convert_to_yuv(&packed, &to_bgra, &mut dst, &mut mid, None).unwrap_err(),
        ConvertError::Unsupported { from: Pixfmt::BGRA, to: Pixfmt::RGBA }
    );
    assert_eq!((dst, mid), (vec![1, 2], vec![3]));
}

#[test]
fn large_frames_are_cut() {
    let (w, h) = (2560usize, 831usize);
    let data = vec![0u8; w * h * 4];
    let (mut dst, mut mid) = (Vec::new(), Vec::new());
    let captured = frame(&data, Pixfmt::BGRA, w, h, w * 4);
    let c = convert_to_yuv(&captured, &nv12(w, h), &mut dst, &mut mid, Some(8)).unwrap();
    match c.main {
        YuvCalls::NV12 { calls, .. } => {
            assert_eq!(calls.len(), 8);
            assert_eq!(calls[1].src.offset, 104 * w * 4);
            assert_eq!(calls[1].dst_y.offset, 104 * w);
            assert_eq!(calls[1].dst_uv.offset, w * h + 52 * w);
            assert_eq!(calls[7].height, 103);
        },
        other => panic!("{:?}", other),
    }
}

#[test]
fn pixels_in_the_format_already_are_appended() {
    let data = [1u8, 2, 3, 4];
    let mut dst = vec![9u8];
    let captured = frame(&data, Pixfmt::BGRA, 1, 1, 4);
    assert_eq!(convert(&captured, Pixfmt::BGRA, &mut dst), Ok(None));
    assert_eq!(dst, vec![9, 1, 2, 3, 4]);
}

#[test]
fn packed_formats_are_exchanged_by_one_kernel() {
    let data = [1u8, 2, 3, 4];
    for (from, to) in [(Pixfmt::BGRA, Pixfmt::RGBA), (Pixfmt::RGBA, Pixfmt::BGRA)] {
        let mut dst = vec![9u8; 6];
        let captured = frame(&data, from, 1, 1, 4);
        let call = convert(&captured, to, &mut dst).unwrap().unwrap();
        assert_eq!(call.kernel, Kernel::ABGRToARGB);
        assert_eq!(call.src, Plane { offset: 0, stride: 4 });
        assert_eq!((call.width, call.height), (1, 1));
        assert_eq!(dst.len(), 4);
    }
}

#[test]
fn other_packed_conversions_are_unsupported() {
    let data = [1u8, 2, 3, 4];
    let mut dst = vec![9u8];
    let captured = frame(&data, Pixfmt::RGB565LE, 1, 1, 4);
    assert_eq!(
        convert(&captured, Pixfmt::BGRA, &mut dst),
        Err(ConvertError::Unsupported { from: Pixfmt::RGB565LE, to: Pixfmt::BGRA })
    );
    assert_eq!(dst, vec![9]);
}

#[test]
fn kernels_fail_by_their_code() {
    let call = CallName::Kernel(Kernel::ABGRToARGB);
    assert_eq!(call_outcome(call, 0), Ok(()));
    assert_eq!(call_outcome(call, -1), Err(ConvertError::FailedCall { call, code: -1 }));
    let data = vec![1u8; 8 * 4 * 4];
    let named = |f: EncodeYuvFormat| {
        let captured = frame(&data, Pixfmt::BGRA, 8, 4, 32);
        let (mut dst, mut mid) = (Vec::new(), Vec::new());
        convert_to_yuv(&captured, &f, &mut dst, &mut mid, None).unwrap().main.name()
    };
    assert_eq!(named(i420(8, 4)), CallName::ParRgbToI420);
    assert_eq!(named(nv12(8, 4)), CallName::ParRgbToNv12);
    assert_eq!(named(i444(8, 4)), CallName::Kernel(Kernel::ARGBToI444));
}

#[test]
fn errors_say_what_happened() {
    let say = |e: ConvertError| e.message();
    assert_eq!(
        say(ConvertError::SrcTooLarge { src_width: 9, src_height: 4, dst_width: 8, dst_height: 3 }),
        "src rect > dst rect: (9, 4) > (8,3)"
    );
    assert_eq!(say(ConvertError::StrideTooSmall { stride: 31, needed: 32 }), "src_stride too small: 31 < 32");
    assert_eq!(
        say(ConvertError::WrongSrcLen { len: 127, stride: 32, height: 4 }),
        "wrong src len, 127 < 32 * 4"
    );
    assert_eq!(
        say(ConvertError::Unsupported { from: Pixfmt::RGB565LE, to: Pixfmt::BGRA }),
        "unsupported pixfmt conversion: RGB565LE -> BGRA"
    );
    assert_eq!(
        say(ConvertError::FailedCall { call: CallName::ParRgbToI420, code: -1 }),
        "errcode=-1 par_rgb_to_i420"
    );
    assert_eq!(
        say(ConvertError::FailedCall { call: CallName::Kernel(Kernel::ARGBToI444), code: i32::MIN }),
        "errcode=-2147483648 ARGBToI444"
    );
}

#[test]
fn sizes_that_no_machine_holds_are_told_before() {
    let data = vec![0u8; 128];
    let ok = frame(&data, Pixfmt::BGRA, 8, 4, 32);
    for f in [i420(8, 4), nv12(8, 4), i444(8, 4)] {
        assert!(yuv_fits(&ok, &f));
    }
    // A frame that is refused needs no sizes.
    assert!(yuv_fits(&frame(&data, Pixfmt::BGRA, 9, 4, 36), &i420(8, 4)));
    assert!(yuv_fits(&frame(&data, Pixfmt::NV12, 8, 4, 8), &i420(8, 4)));
    let mut far = i420(8, 4);
    far.v = 65;
    assert!(!yuv_fits(&ok, &far));
    let mut flat = nv12(8, 4);
    flat.stride = vec![8];
    assert!(!yuv_fits(&ok, &flat));
    let mut two = i444(8, 4);
    two.stride = vec![8, 8];
    assert!(!yuv_fits(&ok, &two));
    let strideless = PixelBuffer { data: &data, pixfmt: Pixfmt::BGRA, width: 8, height: 4, stride: vec![] };
    assert!(!yuv_fits(&strideless, &i420(8, 4)));
    let mut huge = i420(8, 4);
    huge.h = usize::MAX;
    assert!(!yuv_fits(&ok, &huge));
}

#[test]
fn the_destination_holds_its_planes() {
    let data = vec![0u8; 6 * 5 * 4];
    let captured = frame(&data, Pixfmt::BGRA, 6, 5, 24);
    let (w, h) = (6usize, 5usize);
    let (mut dst, mut mid) = (Vec::new(), Vec::new());
    let planar = EncodeYuvFormat {
        pixfmt: Pixfmt::I420,
        w,
        h,
        stride: vec![w, w / 2],
        u: w * h,
        v: w * h + 3 * (w / 2),
    };
    convert_to_yuv(&captured, &planar, &mut dst, &mut mid, None).unwrap();
    assert!(planar.v + 3 * (w / 2) <= dst.len());
    convert_to_yuv(&captured, &nv12(w, h), &mut dst, &mut mid, None).unwrap();
    assert!(w * h + 3 * w <= dst.len());
    convert_to_yuv(&captured, &i444(w, h), &mut dst, &mut mid, None).unwrap();
    assert!(3 * w * h <= dst.len());
}

// Exchanges the first and the third byte of each pixel, as the kernel for it does.
fn exchange(call: &PackedCall, src: &[u8], dst: &mut [u8]) {
    for y in 0..call.height as usize {
        for x in 0..call.width as usize {
            let s = call.src.offset + y * call.src.stride as usize + 4 * x;
            let d = call.dst.offset + y * call.dst.stride as usize + 4 * x;
            dst[d..d + 4].copy_from_slice(&[src[s + 2], src[s + 1], src[s], src[s + 3]]);
        }
    }
}

fn i444_of(data: &[u8], pixfmt: Pixfmt, stride: usize) -> Vec<u8> {
    let captured = frame(data, pixfmt, 8, 4, stride);
    let (mut dst, mut mid) = (vec![5u8; 3], vec![6u8; 7]);
    let plan = convert_to_yuv(&captured, &i444(8, 4), &mut dst, &mut mid, None).unwrap();
    let input: &[u8] = match plan.prepare {
        Some(call) => {
            exchange(&call, data, &mut mid);
            &mid
        },
        None => data,
    };
    match plan.main {
        YuvCalls::I444 { call } => {
            for y in 0..call.height as usize {
                for x in 0..call.width as usize {
                    let s = call.src.offset + y * call.src.stride as usize + 4 * x;
                    for (p, c) in [(call.dst_y, 1), (call.dst_u, 0), (call.dst_v, 2)] {
                        dst[p.offset + y * p.stride as usize + x] = input[s + c];
                    }
                }
            }
        },
        other => panic!("{:?}", other),
    }
    dst
}

#[test]
fn rgba_and_bgra_give_the_same_i444_planes() {
    let stride = 40;
    let rgba: Vec<u8> = (0..stride * 4).map(|i| (i * 7) as u8).collect();
    let mut bgra = vec![99u8; rgba.len()];
    for y in 0..4 {
        for x in 0..8 {
            let p = y * stride + 4 * x;
            bgra[p..p + 4].copy_from_slice(&[rgba[p + 2], rgba[p + 1], rgba[p], rgba[p + 3]]);
        }
    }
    assert_eq!(i444_of(&rgba, Pixfmt::RGBA, stride), i444_of(&bgra, Pixfmt::BGRA, stride));
}

#[test]
fn converting_there_and_back_gives_the_pixels_back() {
    let data: Vec<u8> = (0..8 * 3 * 4).map(|i| (i * 5) as u8).collect();
    for (from, to) in [(Pixfmt::BGRA, Pixfmt::RGBA), (Pixfmt::RGBA, Pixfmt::BGRA)] {
        let (mut there, mut back) = (vec![1u8; 200], Vec::new());
        let call = convert(&frame(&data, from, 8, 3, 32), to, &mut there).unwrap().unwrap();
        exchange(&call, &data, &mut there);
        assert_ne!(there, data);
        let call = convert(&frame(&there, to, 8, 3, 32), from, &mut back).unwrap().unwrap();
        exchange(&call, &there, &mut back);
        assert_eq!(back, data);
    }
}
