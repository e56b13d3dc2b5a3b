use image_tagger::messages::{CacheEntry, DecodeResult, ProgressEvent};
use image_tagger::registry::ImageEntry;
use image_tagger::inflight::InFlightSet;
use image_tagger::worker::{
    accept_for_display, assemble, decode_failure, display_size, fills_rgba, open_failure,
    prepare_for_display, process, sending_order, Job, Sent, WorkerOutput, DISPLAY_EDGE,
};

fn png_of(width: u32, height: u32, color: impl Fn(u32, u32) -> [u8; 3]) -> Vec<u8> {
    let mut picture = image::RgbImage::new(width, height);
    for (x, y, pixel) in picture.enumerate_pixels_mut() {
        *pixel = image::Rgb(color(x, y));
    }
    let mut bytes = Vec::new();
    picture
        .write_to(&mut std::io::Cursor::new(&mut bytes), image::ImageFormat::Png)
        .unwrap();
    bytes
}

fn entry(index: usize, path: &str) -> ImageEntry {
    ImageEntry { index, path: path.to_string(), tags: Vec::new(), fingerprint: None }
}

fn png(index: usize) -> ImageEntry {
    entry(index, "pictures/image.png")
}

fn done(index: usize) -> Vec<ProgressEvent> {
    vec![
        ProgressEvent::Started { index },
        ProgressEvent::Loading { index },
        ProgressEvent::Resizing { index },
        ProgressEvent::Completed { index },
    ]
}

fn failed_loading(index: usize) -> Vec<ProgressEvent> {
    vec![
        ProgressEvent::Started { index },
        ProgressEvent::Loading { index },
        ProgressEvent::Error { index },
    ]
}

#[test]
fn display_edge_is_eight_hundred() {
    assert_eq!(DISPLAY_EDGE, 800);
}

#[test]
fn landscape_image_gets_full_width_and_proportional_height() {
    assert_eq!(display_size(1920, 1080), (800, 450));
    assert_eq!(display_size(1600, 400), (800, 200));
    assert_eq!(display_size(4000, 3000), (800, 600));
}

#[test]
fn portrait_image_gets_full_height_and_proportional_width() {
    assert_eq!(display_size(1080, 1920), (450, 800));
    assert_eq!(display_size(3, 4), (600, 800));
}

#[test]
fn square_image_fills_the_display_edge() {
    assert_eq!(display_size(100, 100), (800, 800));
    assert_eq!(display_size(5000, 5000), (800, 800));
    assert_eq!(display_size(1, 1), (800, 800));
}

#[test]
fn small_image_is_scaled_up_to_the_display_edge() {
    assert_eq!(display_size(8, 4), (800, 400));
    assert_eq!(display_size(2, 3), (533, 800));
}

#[test]
fn proportional_edge_is_rounded_down() {
    assert_eq!(display_size(1, 3), (266, 800));
    assert_eq!(display_size(3, 1000), (2, 800));
    assert_eq!(display_size(1, 1000), (0, 800));
}

#[test]
fn edge_of_zero_leaves_the_clamp_to_decide() {
    assert_eq!(display_size(0, 0), (800, 800));
    assert_eq!(display_size(0, 5), (0, 800));
    assert_eq!(display_size(5, 0), (800, 0));
}

#[test]
fn largest_sizes_do_not_overflow() {
    assert_eq!(display_size(u32::MAX, u32::MAX), (800, 800));
    assert_eq!(display_size(u32::MAX, 1), (800, 0));
    assert_eq!(display_size(1, u32::MAX), (0, 800));
}

#[test]
fn fills_rgba_wants_four_bytes_for_each_pixel() {
    assert!(fills_rgba(&vec![0u8; 24], 3, 2));
    assert!(!fills_rgba(&vec![0u8; 23], 3, 2));
    assert!(!fills_rgba(&vec![0u8; 25], 3, 2));
    assert!(fills_rgba(&Vec::new(), 0, 7));
    assert!(!fills_rgba(&Vec::new(), u32::MAX, u32::MAX));
}

#[test]
fn unreadable_file_gives_an_open_error() {
    let output = process(&png(4), Err("No such file or directory".to_string()));
    assert_eq!(output.events, failed_loading(4));
    match output.result {
        DecodeResult::DecodeError { index, message } => {
            assert_eq!(index, 4);
            assert_eq!(message, "open error: No such file or directory");
        }
        DecodeResult::ImageDecoded { .. } => panic!("an unreadable file gave an image"),
    }
}

#[test]
fn open_failure_carries_the_detail() {
    let output = open_failure(0, "denied");
    assert_eq!(output.events, failed_loading(0));
    assert_eq!(output.result.index(), 0);
    assert!(!output.result.is_decoded());
    assert!(matches!(output.result, DecodeResult::DecodeError { ref message, .. } if message == "open error: denied"));
}

#[test]
fn decode_failure_carries_the_detail() {
    let output = decode_failure(9, "bad header");
    assert_eq!(output.events, failed_loading(9));
    assert!(matches!(output.result, DecodeResult::DecodeError { index: 9, ref message } if message == "decode error: bad header"));
}

#[test]
fn bytes_that_are_no_image_give_a_decode_error() {
    let output = process(&png(2), Ok(b"this is not an image".to_vec()));
    assert_eq!(output.events, failed_loading(2));
    match output.result {
        DecodeResult::DecodeError { index, message } => {
            assert_eq!(index, 2);
            assert!(message.starts_with("decode error: "));
            assert!(message.len() > "decode error: ".len());
        }
        DecodeResult::ImageDecoded { .. } => panic!("garbage gave an image"),
    }
}

#[test]
fn truncated_png_gives_a_decode_error() {
    let mut bytes = png_of(16, 16, |_, _| [9, 9, 9]);
    bytes.truncate(40);
    let output = process(&png(0), Ok(bytes));
    assert_eq!(output.events, failed_loading(0));
    assert!(!output.result.is_decoded());
}

#[test]
fn empty_file_gives_a_decode_error() {
    let output = process(&png(1), Ok(Vec::new()));
    assert_eq!(output.events, failed_loading(1));
    assert!(!output.result.is_decoded());
}

#[test]
fn landscape_png_is_decoded_at_display_size() {
    let output = process(&png(5), Ok(png_of(8, 4, |_, _| [10, 200, 30])));
    assert_eq!(output.events, done(5));
    match output.result {
        DecodeResult::ImageDecoded { index, width, height, pixels, fingerprint } => {
            assert_eq!(index, 5);
            assert_eq!((width, height), (800, 400));
            assert_eq!(pixels.len(), 4 * 800 * 400);
            assert_eq!(&pixels[0..4], &[10, 200, 30, 255]);
            assert_eq!(&pixels[pixels.len() - 4..], &[10, 200, 30, 255]);
            assert_eq!(fingerprint, vec![0u8; 8]);
        }
        DecodeResult::DecodeError { message, .. } => panic!("{}", message),
    }
}

#[test]
fn fingerprint_of_a_png_follows_its_bright_half() {
    let bytes = png_of(8, 8, |x, _| if x < 4 { [0, 0, 0] } else { [255, 255, 255] });
    let output = process(&png(0), Ok(bytes));
    match output.result {
        DecodeResult::ImageDecoded { width, height, fingerprint, .. } => {
            assert_eq!((width, height), (800, 800));
            assert_eq!(fingerprint, vec![0xf0u8; 8]);
        }
        DecodeResult::DecodeError { message, .. } => panic!("{}", message),
    }
}

#[test]
fn fingerprint_of_a_png_follows_its_bright_rows() {
    let bytes = png_of(64, 64, |_, y| if y < 32 { [255, 255, 255] } else { [0, 0, 0] });
    let output = process(&png(0), Ok(bytes));
    match output.result {
        DecodeResult::ImageDecoded { fingerprint, .. } => {
            assert_eq!(fingerprint, vec![0xff, 0xff, 0xff, 0xff, 0, 0, 0, 0]);
        }
        DecodeResult::DecodeError { message, .. } => panic!("{}", message),
    }
}

#[test]
fn images_with_the_same_pixels_have_the_same_fingerprint() {
    let paint = |x: u32, y: u32| [(x * 30) as u8, (y * 30) as u8, ((x + y) * 15) as u8];
    let first = process(&png(0), Ok(png_of(8, 8, paint)));
    let second = process(&png(1), Ok(png_of(8, 8, paint)));
    match (first.result, second.result) {
        (
            DecodeResult::ImageDecoded { fingerprint: a, pixels: p, .. },
            DecodeResult::ImageDecoded { fingerprint: b, pixels: q, .. },
        ) => {
            assert_eq!(a, b);
            assert_eq!(p, q);
            assert_eq!(a.len(), 8);
        }
        _ => panic!("both images decode"),
    }
}

#[test]
fn portrait_png_is_decoded_at_display_size() {
    let output = process(&png(0), Ok(png_of(30, 40, |_, _| [1, 2, 3])));
    match output.result {
        DecodeResult::ImageDecoded { width, height, pixels, .. } => {
            assert_eq!((width, height), (600, 800));
            assert_eq!(pixels.len(), 4 * 600 * 800);
        }
        DecodeResult::DecodeError { message, .. } => panic!("{}", message),
    }
}

#[test]
fn assemble_hands_on_what_can_be_used() {
    let mut luma = vec![0u8; 64];
    luma[0] = 255;
    let pixels = vec![7u8; 4 * 3 * 2];
    let output = assemble(6, luma, 3, 2, pixels.clone());
    assert_eq!(output.events, done(6));
    match output.result {
        DecodeResult::ImageDecoded { index, width, height, pixels: kept, fingerprint } => {
            assert_eq!(index, 6);
            assert_eq!((width, height), (3, 2));
            assert_eq!(kept, pixels);
            assert_eq!(fingerprint, vec![1, 0, 0, 0, 0, 0, 0, 0]);
        }
        DecodeResult::DecodeError { message, .. } => panic!("{}", message),
    }
}

#[test]
fn assemble_fails_on_a_thumbnail_of_the_wrong_length() {
    let output = assemble(6, vec![0u8; 63], 1, 1, vec![0u8; 4]);
    assert_eq!(
        output.events,
        vec![
            ProgressEvent::Started { index: 6 },
            ProgressEvent::Loading { index: 6 },
            ProgressEvent::Resizing { index: 6 },
            ProgressEvent::Error { index: 6 },
        ]
    );
    assert!(matches!(output.result, DecodeResult::DecodeError { index: 6, ref message }
        if message == "decode error: resampled buffers of unexpected length"));
}

#[test]
fn assemble_fails_on_pixels_of_the_wrong_length() {
    let output = assemble(0, vec![0u8; 64], 2, 2, vec![0u8; 15]);
    assert!(!output.result.is_decoded());
    let output = assemble(0, vec![0u8; 64], 801, 1, vec![0u8; 4 * 801]);
    assert!(!output.result.is_decoded());
    let output = assemble(0, vec![0u8; 64], 1, 801, vec![0u8; 4 * 801]);
    assert!(!output.result.is_decoded());
}

#[test]
fn every_trace_ends_with_its_only_terminal_event() {
    let outputs = vec![
        process(&png(3), Err("gone".to_string())),
        process(&png(3), Ok(vec![1, 2, 3])),
        process(&png(3), Ok(png_of(2, 2, |_, _| [0, 0, 0]))),
        assemble(3, Vec::new(), 0, 0, Vec::new()),
    ];
    for output in outputs {
        let last = output.events.len() - 1;
        assert_eq!(output.events[0], ProgressEvent::Started { index: 3 });
        for (position, event) in output.events.iter().enumerate() {
            assert_eq!(event.index(), 3);
            assert_eq!(event.is_terminal(), position == last);
        }
        assert_eq!(
            output.result.is_decoded(),
            output.events[last] == ProgressEvent::Completed { index: 3 }
        );
        assert_eq!(output.result.index(), 3);
    }
}

#[test]
fn accept_for_display_keeps_what_fills_its_size() {
    let entry = accept_for_display(2, 1, vec![1, 2, 3, 4, 5, 6, 7, 8]);
    match entry {
        Some(CacheEntry { width, height, pixels }) => {
            assert_eq!((width, height), (2, 1));
            assert_eq!(pixels, vec![1, 2, 3, 4, 5, 6, 7, 8]);
        }
        None => panic!("a full buffer was refused"),
    }
    assert!(accept_for_display(2, 1, vec![0u8; 7]).is_none());
    assert!(accept_for_display(801, 1, vec![0u8; 4 * 801]).is_none());
}

#[test]
fn image_for_display_keeps_its_aspect_ratio_inside_the_edge() {
    let entry = prepare_for_display("a.png", &png_of(8, 4, |_, _| [50, 60, 70])).unwrap();
    assert_eq!((entry.width, entry.height), (800, 400));
    assert_eq!(entry.pixels.len(), 4 * 800 * 400);
    assert_eq!(&entry.pixels[0..4], &[50, 60, 70, 255]);
    let entry = prepare_for_display("a.PNG", &png_of(10, 40, |_, _| [0, 0, 0])).unwrap();
    assert_eq!((entry.width, entry.height), (200, 800));
}

#[test]
fn nothing_is_displayed_of_bytes_that_are_no_image() {
    assert!(prepare_for_display("a.png", &b"nothing".to_vec()).is_none());
    assert!(prepare_for_display("a.png", &Vec::new()).is_none());
}

#[test]
fn format_is_taken_from_the_extension_of_the_path() {
    let bytes = png_of(4, 4, |_, _| [1, 2, 3]);
    for path in ["a.png", "dir.jpg/b.PNG", "c.d.png"] {
        assert!(process(&entry(0, path), Ok(bytes.clone())).result.is_decoded());
    }
    // The bytes of a PNG under the extension of a JPEG do not decode.
    for path in ["a.jpg", "a.jpeg", "a.gif"] {
        let output = process(&entry(7, path), Ok(bytes.clone()));
        assert_eq!(output.events, failed_loading(7));
        assert!(matches!(output.result, DecodeResult::DecodeError { index: 7, ref message }
            if message.starts_with("decode error: ")));
    }
}

#[test]
fn path_without_a_known_extension_gives_a_decode_error() {
    let bytes = png_of(4, 4, |_, _| [1, 2, 3]);
    for path in ["a", "a.txt", "", "png", "a.png.bak"] {
        let output = process(&entry(1, path), Ok(bytes.clone()));
        assert_eq!(output.events, failed_loading(1));
        assert!(!output.result.is_decoded());
        assert!(prepare_for_display(path, &bytes).is_none());
    }
}

#[test]
fn jpeg_is_decoded_under_its_extension() {
    let mut picture = image::RgbImage::new(16, 8);
    for pixel in picture.pixels_mut() {
        *pixel = image::Rgb([200, 200, 200]);
    }
    let mut bytes = Vec::new();
    picture
        .write_to(&mut std::io::Cursor::new(&mut bytes), image::ImageFormat::Jpeg)
        .unwrap();
    let output = process(&entry(2, "photo.jpeg"), Ok(bytes.clone()));
    match output.result {
        DecodeResult::ImageDecoded { width, height, pixels, fingerprint, .. } => {
            assert_eq!((width, height), (800, 400));
            assert_eq!(pixels.len(), 4 * 800 * 400);
            assert_eq!(fingerprint, vec![0u8; 8]);
        }
        DecodeResult::DecodeError { message, .. } => panic!("{}", message),
    }
    assert!(!process(&entry(2, "photo.png"), Ok(bytes)).result.is_decoded());
}

#[test]
fn bytes_that_do_not_decode_under_a_known_extension_give_nothing_for_display() {
    let picture = png_of(4, 4, |_, _| [1, 2, 3]);
    let mut cut = picture.clone();
    cut.truncate(30);
    assert!(prepare_for_display("a.png", &cut).is_none());
    assert!(prepare_for_display("a.jpg", &picture).is_none());
    assert!(prepare_for_display("a.png", &b"\x89PNG\r\n\x1a\nrubbish".to_vec()).is_none());
    assert!(prepare_for_display("a.png", &picture).is_some());
}

#[test]
fn decode_failure_carries_the_text_of_the_decoder() {
    let bytes = b"this is not an image".to_vec();
    let direct = image::load_from_memory_with_format(&bytes, image::ImageFormat::Png)
        .unwrap_err()
        .to_string();
    match process(&png(3), Ok(bytes)).result {
        DecodeResult::DecodeError { index, message } => {
            assert_eq!(index, 3);
            assert_eq!(message, format!("decode error: {}", direct));
        }
        DecodeResult::ImageDecoded { .. } => panic!("garbage gave an image"),
    }
}

#[test]
fn decoded_pixels_are_those_of_the_image_crate() {
    let paint = |x: u32, y: u32| [(x * 40) as u8, (y * 60) as u8, ((x + y) * 20) as u8];
    let bytes = png_of(6, 4, paint);
    let direct = image::load_from_memory_with_format(&bytes, image::ImageFormat::Png).unwrap();
    let expected = direct
        .resize_exact(800, 533, image::imageops::FilterType::Nearest)
        .to_rgba8()
        .into_raw();
    let thumbnail = direct
        .resize_exact(8, 8, image::imageops::FilterType::Nearest)
        .grayscale()
        .to_luma8()
        .into_raw();
    match process(&png(0), Ok(bytes)).result {
        DecodeResult::ImageDecoded { width, height, pixels, fingerprint, .. } => {
            assert_eq!((width, height), (800, 533));
            assert_eq!(pixels, expected);
            assert_eq!(fingerprint, image_tagger::fingerprint::fingerprint(&thumbnail));
        }
        DecodeResult::DecodeError { message, .. } => panic!("{}", message),
    }
}

#[test]
fn image_for_display_is_that_of_the_image_crate() {
    let paint = |x: u32, y: u32| [(x * 9) as u8, (y * 17) as u8, 77];
    let bytes = png_of(20, 10, paint);
    let direct = image::load_from_memory_with_format(&bytes, image::ImageFormat::Png).unwrap();
    let expected = direct.resize(800, 800, image::imageops::FilterType::Triangle).to_rgba8();
    let entry = prepare_for_display("x.png", &bytes).unwrap();
    assert_eq!((entry.width, entry.height), (expected.width(), expected.height()));
    assert_eq!(entry.pixels, expected.into_raw());
}

#[test]
fn messages_go_out_events_first_then_result_then_terminal_event() {
    let sent = sending_order(process(&png(2), Ok(png_of(2, 2, |_, _| [0, 0, 0]))));
    assert_eq!(sent.len(), 5);
    assert!(matches!(sent[0], Sent::Progress(ProgressEvent::Started { index: 2 })));
    assert!(matches!(sent[1], Sent::Progress(ProgressEvent::Loading { index: 2 })));
    assert!(matches!(sent[2], Sent::Progress(ProgressEvent::Resizing { index: 2 })));
    assert!(matches!(sent[3], Sent::Result(DecodeResult::ImageDecoded { index: 2, .. })));
    assert!(matches!(sent[4], Sent::Progress(ProgressEvent::Completed { index: 2 })));
    let sent = sending_order(process(&png(9), Err("gone".to_string())));
    assert_eq!(sent.len(), 4);
    assert!(matches!(sent[2], Sent::Result(DecodeResult::DecodeError { index: 9, .. })));
    assert!(matches!(sent[3], Sent::Progress(ProgressEvent::Error { index: 9 })));
}

#[test]
fn output_without_events_sends_its_result_alone() {
    let output = WorkerOutput {
        events: Vec::new(),
        result: DecodeResult::DecodeError { index: 1, message: "x".to_string() },
    };
    let sent = sending_order(output);
    assert_eq!(sent.len(), 1);
    assert!(matches!(sent[0], Sent::Result(DecodeResult::DecodeError { index: 1, .. })));
}

#[test]
fn job_holds_its_index_from_begin_to_end() {
    let mut tracker = InFlightSet::new();
    let job = Job::begin(&mut tracker, png(4)).unwrap();
    assert!(tracker.contains(4));
    assert!(Job::begin(&mut tracker, png(4)).is_none());
    assert!(tracker.contains(4));
    assert_eq!(job.index(), 4);
    assert_eq!(job.path(), "pictures/image.png");
    let sent = job.run(Err("denied".to_string()));
    assert!(matches!(&sent[2], Sent::Result(DecodeResult::DecodeError { index: 4, message })
        if message == "open error: denied"));
    job.end(&mut tracker);
    assert!(!tracker.contains(4));
    assert!(Job::begin(&mut tracker, png(4)).is_some());
}

#[test]
fn scan_run_job_by_job_sends_one_result_for_each_index() {
    let mut tracker = InFlightSet::new();
    let good = png_of(3, 3, |_, _| [5, 5, 5]);
    let mut results = vec![0usize; 6];
    let mut decoded = vec![false; 6];
    for index in 0..6usize {
        let job = Job::begin(&mut tracker, png(index)).unwrap();
        let source = match index % 3 {
            0 => Ok(good.clone()),
            1 => Ok(vec![1, 2, 3]),
            _ => Err("gone".to_string()),
        };
        for message in job.run(source) {
            if let Sent::Result(result) = message {
                results[result.index()] += 1;
                decoded[result.index()] = result.is_decoded();
            }
        }
        job.end(&mut tracker);
    }
    assert_eq!(results, vec![1; 6]);
    assert_eq!(decoded, vec![true, false, false, true, false, false]);
    assert_eq!(tracker.len(), 0);
}
