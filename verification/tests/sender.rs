use matrix_stream::display_controller::{DisplayController, FrameStep};
use matrix_stream::drivers::osl641505::Osl641505;
use matrix_stream::protocol::ProtocolParser;
use matrix_stream::sender::{
    convert_image_to_binary, is_frame_file_name, is_video_extension, is_video_file, reports_progress,
    retry_after_failure, same_text, sort_frame_files, text_le_exec, threshold_pixels, Channels,
    Picture, frame_of_file,
};

#[test]
fn video_files_by_extension() {
    assert!(is_video_file("clip.mp4"));
    assert!(is_video_file("dir/movie.MKV"));
    assert!(is_video_file("/a/b/c.WebM"));
    assert!(is_video_file("x.m4v"));
    assert!(!is_video_file("picture.png"));
    assert!(!is_video_file("mp4"));
    assert!(!is_video_file(".mp4"));
    assert!(!is_video_file("archive.mp4.zip"));
    assert!(!is_video_file(""));
    assert!(is_video_file("a.FlV"));
    assert!(!is_video_file("..mp4x"));
    assert!(is_video_file("..mp4"));
    assert!(is_video_file("dir/clip.MP4"));
    assert!(is_video_file("dir/clip.avi/"));
    assert!(is_video_file("dir/clip.mov/."));
    assert!(!is_video_file("dir/.mp4"));
    assert!(!is_video_file("clip.mp4/.."));
    assert!(!is_video_file("."));
    assert!(!is_video_file("/"));
}

#[test]
fn video_extensions_are_lowercase() {
    for e in ["mp4", "avi", "mov", "mkv", "webm", "flv", "m4v"] {
        assert!(is_video_extension(e));
    }
    assert!(!is_video_extension("MP4"));
    assert!(!is_video_extension("mp"));
    assert!(!is_video_extension(""));
}

#[test]
fn same_text_compares_characters() {
    assert!(same_text("abc", "abc"));
    assert!(!same_text("abc", "abd"));
    assert!(!same_text("ab", "abc"));
}

#[test]
fn threshold_is_strictly_above_128() {
    let s = threshold_pixels(&vec![0, 128, 129, 255]);
    assert_eq!(s, "0011");
    assert_eq!(threshold_pixels(&vec![]), "");
}

fn grey(width: u32, height: u32, samples: Vec<u8>) -> Picture {
    eight(Channels::Grey, width, height, samples)
}

fn eight(channels: Channels, width: u32, height: u32, bytes: Vec<u8>) -> Picture {
    Picture { channels, wide: false, width, height, bytes, words: vec![] }
}

fn sixteen(channels: Channels, width: u32, height: u32, words: Vec<u16>) -> Picture {
    Picture { channels, wide: true, width, height, bytes: vec![], words }
}

fn png_of(image: image::DynamicImage) -> Vec<u8> {
    let mut out = std::io::Cursor::new(Vec::new());
    image.write_to(&mut out, image::ImageFormat::Png).unwrap();
    out.into_inner()
}

#[test]
fn convert_resizes_to_eight_by_eight() {
    assert_eq!(convert_image_to_binary(grey(16, 16, vec![200u8; 16 * 16])), "1".repeat(64));
    assert_eq!(convert_image_to_binary(grey(3, 5, vec![10u8; 3 * 5])), "0".repeat(64));
}

#[test]
fn convert_keeps_an_eight_by_eight_picture() {
    let pixels: Vec<u8> = (0..64).map(|i| if i % 3 == 0 { 255 } else { 0 }).collect();
    let expected: String = (0..64).map(|i| if i % 3 == 0 { '1' } else { '0' }).collect();
    assert_eq!(convert_image_to_binary(grey(8, 8, pixels)), expected);
}

#[test]
fn convert_empty_picture_is_dark() {
    assert_eq!(convert_image_to_binary(grey(0, 0, vec![])), "0".repeat(64));
}

#[test]
fn convert_turns_colour_grey() {
    // Pure red is dark once grey, pure green is bright.
    let red = eight(Channels::Colour, 4, 4, [255u8, 0, 0].repeat(16));
    assert_eq!(convert_image_to_binary(red), "0".repeat(64));
    let green = eight(Channels::ColourAlpha, 8, 8, [0u8, 255, 0, 255].repeat(64));
    assert_eq!(convert_image_to_binary(green), "1".repeat(64));
    let white = eight(Channels::GreyAlpha, 20, 10, [255u8, 255].repeat(200));
    assert_eq!(convert_image_to_binary(white), "1".repeat(64));
}

#[test]
fn convert_handles_sixteen_bit_samples() {
    let green = sixteen(Channels::Colour, 10, 10, [0u16, 0xFFFF, 0].repeat(100));
    assert_eq!(convert_image_to_binary(green), "1".repeat(64));
    let dim = sixteen(Channels::Grey, 3, 3, vec![0x1000; 9]);
    assert_eq!(convert_image_to_binary(dim), "0".repeat(64));
}

#[test]
fn frame_of_png_file() {
    let white = png_of(image::DynamicImage::ImageRgb8(image::RgbImage::from_pixel(
        16,
        16,
        image::Rgb([255, 255, 255]),
    )));
    assert_eq!(frame_of_file(&white, "pictures/white.png"), Some("1".repeat(64)));
    assert_eq!(frame_of_file(&white, "WHITE.PNG"), Some("1".repeat(64)));
    assert_eq!(frame_of_file(&white, "white"), None);
    assert_eq!(frame_of_file(&white, "white.jpg"), None);
    assert_eq!(frame_of_file(&[1, 2, 3], "broken.png"), None);
    let mut half: image::GrayImage = image::ImageBuffer::new(8, 8);
    for (x, y, p) in half.enumerate_pixels_mut() {
        *p = image::Luma([if (x + y) % 2 == 0 { 255 } else { 0 }]);
    }
    let expected: String = (0..64).map(|i| if (i % 8 + i / 8) % 2 == 0 { '1' } else { '0' }).collect();
    assert_eq!(frame_of_file(&png_of(image::DynamicImage::ImageLuma8(half)), "c.png"), Some(expected));
    let deep = png_of(image::DynamicImage::ImageRgb16(image::ImageBuffer::from_pixel(
        5,
        5,
        image::Rgb([0u16, 0xFFFF, 0]),
    )));
    assert_eq!(frame_of_file(&deep, "deep.png"), Some("1".repeat(64)));
}

#[test]
fn sent_frame_is_received_and_drawn() {
    let pixels: Vec<u8> = (0..64u32).map(|i| ((i * 37) % 256) as u8).collect();
    let line = convert_image_to_binary(grey(8, 8, pixels.clone()));
    assert_eq!(ProtocolParser::validate_frame_data(&line), Ok(()));
    let mut c = DisplayController::new();
    c.start();
    c.update_data(line + "\n").unwrap();
    let v = match c.next_step() {
        FrameStep::Draw(v) => v,
        other => panic!("not drawn: {:?}", other),
    };
    for row in 0..8usize {
        for col in 0..8usize {
            let lit = (v >> (63 - 8 * row - col)) & 1 == 1;
            assert_eq!(lit, pixels[8 * row + col] > 128);
        }
    }
    assert_eq!(Osl641505::draw(v).len(), 8);
}

#[test]
fn frame_file_names() {
    assert!(is_frame_file_name("frame_0001.png"));
    assert!(is_frame_file_name("frame_.png"));
    assert!(!is_frame_file_name("frame_0001.jpg"));
    assert!(!is_frame_file_name("img_0001.png"));
    assert!(!is_frame_file_name("frame"));
    assert!(!is_frame_file_name(""));
}

#[test]
fn sorting_frame_files() {
    let files = vec![
        "t/frame_0010.png".to_string(),
        "t/frame_0002.png".to_string(),
        "t/frame_0001.png".to_string(),
        "t/frame_0002.png".to_string(),
    ];
    let sorted = sort_frame_files(&files);
    let mut expected = files.clone();
    expected.sort();
    assert_eq!(sorted, expected);
    assert!(sort_frame_files(&vec![]).is_empty());
}

#[test]
fn text_order_matches_string_order() {
    let words = ["", "a", "ab", "b", "é", "Z", "z", "abc", "aa"];
    for a in words {
        for b in words {
            assert_eq!(text_le_exec(&a.to_string(), &b.to_string()), a <= b, "{:?} {:?}", a, b);
        }
    }
}

#[test]
fn retry_policy() {
    for attempt in 1..5 {
        assert!(retry_after_failure(attempt));
    }
    assert!(!retry_after_failure(5));
}

#[test]
fn progress_every_thirty_frames() {
    assert!(reports_progress(30));
    assert!(reports_progress(60));
    assert!(!reports_progress(29));
    assert!(!reports_progress(31));
}

#[test]
fn video_test_ignores_extension_case() {
    for stem in ["clip", "a/b", "", "x.y", "dir/"] {
        for ext in ["mp4", "Mp4", "avi", "webm", "txt", "m4v", ""] {
            let a = format!("{}.{}", stem, ext);
            let b = format!("{}.{}", stem, ext.to_ascii_uppercase());
            assert_eq!(is_video_file(&a), is_video_file(&b), "{:?} {:?}", a, b);
        }
    }
}
