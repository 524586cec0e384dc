use microchan::config::{BoardConfig, MediaConfig};
use microchan::error::AppError;
use microchan::media::{
    check_image_size, detect, image_thumb, random_hex, sanitize_filename, stored_names, validate,
    Kind,
};

fn board(exts: &[&str], max: u64) -> BoardConfig {
    BoardConfig {
        short: "b".into(),
        title: "Random".into(),
        description: String::new(),
        nsfw: false,
        thread_limit: 100,
        bump_limit: 300,
        max_images: 4,
        max_file_size: max,
        allowed_extensions: exts.iter().map(|s| s.to_string()).collect(),
        max_thread_age_days: None,
    }
}

const PNG: [u8; 8] = [0x89, b'P', b'N', b'G', 0x0D, 0x0A, 0x1A, 0x0A];

fn bad_request(r: Result<microchan::media::Validated, AppError>) -> String {
    match r {
        Err(AppError::BadRequest(m)) => m,
        Err(e) => panic!("unexpected error {e:?}"),
        Ok(_) => panic!("unexpected success"),
    }
}

#[test]
fn sanitize_strips_path() {
    assert_eq!(sanitize_filename("../../etc/passwd"), "passwd");
    assert_eq!(sanitize_filename("C:\\windows\\evil.png"), "evil.png");
    assert_eq!(sanitize_filename("normal.png"), "normal.png");
    assert_eq!(sanitize_filename("no_ext"), "no_ext");
}

#[test]
fn sanitize_drops_controls_and_bounds_length() {
    assert_eq!(sanitize_filename("  a\u{0}b\tc.png  "), "abc.png");
    let long: String = std::iter::repeat('é').take(150).collect();
    // 300 bytes, 150 characters: cut to the first 200 characters, i.e. all of them.
    assert_eq!(sanitize_filename(&long), long);
    let longer: String = std::iter::repeat('x').take(250).collect();
    assert_eq!(sanitize_filename(&longer).chars().count(), 200);
    assert_eq!(sanitize_filename("dir/"), "");
}

#[test]
fn detect_png_and_reject_text() {
    assert!(matches!(detect(&PNG), Some(Kind::Image("image/png"))));
    assert!(detect(b"hello world").is_none());
}

#[test]
fn kind_extensions() {
    assert_eq!(Kind::Image("image/jpeg").canonical_ext(), "jpg");
    assert_eq!(Kind::Image("image/png").canonical_ext(), "png");
    assert_eq!(Kind::Image("image/webp").canonical_ext(), "webp");
    assert_eq!(Kind::Image("image/gif").canonical_ext(), "gif");
    assert_eq!(Kind::Image("image/bmp").canonical_ext(), "img");
    assert_eq!(Kind::Video("video/webm").canonical_ext(), "webm");
    assert_eq!(Kind::Video("video/mp4").canonical_ext(), "mp4");
    assert_eq!(Kind::Video("video/ogg").canonical_ext(), "video");
    assert_eq!(Kind::Video("video/mp4").mime(), "video/mp4");
    assert!(Kind::Video("video/mp4").is_video());
    assert!(!Kind::Image("image/png").is_video());
}

#[test]
fn validate_accepts_allowed_png() {
    let v = validate(PNG.to_vec(), "dir/pic.png", &board(&["png"], 1000), true).unwrap();
    assert_eq!(v.original_name, "pic.png");
    assert!(matches!(v.kind, Kind::Image("image/png")));
    assert!(v.spoiler);
    assert_eq!(v.data, PNG.to_vec());
}

#[test]
fn validate_errors() {
    assert_eq!(bad_request(validate(PNG.to_vec(), "/", &board(&["png"], 1000), false)), "File name is empty");
    assert_eq!(
        bad_request(validate(b"hello world".to_vec(), "a.txt", &board(&["png"], 1000), false)),
        "Unsupported or corrupt file type"
    );
    assert_eq!(
        bad_request(validate(PNG.to_vec(), "a.png", &board(&["jpg"], 1000), false)),
        "File type .png is not allowed on this board"
    );
    assert_eq!(
        bad_request(validate(PNG.to_vec(), "a.png", &board(&["png"], 4), false)),
        "File is too large"
    );
}

#[test]
fn random_hex_shape() {
    let a = random_hex();
    assert_eq!(a.len(), 32);
    assert!(a.chars().all(|c| c.is_ascii_hexdigit()));
}

#[test]
fn stored_file_names() {
    let (s, t) = stored_names("abc", Kind::Video("video/webm"));
    assert_eq!(s, "abc.webm");
    assert_eq!(t, "abc.jpg");
}

#[test]
fn image_size_limit() {
    let media = MediaConfig {
        thumb_width: 200,
        thumb_height: 200,
        thumb_quality: 80,
        max_video_seconds: 0,
        max_image_pixels: 100,
    };
    assert!(check_image_size(10, 10, &media).is_ok());
    match check_image_size(11, 10, &media) {
        Err(AppError::BadRequest(m)) => assert_eq!(m, "Image resolution is too large"),
        _ => panic!("expected the limit to apply"),
    }
    let unlimited = MediaConfig { max_image_pixels: 0, ..media };
    assert!(check_image_size(u32::MAX, u32::MAX, &unlimited).is_ok());
}

fn png_of(w: u32, h: u32) -> Vec<u8> {
    let img = image::RgbImage::from_pixel(w, h, image::Rgb([200, 30, 30]));
    let mut out = std::io::Cursor::new(Vec::new());
    image::DynamicImage::ImageRgb8(img)
        .write_to(&mut out, image::ImageFormat::Png)
        .unwrap();
    out.into_inner()
}

#[test]
fn image_thumbnails() {
    let media = MediaConfig::default();
    let png = png_of(40, 30);
    match image_thumb(&png, &media) {
        Ok((jpeg, w, h)) => {
            assert_eq!((w, h), (Some(40), Some(30)));
            assert_eq!(&jpeg[..3], &[0xFF, 0xD8, 0xFF]);
            assert_ne!(jpeg, png);
            let thumb = image::load_from_memory(&png).unwrap().thumbnail(200, 200);
            let mut expected = Vec::new();
            let encoder = image::codecs::jpeg::JpegEncoder::new_with_quality(&mut expected, 80);
            thumb.write_with_encoder(encoder).unwrap();
            assert_eq!(jpeg, expected);
        }
        Err(e) => panic!("unexpected error {e:?}"),
    }
    match image_thumb(b"not an image at all", &media) {
        Err(AppError::BadRequest(m)) => assert_eq!(m, "Corrupt image"),
        other => panic!("unexpected {:?}", other.map(|r| (r.1, r.2))),
    }
    let small = MediaConfig { max_image_pixels: 1000, ..MediaConfig::default() };
    match image_thumb(&png, &small) {
        Err(AppError::BadRequest(m)) => assert_eq!(m, "Image resolution is too large"),
        other => panic!("unexpected {:?}", other.map(|r| (r.1, r.2))),
    }
}
