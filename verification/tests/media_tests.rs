use gallery::media::{
    avi_dimensions, ebml_dimensions, find_mp4_boxes, fnv1a_update, image_extension_matches,
    image_format, image_format_extension, image_mime_type, is_supported_image, is_supported_video,
    mp4_box_bounds, mp4_dimensions, mp4_handler_type, mp4_header_has_large_size, mp4_moov_buffer,
    mp4_tkhd_dimensions, mp4_top_level_step, read_be_u32, read_be_u64, read_ebml_uint,
    read_ebml_vint, read_le_u32, record_unchanged, supported_media_type, video_dimensions,
    ExistingMediaRecord, ImageFormatKind, MediaKind, TopLevelStep, FNV_OFFSET_BASIS,
};
use gallery::paths::{LibPath, PathPart};

fn path(text: &str) -> LibPath {
    let mut parts = Vec::new();
    if text.starts_with('/') {
        parts.push(PathPart::Root);
    }
    for piece in text.split('/').filter(|p| !p.is_empty()) {
        parts.push(PathPart::Normal(piece.to_string()));
    }
    LibPath { parts }
}

fn mp4_box(kind: &[u8; 4], content: &[u8]) -> Vec<u8> {
    let mut out = ((content.len() + 8) as u32).to_be_bytes().to_vec();
    out.extend_from_slice(kind);
    out.extend_from_slice(content);
    out
}

fn tkhd(width: u32, height: u32) -> Vec<u8> {
    let mut content = vec![0u8; 84];
    content[76..80].copy_from_slice(&(width << 16).to_be_bytes());
    content[80..84].copy_from_slice(&(height << 16).to_be_bytes());
    mp4_box(b"tkhd", &content)
}

fn trak(handler: &[u8; 4], width: u32, height: u32) -> Vec<u8> {
    let mut hdlr_content = vec![0u8; 8];
    hdlr_content.extend_from_slice(handler);
    hdlr_content.extend_from_slice(&[0u8; 12]);
    let mdia = mp4_box(b"mdia", &mp4_box(b"hdlr", &hdlr_content));
    let mut content = tkhd(width, height);
    content.extend_from_slice(&mdia);
    mp4_box(b"trak", &content)
}

fn movie(traks: &[Vec<u8>]) -> Vec<u8> {
    let mut data = mp4_box(b"ftyp", b"isom\0\0\0\0");
    let content: Vec<u8> = traks.iter().flatten().copied().collect();
    data.extend_from_slice(&mp4_box(b"moov", &content));
    data
}

#[test]
fn reads_fixed_width_integers() {
    let data = [0x00, 0x00, 0x01, 0x00, 0x02, 0x00, 0x00, 0x00, 0x09];
    assert_eq!(read_be_u32(&data, 0), Some(256));
    assert_eq!(read_le_u32(&data, 4), Some(2));
    assert_eq!(read_be_u64(&data, 1), Some(0x0001_0002_0000_0000 | 0x09));
    assert_eq!(read_be_u32(&data, 6), None);
    assert_eq!(read_be_u64(&data, 2), None);
}

#[test]
fn lists_boxes_and_their_content_ranges() {
    let mut data = mp4_box(b"ftyp", b"isom");
    data.extend_from_slice(&mp4_box(b"free", b"xx"));
    let boxes = mp4_box_bounds(&data, 0, data.len());
    assert_eq!(boxes, vec![(8, 12, *b"ftyp"), (20, 22, *b"free")]);
    assert_eq!(find_mp4_boxes(&data, 0, data.len(), *b"free"), vec![(20, 22)]);
    assert_eq!(find_mp4_boxes(&data, 0, data.len(), *b"moov"), vec![]);
}

#[test]
fn box_walk_stops_at_a_size_smaller_than_its_header() {
    let mut data = mp4_box(b"ftyp", b"isom");
    data.extend_from_slice(&[0, 0, 0, 4, b'b', b'a', b'd', b'!']);
    data.extend_from_slice(&mp4_box(b"free", b"xx"));
    assert_eq!(mp4_box_bounds(&data, 0, data.len()), vec![(8, 12, *b"ftyp")]);
}

#[test]
fn box_of_size_zero_runs_to_the_end() {
    let mut data = vec![0, 0, 0, 0];
    data.extend_from_slice(b"mdat");
    data.extend_from_slice(&[1, 2, 3]);
    assert_eq!(mp4_box_bounds(&data, 0, data.len()), vec![(8, 11, *b"mdat")]);
}

#[test]
fn box_with_large_size_has_a_sixteen_byte_header() {
    let mut data = vec![0, 0, 0, 1];
    data.extend_from_slice(b"mdat");
    data.extend_from_slice(&20u64.to_be_bytes());
    data.extend_from_slice(&[7, 7, 7, 7]);
    assert_eq!(mp4_box_bounds(&data, 0, data.len()), vec![(16, 20, *b"mdat")]);
}

#[test]
fn reads_video_track_dimensions() {
    let data = movie(&[trak(b"vide", 1920, 1080)]);
    assert_eq!(mp4_dimensions(&data), Some((1920, 1080)));
}

#[test]
fn skips_tracks_that_are_not_video() {
    let data = movie(&[trak(b"soun", 1, 1), trak(b"vide", 640, 360)]);
    assert_eq!(mp4_dimensions(&data), Some((640, 360)));
    let audio_only = movie(&[trak(b"soun", 1, 1)]);
    assert_eq!(mp4_dimensions(&audio_only), None);
}

#[test]
fn skips_video_tracks_without_dimensions() {
    let data = movie(&[trak(b"vide", 0, 0), trak(b"vide", 320, 240)]);
    assert_eq!(mp4_dimensions(&data), Some((320, 240)));
}

#[test]
fn handler_and_track_header_helpers() {
    let t = trak(b"vide", 12, 34);
    let trak_content = (8, t.len());
    assert_eq!(mp4_tkhd_dimensions(&t, trak_content.0, trak_content.1), Some((12, 34)));
    let mdia = find_mp4_boxes(&t, trak_content.0, trak_content.1, *b"mdia");
    assert_eq!(mdia.len(), 1);
    assert_eq!(mp4_handler_type(&t, mdia[0].0, mdia[0].1), Some(*b"vide"));
}

#[test]
fn version_one_track_header_puts_dimensions_later() {
    let mut content = vec![0u8; 104];
    content[0] = 1;
    content[96..100].copy_from_slice(&(800u32 << 16).to_be_bytes());
    content[100..104].copy_from_slice(&(600u32 << 16).to_be_bytes());
    let data = mp4_box(b"tkhd", &content);
    assert_eq!(mp4_tkhd_dimensions(&data, 0, data.len()), Some((800, 600)));
}

#[test]
fn reads_ebml_variable_integers() {
    assert_eq!(read_ebml_vint(&[0x82], 0, true), Some((2, 1)));
    assert_eq!(read_ebml_vint(&[0x82], 0, false), Some((0x82, 1)));
    assert_eq!(read_ebml_vint(&[0x40, 0x02], 0, true), Some((2, 2)));
    assert_eq!(read_ebml_vint(&[0x40], 0, true), None);
    assert_eq!(read_ebml_vint(&[0x00], 0, true), None);
    assert_eq!(read_ebml_vint(&[], 0, true), None);
    assert_eq!(read_ebml_uint(&[0x01, 0x00]), 256);
    assert_eq!(read_ebml_uint(&[]), 0);
}

#[test]
fn reads_matroska_dimensions() {
    let data = [0xb0, 0x82, 0x07, 0x80, 0xba, 0x82, 0x04, 0x38];
    assert_eq!(ebml_dimensions(&data), Some((1920, 1080)));
    assert_eq!(ebml_dimensions(&[0xb0, 0x81, 0x10]), None);
}

#[test]
fn reads_avi_dimensions() {
    let mut data = b"RIFF".to_vec();
    data.extend_from_slice(&[0, 0, 0, 0]);
    data.extend_from_slice(b"AVI ");
    data.extend_from_slice(b"avih");
    data.extend_from_slice(&56u32.to_le_bytes());
    let mut header = vec![0u8; 56];
    header[32..36].copy_from_slice(&640u32.to_le_bytes());
    header[36..40].copy_from_slice(&480u32.to_le_bytes());
    data.extend_from_slice(&header);
    assert_eq!(avi_dimensions(&data), Some((640, 480)));
    assert_eq!(avi_dimensions(b"RIFF\0\0\0\0WAVE"), None);
}

#[test]
fn video_dimensions_tries_each_container_in_turn() {
    assert_eq!(video_dimensions(Some((1, 2)), &[]), Some((1, 2)));
    let mkv = [0xb0, 0x81, 0x05, 0xba, 0x81, 0x06];
    assert_eq!(video_dimensions(None, &mkv), Some((5, 6)));
    assert_eq!(video_dimensions(None, b"nothing here"), None);
}

#[test]
fn top_level_walk_steps() {
    let ftyp = [0, 0, 0, 16, b'f', b't', b'y', b'p'];
    assert!(matches!(mp4_top_level_step(0, 100, &ftyp, None), TopLevelStep::Next(16)));
    let moov = [0, 0, 0, 24, b'm', b'o', b'o', b'v'];
    assert!(matches!(
        mp4_top_level_step(16, 100, &moov, None),
        TopLevelStep::ReadMoov { offset: 24, size: 16 }
    ));
    let tiny = [0, 0, 0, 4, b'f', b'r', b'e', b'e'];
    assert!(matches!(mp4_top_level_step(0, 100, &tiny, None), TopLevelStep::Stop));
    let to_end = [0, 0, 0, 0, b'm', b'o', b'o', b'v'];
    assert!(matches!(
        mp4_top_level_step(10, 50, &to_end, None),
        TopLevelStep::ReadMoov { offset: 18, size: 32 }
    ));
    let large = [0, 0, 0, 1, b'm', b'd', b'a', b't'];
    assert!(mp4_header_has_large_size(&large));
    assert!(!mp4_header_has_large_size(&ftyp));
    assert!(matches!(mp4_top_level_step(0, 100, &large, Some(40)), TopLevelStep::Next(40)));
}

#[test]
fn moov_buffer_gets_a_header_of_its_own() {
    assert_eq!(mp4_moov_buffer(&vec![1, 2]), vec![0, 0, 0, 10, b'm', b'o', b'o', b'v', 1, 2]);
    let content: Vec<u8> = trak(b"vide", 30, 40);
    let buffer = mp4_moov_buffer(&content);
    assert_eq!(mp4_dimensions(&buffer), Some((30, 40)));
}

#[test]
fn content_hash_is_fnv1a() {
    assert_eq!(fnv1a_update(FNV_OFFSET_BASIS, b""), FNV_OFFSET_BASIS);
    assert_eq!(fnv1a_update(FNV_OFFSET_BASIS, b"a"), 0xaf63dc4c8601ec8c);
    let whole = fnv1a_update(FNV_OFFSET_BASIS, b"hello");
    assert_eq!(whole, 0xa430d84680aabd0b);
    let in_pieces = fnv1a_update(fnv1a_update(FNV_OFFSET_BASIS, b"he"), b"llo");
    assert_eq!(in_pieces, whole);
}

#[test]
fn media_types_by_extension() {
    assert!(is_supported_image(&path("/pics/a.JPG")));
    assert!(is_supported_image(&path("/pics/a.tif")));
    assert!(!is_supported_image(&path("/pics/a.mp4")));
    assert!(is_supported_video(&path("/clips/b.MkV")));
    assert!(!is_supported_video(&path("/clips/b")));
    assert_eq!(supported_media_type(&path("/x/c.webp")), Some(MediaKind::Image));
    assert_eq!(supported_media_type(&path("/x/c.avi")), Some(MediaKind::Video));
    assert_eq!(supported_media_type(&path("/x/notes.txt")), None);
    assert_eq!(MediaKind::Image.name(), "image");
    assert_eq!(MediaKind::Video.name(), "video");
}

#[test]
fn format_names_and_mime_types() {
    assert_eq!(image_format_extension(ImageFormatKind::Jpeg), Some("jpeg"));
    assert_eq!(image_format_extension(ImageFormatKind::Other), None);
    assert_eq!(image_mime_type(ImageFormatKind::Tiff), Some("image/tiff"));
    assert_eq!(image_mime_type(ImageFormatKind::WebP), Some("image/webp"));
    assert!(image_extension_matches(ImageFormatKind::Jpeg, "JPG"));
    assert!(image_extension_matches(ImageFormatKind::Tiff, "tif"));
    assert!(!image_extension_matches(ImageFormatKind::Png, "jpg"));
    assert!(!image_extension_matches(ImageFormatKind::Other, "png"));
}

#[test]
fn image_format_prefers_content_over_extension() {
    let png = [0x89, 0x50, 0x4e, 0x47, 0x0d, 0x0a, 0x1a, 0x0a, 0, 0, 0, 0];
    assert_eq!(image_format(&png, &path("/a/photo.jpg")), Some(ImageFormatKind::Png));
    let jpeg = [0xff, 0xd8, 0xff, 0xe0, 0, 0];
    assert_eq!(image_format(&jpeg, &path("/a/photo.png")), Some(ImageFormatKind::Jpeg));
    assert_eq!(image_format(b"GIF89a....", &path("/a/x")), Some(ImageFormatKind::Gif));
    assert_eq!(image_format(b"BM......", &path("/a/x")), Some(ImageFormatKind::Bmp));
    assert_eq!(image_format(b"RIFF\x24\x00\x00\x00WEBPVP8 ", &path("/a/photo.png")), Some(ImageFormatKind::WebP));
    assert_eq!(image_format(b"qoif\x00\x00", &path("/a/photo.png")), Some(ImageFormatKind::Other));
    assert_eq!(image_format(b"P6 640 480", &path("/a/photo.jpg")), Some(ImageFormatKind::Other));
}

#[test]
fn image_format_falls_back_to_the_extension() {
    let unknown = b"just some text";
    assert_eq!(image_format(unknown, &path("/a/photo.JPG")), Some(ImageFormatKind::Jpeg));
    assert_eq!(image_format(unknown, &path("/a/photo.tiff")), Some(ImageFormatKind::Tiff));
    assert_eq!(image_format(unknown, &path("/a/photo.tga")), Some(ImageFormatKind::Other));
    assert_eq!(image_format(unknown, &path("/a/photo.txt")), None);
    assert_eq!(image_format(unknown, &path("/a/photo")), None);
}

#[test]
fn unchanged_records_are_skipped() {
    let existing = ExistingMediaRecord { media_type: "image".to_string(), modified: 10, size: 20 };
    assert!(record_unchanged(&existing, MediaKind::Image, 10, 20));
    assert!(!record_unchanged(&existing, MediaKind::Video, 10, 20));
    assert!(!record_unchanged(&existing, MediaKind::Image, 11, 20));
    assert!(!record_unchanged(&existing, MediaKind::Image, 10, 21));
}
