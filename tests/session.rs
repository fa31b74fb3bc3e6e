use repeaty::image::is_png_extension;
use repeaty::chunks::DecodeError;
use repeaty::dimensions::ValidationError;
use repeaty::raster::{PixelRGBA, RasterImage};
use repeaty::session::{Action, Event, Field, ProcessState, Session, SessionError};

const SIGNATURE: [u8; 8] = [0x89, b'P', b'N', b'G', b'\r', b'\n', 0x1a, b'\n'];

fn chunk(tag: &[u8; 4], data: &[u8]) -> Vec<u8> {
    let mut out = (data.len() as u32).to_be_bytes().to_vec();
    out.extend_from_slice(tag);
    out.extend_from_slice(data);
    out.extend_from_slice(&[0, 0, 0, 0]);
    out
}

fn file_with_phys(ppm: u32) -> Vec<u8> {
    let mut phys = ppm.to_be_bytes().to_vec();
    phys.extend_from_slice(&ppm.to_be_bytes());
    phys.push(1);
    let mut out = SIGNATURE.to_vec();
    out.extend(chunk(b"pHYs", &phys));
    out.extend(chunk(b"IEND", &[]));
    out
}

fn bitmap(width: u32, height: u32) -> RasterImage {
    let mut image = RasterImage::new(width, height);
    for (i, p) in image.pixels.iter_mut().enumerate() {
        *p = PixelRGBA { r: i as u8, g: 0, b: 0, a: 255 };
    }
    image
}

fn text(s: &[u8]) -> String {
    String::from_utf8(s.to_vec()).unwrap()
}

fn loaded_session(width: u32, height: u32, ppm: u32) -> Session {
    let mut s = Session::new();
    let action = s.update(Event::FileLoaded {
        filepath: "images/example.png".to_string(),
        bitmap: bitmap(width, height),
        file_bytes: file_with_phys(ppm),
    });
    assert!(matches!(action, Action::Nothing));
    s
}

fn edit(s: &mut Session, f: Field, value: &str) {
    let action = s.update(Event::Edited(f, value.as_bytes().to_vec()));
    assert!(matches!(action, Action::Nothing));
}

#[test]
fn loading_sets_defaults_and_texts() {
    let s = loaded_session(100, 100, 11811);
    assert!(s.current_error.is_none());
    assert_eq!(s.process_state, ProcessState::Idle);
    assert_eq!(s.image.as_ref().unwrap().pixels_per_meter, Some(11811));
    assert_eq!(text(&s.repeat_x_text), "5");
    assert_eq!(text(&s.repeat_y_text), "5");
    assert_eq!(text(&s.dim_mm_x_text), "42.33");
    assert_eq!(text(&s.dim_mm_y_text), "42.33");
}

#[test]
fn editing_repeat_updates_size_text() {
    let mut s = loaded_session(100, 100, 11811);
    edit(&mut s, Field::RepeatX, "2");
    assert_eq!(text(&s.repeat_x_text), "2");
    assert_eq!(text(&s.dim_mm_x_text), "16.93");
    assert_eq!(text(&s.dim_mm_y_text), "42.33");
    edit(&mut s, Field::DimMmY, "84.67");
    assert_eq!(text(&s.repeat_y_text), "10");
}

#[test]
fn unreadable_text_keeps_value() {
    let mut s = loaded_session(100, 100, 11811);
    edit(&mut s, Field::RepeatX, "abc");
    assert_eq!(text(&s.repeat_x_text), "abc");
    assert_eq!(text(&s.dim_mm_x_text), "42.33");
    assert_eq!(s.model.unwrap().repeat_x.num, 5);
}

#[test]
fn editing_without_image_keeps_text_only() {
    let mut s = Session::new();
    edit(&mut s, Field::RepeatY, "3");
    assert_eq!(text(&s.repeat_y_text), "3");
    assert!(s.model.is_none());
    assert!(s.dim_mm_y_text.is_empty());
}

#[test]
fn start_produces_pattern_and_suffix() {
    let mut s = loaded_session(100, 100, 11811);
    edit(&mut s, Field::RepeatX, "2");
    edit(&mut s, Field::RepeatY, "2");
    match s.update(Event::PressedStartButton) {
        Action::WritePattern { suffix, png } => {
            assert_eq!(text(&suffix), "__2x2__16.93x16.93mm");
            let found = repeaty::chunks::png_extract_ancillary_chunks(&png).unwrap();
            assert_eq!(found.get(b"pHYs").unwrap(), &file_with_phys(11811)[16..25].to_vec());
        }
        Action::Nothing => panic!("expected a pattern"),
    }
    assert_eq!(s.process_state, ProcessState::Running);
    s.update(Event::PatternWritten(Ok(())));
    assert_eq!(s.process_state, ProcessState::Finished);
    assert!(s.current_error.is_none());
}

#[test]
fn start_with_zero_value_reports_invalid_values() {
    let mut s = loaded_session(10, 10, 1000);
    edit(&mut s, Field::DimMmX, "0");
    assert!(matches!(s.update(Event::PressedStartButton), Action::Nothing));
    assert!(matches!(s.current_error, Some(SessionError::InvalidValues(ValidationError::NotPositive))));
    assert_eq!(s.process_state, ProcessState::Idle);
}

#[test]
fn start_without_image_does_nothing() {
    let mut s = Session::new();
    assert!(matches!(s.update(Event::PressedStartButton), Action::Nothing));
    assert!(s.current_error.is_none());
}

#[test]
fn failed_write_returns_to_idle() {
    let mut s = loaded_session(4, 4, 1000);
    assert!(matches!(s.update(Event::PressedStartButton), Action::WritePattern { .. }));
    s.update(Event::PatternWritten(Err("disk full".to_string())));
    assert_eq!(s.process_state, ProcessState::Idle);
    assert!(matches!(&s.current_error, Some(SessionError::Write(m)) if m == "disk full"));
}

#[test]
fn bad_files_report_problems_and_keep_image() {
    let mut s = loaded_session(4, 4, 1000);
    let mut bad = file_with_phys(1000);
    bad[0] = 0;
    s.update(Event::FileLoaded { filepath: "b.png".to_string(), bitmap: bitmap(2, 2), file_bytes: bad });
    assert!(matches!(s.current_error, Some(SessionError::Decode(DecodeError::BadSignature))));
    assert_eq!(s.image.as_ref().unwrap().filepath, "images/example.png");
    let empty = RasterImage { width: 0, height: 3, pixels: Vec::new() };
    s.update(Event::FileLoaded { filepath: "c.png".to_string(), bitmap: empty, file_bytes: file_with_phys(1) });
    assert!(matches!(s.current_error, Some(SessionError::BadBitmap)));
    s.update(Event::LoadFailed("We only support PNG images".to_string()));
    assert!(matches!(&s.current_error, Some(SessionError::Load(m)) if m == "We only support PNG images"));
    assert_eq!(s.image.as_ref().unwrap().bitmap.width, 4);
}

#[test]
fn unknown_resolution_uses_72_dpi() {
    let mut s = Session::new();
    let mut bytes = SIGNATURE.to_vec();
    bytes.extend(chunk(b"IEND", &[]));
    s.update(Event::FileLoaded { filepath: "a.png".to_string(), bitmap: bitmap(72, 72), file_bytes: bytes });
    assert_eq!(s.image.as_ref().unwrap().pixels_per_meter, None);
    edit(&mut s, Field::RepeatX, "1");
    assert_eq!(text(&s.dim_mm_x_text), "25.40");
}

#[test]
fn negative_entry_blocks_start_until_replaced() {
    let mut s = loaded_session(100, 100, 11811);
    edit(&mut s, Field::RepeatX, "-5");
    assert_eq!(text(&s.repeat_x_text), "-5");
    assert!(s.rejected_x);
    assert!(matches!(s.update(Event::PressedStartButton), Action::Nothing));
    assert!(matches!(s.current_error, Some(SessionError::InvalidValues(ValidationError::Unusable))));
    edit(&mut s, Field::DimMmX, "16.93");
    assert!(!s.rejected_x);
    assert!(matches!(s.update(Event::PressedStartButton), Action::WritePattern { .. }));
}

#[test]
fn nan_entry_on_vertical_axis_is_rejected() {
    let mut s = loaded_session(10, 10, 1000);
    edit(&mut s, Field::DimMmY, "NaN");
    assert!(s.rejected_y);
    assert!(!s.rejected_x);
    assert!(matches!(s.update(Event::PressedStartButton), Action::Nothing));
    assert!(matches!(s.current_error, Some(SessionError::InvalidValues(_))));
}

#[test]
fn png_extension_is_recognised() {
    assert!(is_png_extension(b"png"));
    assert!(is_png_extension(b"apng"));
    assert!(!is_png_extension(b"PNG"));
    assert!(!is_png_extension(b"gif"));
    assert!(!is_png_extension(b"pn"));
    assert!(!is_png_extension(b""));
}
