use overlay_music::cover::{extract_cover_image, CoverAction, CoverEvent, CoverMove, CoverStep};
use overlay_music::log::LogEntry;
use overlay_music::progress::{duration_ms, phase_message, worker_bar, worker_bars};
use overlay_music::time::timestamp;

fn go(step: CoverStep, event: CoverEvent) -> CoverMove {
    extract_cover_image("in/book/a.m4b", "out/book", step, event)
}

#[test]
fn an_existing_cover_is_kept() {
    let m = go(CoverStep::Start, CoverEvent::Begin { exists: true });
    assert!(matches!(m.action, CoverAction::Finish(true)));
}

#[test]
fn embedded_art_comes_first() {
    let m = go(CoverStep::Start, CoverEvent::Begin { exists: false });
    match &m.action {
        CoverAction::Extract { output, args } => {
            assert_eq!(output, "out/book/cover.jpg");
            assert_eq!(
                *args,
                ["-y", "-i", "in/book/a.m4b", "-an", "-vcodec", "mjpeg", "-frames:v", "1", "out/book/cover.jpg"]
            );
        }
        other => panic!("{other:?}"),
    }
    let found = go(m.step, CoverEvent::Extracted { success: true, size: Some(10) });
    assert!(matches!(found.action, CoverAction::Finish(true)));
    let empty = go(m.step, CoverEvent::Extracted { success: true, size: Some(0) });
    assert_eq!(empty.remove.as_deref(), Some("out/book/cover.jpg"));
    assert!(matches!(empty.action, CoverAction::Look { path } if path == "in/book/cover.jpg"));
    let none = go(m.step, CoverEvent::Extracted { success: false, size: Some(10) });
    assert!(none.remove.is_none());
    assert!(matches!(none.step, CoverStep::Looking { index: 0 }));
}

#[test]
fn common_names_are_tried_in_order() {
    let mut step = CoverStep::Looking { index: 0 };
    let mut looked = vec![];
    loop {
        let m = go(step, CoverEvent::Looked(false));
        match m.action {
            CoverAction::Look { path } => looked.push(path),
            CoverAction::Finish(placed) => {
                assert!(!placed);
                break;
            }
            other => panic!("{other:?}"),
        }
        step = m.step;
    }
    assert_eq!(looked.len(), 18);
    assert_eq!(looked[0], "in/book/cover.jpeg");
    assert_eq!(looked[1], "in/book/cover.png");
    assert_eq!(looked[17], "in/book/EmbeddedCover.jpg");
}

#[test]
fn images_are_converted_or_copied() {
    let m = go(CoverStep::Looking { index: 2 }, CoverEvent::Looked(true));
    assert!(matches!(&m.action, CoverAction::Convert { args }
        if *args == ["-y", "-i", "in/book/cover.png", "out/book/cover.jpg"]));
    let m = go(CoverStep::Looking { index: 3 }, CoverEvent::Looked(true));
    assert!(matches!(&m.action, CoverAction::Copy { from, to }
        if from == "in/book/folder.jpg" && to == "out/book/cover.jpg"));
    let placed = go(m.step, CoverEvent::Placed(true));
    assert!(matches!(placed.action, CoverAction::Finish(true)));
    let not = go(m.step, CoverEvent::Placed(false));
    assert!(matches!(not.action, CoverAction::Look { path } if path == "in/book/folder.jpeg"));
}

#[test]
fn covers_of_a_file_without_directory() {
    let m = extract_cover_image("a.m4b", "out", CoverStep::Extracting, CoverEvent::Extracted { success: false, size: None });
    assert!(matches!(m.action, CoverAction::Look { path } if path == "cover.jpg"));
    let m = extract_cover_image("", "out", CoverStep::Extracting, CoverEvent::Extracted { success: false, size: None });
    assert!(matches!(m.action, CoverAction::Look { path } if path == "./cover.jpg"));
}

#[test]
fn stamps_are_dates() {
    assert_eq!(timestamp(0), "1970-01-01T00:00:00Z");
    assert_eq!(timestamp(1_743_417_000), "2025-03-31T10:30:00Z");
    assert_eq!(timestamp(951_782_399), "2000-02-28T23:59:59Z");
    assert_eq!(timestamp(951_782_400), "2000-02-29T00:00:00Z");
    assert_eq!(timestamp(4_107_542_400), "2100-03-01T00:00:00Z");
    assert_eq!(timestamp(4_107_542_399), "2100-02-28T23:59:59Z");
    assert_eq!(timestamp(253_402_300_799), "9999-12-31T23:59:59Z");
    assert_eq!(timestamp(253_402_300_800), "10000-01-01T00:00:00Z");
    assert!(timestamp(u64::MAX).ends_with("Z"));
}

#[test]
fn bars_are_shared() {
    assert_eq!(worker_bars(48, 100), 16);
    assert_eq!(worker_bars(8, 100), 8);
    assert_eq!(worker_bars(8, 3), 3);
    assert_eq!(worker_bars(8, 0), 0);
    assert_eq!(worker_bar(Some(17), 16), Some(1));
    assert_eq!(worker_bar(None, 16), Some(0));
    assert_eq!(worker_bar(Some(1), 0), None);
}

#[test]
fn bars_show_a_phase() {
    assert_eq!(phase_message("ch03.m4b", "norm₁"), "norm₁ ch03.m4b");
    assert_eq!(duration_ms(300_000_999), 300_000);
    assert_eq!(duration_ms(-5), 0);
}

#[test]
fn entries_say_what_happened() {
    let e = LogEntry::processed("a.mp3");
    assert_eq!((e.file.as_str(), e.error, e.command), ("a.mp3", None, None));
    let e = LogEntry::failed("a.mp3", "bad", Some("ffmpeg".into()));
    assert_eq!((e.file.as_str(), e.error.as_deref(), e.command.as_deref()), ("a.mp3", Some("bad"), Some("ffmpeg")));
}
