use std::collections::HashSet;
use std::path::PathBuf;

use headset_screenshots::assembler::{CompletedScreenshot, ScreenshotAssembler};
use headset_screenshots::moment::{timestamp, CalendarTime, LocalTime};
use headset_screenshots::packets::{
    ControlPacket, ScreenshotChunk, ScreenshotStart, SCREENSHOT_CHUNK_SIZE, SCREENSHOT_MAX_SIZE,
};
use headset_screenshots::storage::{
    build_screenshot_path, screenshot_destination, screenshots_root, PathBase,
    ScreenshotPath,
};
use headset_screenshots::upload::{FoundScreenshot, ScreenshotUpload, SendStep};

fn start(id: u32, extension: &str, chunk_count: u32, total_size: u64) -> ScreenshotStart {
    ScreenshotStart {
        id,
        extension: extension.into(),
        chunk_count,
        total_size,
    }
}

fn chunk(id: u32, chunk_index: u32, data: &[u8]) -> ScreenshotChunk {
    ScreenshotChunk {
        id,
        chunk_index,
        data: data.to_vec(),
    }
}

fn path_in(root: &str) -> ScreenshotPath {
    ScreenshotPath {
        base: PathBase::Directory(PathBuf::from(root)),
        segments: Vec::new(),
    }
}

fn on_disk(path: &ScreenshotPath) -> PathBuf {
    let mut buf = match &path.base {
        PathBase::Text(text) => PathBuf::from(text),
        PathBase::Directory(directory) => directory.clone(),
    };
    for segment in &path.segments {
        buf = buf.join(segment);
    }
    buf
}

#[test]
fn assembles_chunks_in_order() {
    let mut assembler = ScreenshotAssembler::new();
    assembler.handle_start(start(1, "jpeg", 3, 6));

    assert!(assembler.handle_chunk(chunk(1, 0, b"ab")).is_none());
    assert!(assembler.handle_chunk(chunk(1, 1, b"cd")).is_none());

    let done = assembler.handle_chunk(chunk(1, 2, b"ef")).unwrap();

    assert_eq!(done.data, b"abcdef");
    assert_eq!(done.extension, "jpeg");
    assert_eq!(assembler.pending_count(), 0);
}

#[test]
fn reassembles_out_of_order_chunks() {
    let mut assembler = ScreenshotAssembler::new();
    assembler.handle_start(start(7, "png", 3, 6));

    assert!(assembler.handle_chunk(chunk(7, 2, b"ef")).is_none());
    assert!(assembler.handle_chunk(chunk(7, 0, b"ab")).is_none());

    let done = assembler.handle_chunk(chunk(7, 1, b"cd")).unwrap();

    assert_eq!(done.data, b"abcdef");
}

#[test]
fn interleaves_two_transfers() {
    let mut assembler = ScreenshotAssembler::new();
    assembler.handle_start(start(1, "jpeg", 2, 4));
    assembler.handle_start(start(2, "png", 2, 4));

    assert!(assembler.handle_chunk(chunk(1, 0, b"aa")).is_none());
    assert!(assembler.handle_chunk(chunk(2, 0, b"bb")).is_none());
    assert!(assembler.handle_chunk(chunk(2, 1, b"bb")).is_some());

    let done = assembler.handle_chunk(chunk(1, 1, b"aa")).unwrap();

    assert_eq!(done.data, b"aaaa");
    assert_eq!(assembler.pending_count(), 0);
}

#[test]
fn duplicate_chunk_does_not_complete_transfer() {
    let mut assembler = ScreenshotAssembler::new();
    assembler.handle_start(start(1, "jpeg", 2, 4));

    assert!(assembler.handle_chunk(chunk(1, 0, b"ab")).is_none());
    // Same index again: must not be mistaken for progress towards chunk_count.
    assert!(assembler.handle_chunk(chunk(1, 0, b"ab")).is_none());
    assert_eq!(assembler.pending_count(), 1);

    assert!(assembler.handle_chunk(chunk(1, 1, b"cd")).is_some());
}

#[test]
fn chunk_without_start_is_ignored() {
    let mut assembler = ScreenshotAssembler::new();

    assert!(assembler.handle_chunk(chunk(9, 0, b"ab")).is_none());
    assert_eq!(assembler.pending_count(), 0);
}

#[test]
fn out_of_range_index_drops_transfer() {
    let mut assembler = ScreenshotAssembler::new();
    assembler.handle_start(start(1, "jpeg", 2, 4));

    assert!(assembler.handle_chunk(chunk(1, 5, b"ab")).is_none());
    assert_eq!(assembler.pending_count(), 0);
}

#[test]
fn oversized_payload_drops_transfer() {
    let mut assembler = ScreenshotAssembler::new();
    assembler.handle_start(start(1, "jpeg", 2, 4));

    assert!(assembler.handle_chunk(chunk(1, 0, b"aaaaaaaa")).is_none());
    assert_eq!(assembler.pending_count(), 0);
}

#[test]
fn size_mismatch_on_last_chunk_is_rejected() {
    let mut assembler = ScreenshotAssembler::new();
    assembler.handle_start(start(1, "jpeg", 2, 8));

    assert!(assembler.handle_chunk(chunk(1, 0, b"ab")).is_none());
    // All chunks present but the announced total was never reached.
    assert!(assembler.handle_chunk(chunk(1, 1, b"cd")).is_none());
    assert_eq!(assembler.pending_count(), 0);
}

#[test]
fn rejects_unsupported_extension() {
    let mut assembler = ScreenshotAssembler::new();
    assembler.handle_start(start(1, "mp4", 1, 2));

    assert_eq!(assembler.pending_count(), 0);
    assert!(assembler.handle_chunk(chunk(1, 0, b"ab")).is_none());
}

#[test]
fn rejects_transfer_over_size_cap() {
    let mut assembler = ScreenshotAssembler::new();
    assembler.handle_start(start(1, "png", 1, SCREENSHOT_MAX_SIZE + 1));

    assert_eq!(assembler.pending_count(), 0);
}

#[test]
fn rejects_empty_and_zero_chunk_transfers() {
    let mut assembler = ScreenshotAssembler::new();
    assembler.handle_start(start(1, "png", 1, 0));
    assembler.handle_start(start(2, "png", 0, 4));

    assert_eq!(assembler.pending_count(), 0);
}

#[test]
fn extension_is_normalized_to_lowercase() {
    let mut assembler = ScreenshotAssembler::new();
    assembler.handle_start(start(1, "JPEG", 1, 2));

    let done = assembler.handle_chunk(chunk(1, 0, b"ab")).unwrap();

    assert_eq!(done.extension, "jpeg");
}

#[test]
fn restarting_an_id_discards_the_stale_transfer() {
    let mut assembler = ScreenshotAssembler::new();
    assembler.handle_start(start(1, "jpeg", 2, 4));
    assert!(assembler.handle_chunk(chunk(1, 0, b"aa")).is_none());

    // Same id announced again: the half-received one must not leak into the new transfer.
    assembler.handle_start(start(1, "jpeg", 1, 2));

    let done = assembler.handle_chunk(chunk(1, 0, b"bb")).unwrap();

    assert_eq!(done.data, b"bb");
}

#[test]
fn path_uses_month_subfolder_and_timestamp() {
    let root = PathBuf::from("root");

    let (path, ()) = build_screenshot_path(
        &path_in("root"),
        "2026-09-06_14-32-17",
        "jpeg",
        (),
        |(), _| ((), false),
    );

    assert_eq!(on_disk(&path), root.join("2026-09").join("2026-09-06_14-32-17.jpeg"));
}

#[test]
fn path_suffixes_on_collision() {
    let root = PathBuf::from("root");
    let taken: HashSet<PathBuf> = [
        root.join("2026-09").join("2026-09-06_14-32-17.jpeg"),
        root.join("2026-09").join("2026-09-06_14-32-17_1.jpeg"),
    ]
    .into_iter()
    .collect();

    let (path, ()) = build_screenshot_path(
        &path_in("root"),
        "2026-09-06_14-32-17",
        "jpeg",
        (),
        |(), p| ((), taken.contains(&on_disk(p))),
    );

    assert_eq!(
        on_disk(&path),
        root.join("2026-09").join("2026-09-06_14-32-17_2.jpeg")
    );
}

#[test]
fn explicit_setting_overrides_pictures_dir() {
    let root =
        screenshots_root("  D:/shots  ", dirs::picture_dir(), dirs::home_dir()).unwrap();

    assert_eq!(on_disk(&root), PathBuf::from("D:/shots"));
}

#[test]
fn empty_setting_falls_back_to_pictures_alvr() {
    let root = screenshots_root("   ", dirs::picture_dir(), dirs::home_dir()).unwrap();

    assert!(on_disk(&root).ends_with("ALVR"));
}

#[test]
fn fallback_uses_what_the_system_names() {
    let pictures = Some(PathBuf::from("/home/alice/Bilder"));
    let home = Some(PathBuf::from("/home/alice"));

    let root = screenshots_root("", pictures.clone(), home.clone()).unwrap();
    assert_eq!(on_disk(&root), PathBuf::from("/home/alice/Bilder/ALVR"));
    let root = screenshots_root("\t\n", None, home.clone()).unwrap();
    assert_eq!(on_disk(&root), PathBuf::from("/home/alice/Pictures/ALVR"));
    assert!(screenshots_root(" ", None, None).is_none());
    let root = screenshots_root("\u{a0}my shots\u{3000}", pictures, home).unwrap();
    assert_eq!(on_disk(&root), PathBuf::from("my shots"));
    assert!(root.segments.is_empty());
}

#[test]
fn default_assembler_has_nothing_pending() {
    assert_eq!(ScreenshotAssembler::default().pending_count(), 0);
}

#[test]
fn size_cap_itself_is_accepted() {
    let mut assembler = ScreenshotAssembler::new();
    assembler.handle_start(start(1, "png", 1, SCREENSHOT_MAX_SIZE));

    assert_eq!(assembler.pending_count(), 1);
}

#[test]
fn begin_transfer_expects_lower_case() {
    let mut assembler = ScreenshotAssembler::new();
    assembler.begin_transfer(1, "JPG".to_string(), 1, 2);
    assert_eq!(assembler.pending_count(), 0);

    assembler.begin_transfer(1, "jpg".to_string(), 1, 2);
    assert_eq!(assembler.pending_count(), 1);
}

#[test]
fn replaced_chunk_counts_once() {
    let mut assembler = ScreenshotAssembler::new();
    assembler.handle_start(start(1, "png", 2, 5));

    assert!(assembler.handle_chunk(chunk(1, 0, b"abcd")).is_none());
    assert!(assembler.handle_chunk(chunk(1, 0, b"xy")).is_none());

    let done = assembler.handle_chunk(chunk(1, 1, b"zzz")).unwrap();

    assert_eq!(done.data, b"xyzzz");
}

#[test]
fn refused_restart_keeps_the_transfer() {
    let mut assembler = ScreenshotAssembler::new();
    assembler.handle_start(start(1, "jpg", 1, 2));
    assembler.handle_start(start(1, "gif", 1, 3));

    assert_eq!(assembler.handle_chunk(chunk(1, 0, b"ab")).unwrap().extension, "jpg");
}

#[test]
fn uploads_arrive_whole_in_any_order() {
    let screenshot = FoundScreenshot {
        display_name: "a.PNG".to_string(),
        extension: "PNG".to_string(),
        data: (0..SCREENSHOT_CHUNK_SIZE * 2 + 17).map(|i| (i % 253) as u8).collect(),
    };
    let mut upload = ScreenshotUpload::new(3, &screenshot);
    let mut assembler = ScreenshotAssembler::new();
    assembler.handle_start(start(4, "jpg", 1, 2));
    let mut chunks = Vec::new();
    while let SendStep::Send(packet) = upload.next_step(true) {
        match packet {
            ControlPacket::ScreenshotStart(start) => assembler.handle_start(start),
            ControlPacket::ScreenshotChunk(chunk) => chunks.push(chunk),
        }
    }
    assert_eq!(chunks.len(), 3);
    let last = chunks.pop().unwrap();
    assert!(assembler.handle_chunk(last).is_none());
    let first = chunks.remove(0);
    assert!(assembler.handle_chunk(chunk(3, 0, &first.data)).is_none());
    assert!(assembler.handle_chunk(first).is_none());

    let done = assembler.handle_chunk(chunks.pop().unwrap()).unwrap();

    assert_eq!(done.extension, "png");
    assert_eq!(done.data, screenshot.data);
    assert_eq!(assembler.pending_count(), 1);
}

fn moment(year: i32, month: u32, day: u32, nanosecond: u32) -> LocalTime {
    LocalTime {
        utc: CalendarTime {
            year,
            month,
            day,
            hour: 4,
            minute: 5,
            second: 59,
            nanosecond,
        },
        offset: 0,
    }
}

fn text_of(year: i32, month: u32, day: u32, nanosecond: u32) -> String {
    timestamp(&moment(year, month, day, nanosecond)).unwrap()
}

#[test]
fn timestamps_are_zero_padded() {
    assert_eq!(text_of(2026, 9, 6, 0), "2026-09-06_04-05-59");
    assert_eq!(text_of(2024, 2, 29, 999_999_999), "2024-02-29_04-05-59");
    assert_eq!(text_of(2016, 12, 31, 1_000_000_000), "2016-12-31_04-05-60");
    assert_eq!(text_of(0, 1, 1, 0), "0000-01-01_04-05-59");
    assert_eq!(text_of(33, 1, 1, 0), "0033-01-01_04-05-59");
    assert_eq!(text_of(-5, 1, 1, 0), "-0005-01-01_04-05-59");
    assert_eq!(text_of(12345, 1, 1, 0), "+12345-01-01_04-05-59");
    assert_eq!(text_of(-262_143, 1, 1, 0), "-262143-01-01_04-05-59");
    assert_eq!(text_of(262_142, 12, 31, 0), "+262142-12-31_04-05-59");
}

fn text_at(year: i32, month: u32, day: u32, offset: i32) -> String {
    let mut now = moment(year, month, day, 0);
    now.offset = offset;
    timestamp(&now).unwrap()
}

#[test]
fn timestamps_use_the_local_clock() {
    assert_eq!(text_at(2026, 9, 6, 7_200), "2026-09-06_06-05-59");
    assert_eq!(text_at(2026, 9, 6, -19_800), "2026-09-05_22-35-59");
    assert_eq!(text_at(2024, 3, 1, -18_000), "2024-02-29_23-05-59");
    assert_eq!(text_at(2026, 3, 1, -18_000), "2026-02-28_23-05-59");
    assert_eq!(text_at(2026, 1, 1, -18_000), "2025-12-31_23-05-59");
    assert_eq!(text_at(2024, 2, 28, 86_399), "2024-02-29_04-05-58");
    assert_eq!(text_at(2026, 4, 30, 72_000), "2026-05-01_00-05-59");
    assert_eq!(text_at(2026, 12, 31, 72_000), "2027-01-01_00-05-59");
    assert_eq!(text_at(262_142, 12, 31, 72_000), "+262143-01-01_00-05-59");
    assert_eq!(text_at(-262_143, 1, 1, -18_000), "-262144-12-31_23-05-59");
}

#[test]
fn every_white_space_character_is_trimmed() {
    let white = [
        '\u{9}', '\u{a}', '\u{b}', '\u{c}', '\u{d}', ' ', '\u{85}', '\u{a0}', '\u{1680}',
        '\u{2000}', '\u{2001}', '\u{2002}', '\u{2003}', '\u{2004}', '\u{2005}', '\u{2006}',
        '\u{2007}', '\u{2008}', '\u{2009}', '\u{200a}', '\u{2028}', '\u{2029}', '\u{202f}',
        '\u{205f}', '\u{3000}',
    ];

    let trimmed: Vec<char> = ('\0'..=char::MAX)
        .filter(|c| screenshots_root(&c.to_string(), None, None).is_none())
        .collect();

    assert_eq!(trimmed, white);
}

#[test]
fn leap_seconds_follow_any_second() {
    let mut leap = moment(2026, 9, 6, 1_999_999_999);
    leap.utc.second = 30;

    assert_eq!(timestamp(&leap).as_deref(), Some("2026-09-06_04-05-31"));
}

#[test]
fn timestamps_need_a_date_and_time() {
    assert!(timestamp(&moment(2026, 13, 1, 0)).is_none());
    assert!(timestamp(&moment(2026, 0, 1, 0)).is_none());
    assert!(timestamp(&moment(2026, 4, 31, 0)).is_none());
    assert!(timestamp(&moment(2026, 4, 0, 0)).is_none());
    assert!(timestamp(&moment(2026, 2, 29, 0)).is_none());
    assert!(timestamp(&moment(1900, 2, 29, 0)).is_none());
    assert!(timestamp(&moment(2000, 2, 29, 0)).is_some());
    assert!(timestamp(&moment(-4, 2, 29, 0)).is_some());
    assert!(timestamp(&moment(2026, 9, 6, 2_000_000_000)).is_none());
    assert!(timestamp(&moment(262_143, 1, 1, 0)).is_none());
    assert!(timestamp(&moment(-262_144, 1, 1, 0)).is_none());
    let mut late = moment(2026, 9, 6, 0);
    late.utc.second = 60;
    assert!(timestamp(&late).is_none());
    let mut far = moment(2026, 9, 6, 0);
    far.offset = 86_400;
    assert!(timestamp(&far).is_none());
    far.offset = -86_400;
    assert!(timestamp(&far).is_none());
    let mut hour = moment(2026, 9, 6, 0);
    hour.utc.hour = 24;
    assert!(timestamp(&hour).is_none());
    let mut minute = moment(2026, 9, 6, 0);
    minute.utc.minute = 60;
    assert!(timestamp(&minute).is_none());
}

#[test]
fn destination_follows_the_clock() {
    let screenshot = CompletedScreenshot {
        extension: "png".to_string(),
        data: vec![1],
    };
    let root = path_in("root");
    let plain = PathBuf::from("root/2026-09/2026-09-06_04-05-59.png");

    let now = moment(2026, 9, 6, 0);
    let (path, asked) = screenshot_destination(&root, &now, &screenshot, 0, |asked, p| {
        (asked + 1, on_disk(p) == plain)
    });
    assert_eq!(asked, 2);
    assert_eq!(
        on_disk(&path.unwrap()),
        PathBuf::from("root/2026-09/2026-09-06_04-05-59_1.png")
    );
    let never = moment(2026, 9, 31, 0);
    let (path, asked) =
        screenshot_destination(&root, &never, &screenshot, 0, |asked, _| (asked + 1, false));
    assert!(path.is_none());
    assert_eq!(asked, 0);
}

#[test]
fn suffixes_are_decimal() {
    let root = path_in("root");
    let taken: HashSet<String> = (1..120)
        .map(|suffix| format!("2026-09-06_14-32-17_{suffix}.jpg"))
        .chain(["2026-09-06_14-32-17.jpg".to_string()])
        .collect();

    let (path, ()) = build_screenshot_path(&root, "2026-09-06_14-32-17", "jpg", (), |(), p| {
        ((), taken.contains(&p.segments[1]))
    });

    assert_eq!(path.segments, vec!["2026-09", "2026-09-06_14-32-17_120.jpg"]);
}

#[test]
fn candidates_are_asked_about_in_order() {
    let root = path_in("root");
    let mut answers = [true, true, true, false].into_iter();

    let (path, asked) = build_screenshot_path(
        &root,
        "2026-09-06_14-32-17",
        "png",
        Vec::new(),
        |mut asked: Vec<String>, p| {
            asked.push(p.segments[1].clone());
            (asked, answers.next().unwrap())
        },
    );

    assert_eq!(path.segments[1], "2026-09-06_14-32-17_3.png");
    assert_eq!(
        asked,
        vec![
            "2026-09-06_14-32-17.png",
            "2026-09-06_14-32-17_1.png",
            "2026-09-06_14-32-17_2.png",
            "2026-09-06_14-32-17_3.png",
        ]
    );
    assert!(answers.next().is_none());
}

#[test]
fn pieces_of_any_size_arrive_in_any_order() {
    let pieces: [&[u8]; 4] = [b"a", b"", b"bcd", b"ef"];
    let mut assembler = ScreenshotAssembler::new();
    assembler.handle_start(start(5, "PnG", 4, 6));
    for index in [3, 1, 3, 2] {
        assert!(assembler
            .handle_chunk(chunk(5, index, pieces[index as usize]))
            .is_none());
    }

    let done = assembler.handle_chunk(chunk(5, 0, pieces[0])).unwrap();

    assert_eq!(done.extension, "png");
    assert_eq!(done.data, b"abcdef");
    assert_eq!(assembler.pending_count(), 0);
}
