use headset_screenshots::feedback::{notify_delivered, storage_permission_granted, Hand};
use headset_screenshots::filter::{forward_as, matches_package, screenshot_extension};
use headset_screenshots::packets::{ControlPacket, SCREENSHOT_CHUNK_SIZE};
use headset_screenshots::upload::{
    chunk_count, send_screenshot, FoundScreenshot, ScreenshotUpload, SendStep,
};

const PICO_NAME: &str = "Screenshot_alvr.client.dev_2026.09.02-11.35.29.451_800.jpeg";

fn found(len: usize) -> FoundScreenshot {
    FoundScreenshot {
        display_name: "capture.JPEG".to_string(),
        extension: "jpeg".to_string(),
        data: (0..len).map(|i| (i % 251) as u8).collect(),
    }
}

#[test]
fn accepts_pico_screenshot() {
    let extension = screenshot_extension(PICO_NAME, "image/jpeg");

    assert_eq!(extension.as_deref(), Some("jpeg"));
    assert!(matches_package(PICO_NAME, "alvr.client.dev"));
}

#[test]
fn accepts_png_from_unknown_vendor_naming() {
    // Quest uses a different convention; falling back to mime and extension keeps it working.
    let extension = screenshot_extension("capture-001.PNG", "image/png");

    assert_eq!(extension.as_deref(), Some("png"));
    assert!(!matches_package("capture-001.PNG", "alvr.client.dev"));
}

#[test]
fn rejects_video_recordings() {
    // The headset writes screen recordings into the same collection.
    assert!(screenshot_extension("Record_1.mp4", "video/mp4").is_none());
}

#[test]
fn rejects_mime_and_extension_mismatch() {
    assert!(screenshot_extension("fake.jpeg", "video/mp4").is_none());
    assert!(screenshot_extension("fake.webp", "image/jpeg").is_none());
}

#[test]
fn rejects_name_without_extension() {
    assert!(screenshot_extension("screenshot", "image/jpeg").is_none());
}

#[test]
fn empty_package_never_matches() {
    assert!(!matches_package(PICO_NAME, ""));
}

#[test]
fn chunk_count_covers_all_bytes() {
    assert_eq!(chunk_count(0), 1);
    assert_eq!(chunk_count(1), 1);
    assert_eq!(chunk_count(SCREENSHOT_CHUNK_SIZE), 1);
    assert_eq!(chunk_count(SCREENSHOT_CHUNK_SIZE + 1), 2);
    // A typical Pico capture is around one megabyte.
    assert_eq!(chunk_count(1_259_464), 5);
}

#[test]
fn lower_case_applies_to_extension_and_mime_type() {
    assert_eq!(screenshot_extension("a.b.JpG", "IMAGE/Jpeg").as_deref(), Some("jpg"));
    assert_eq!(screenshot_extension(".png", "image/png").as_deref(), Some("png"));
    assert!(screenshot_extension("a.png.", "image/png").is_none());
    assert!(screenshot_extension("\u{fc}ber.jp\u{e9}g", "image/jpeg").is_none());
    assert_eq!(screenshot_extension("\u{dc}ber.jpeg", "image/jpeg").as_deref(), Some("jpeg"));
    assert!(screenshot_extension("a.\u{212a}jpeg", "image/jpeg").is_none());
    for extension in ["jp\u{3a3}", "JP\u{3a3}", "\u{3a3}g", "\u{3a3}G", "p\u{130}ng"] {
        assert!(screenshot_extension(&format!("a.{extension}"), "image/png").is_none());
    }
    assert!(screenshot_extension("a.jpeg", "").is_none());
}

#[test]
fn what_stands_before_the_last_dot_does_not_matter() {
    for stem in ["", "a", "alvr.client.dev", "\u{212a}.mp4", "x.y.z."] {
        let name = format!("{stem}.JpEg");
        assert_eq!(screenshot_extension(&name, "image/PNG").as_deref(), Some("jpeg"));
        assert!(screenshot_extension(&format!("{stem}.gif"), "image/png").is_none());
    }
}

#[test]
fn forwarding_expects_lower_case() {
    assert_eq!(
        forward_as("jpg".to_string(), "image/png".to_string()).as_deref(),
        Some("jpg")
    );
    assert!(forward_as("JPG".to_string(), "image/png".to_string()).is_none());
    assert!(forward_as("jpg".to_string(), "image/gif".to_string()).is_none());
}

#[test]
fn package_matches_anywhere_in_the_name() {
    assert!(matches_package("dev", "dev"));
    assert!(matches_package("xdev", "dev"));
    assert!(matches_package("d\u{e9}v.dev", "v.d"));
    assert!(!matches_package("de", "dev"));
    assert!(!matches_package("dexv", "dev"));
    assert!(!matches_package("", "dev"));
}

#[test]
fn upload_announces_then_sends_every_chunk() {
    let screenshot = found(2 * SCREENSHOT_CHUNK_SIZE + 3);
    let mut upload = ScreenshotUpload::new(7, &screenshot);

    match upload.next_step(true) {
        SendStep::Send(ControlPacket::ScreenshotStart(start)) => {
            assert_eq!(start.id, 7);
            assert_eq!(start.extension, "jpeg");
            assert_eq!(start.chunk_count, 3);
            assert_eq!(start.total_size, 524_291);
        }
        _ => panic!("the announcement comes first"),
    }
    let mut data = Vec::new();
    for index in 0..3 {
        match upload.next_step(true) {
            SendStep::Send(ControlPacket::ScreenshotChunk(chunk)) => {
                assert_eq!(chunk.id, 7);
                assert_eq!(chunk.chunk_index, index);
                assert_eq!(chunk.data.len(), if index < 2 { SCREENSHOT_CHUNK_SIZE } else { 3 });
                data.extend(chunk.data);
            }
            _ => panic!("a chunk follows"),
        }
    }
    assert_eq!(data, screenshot.data);
    assert!(matches!(upload.next_step(true), SendStep::Done(true)));
    assert!(matches!(upload.next_step(true), SendStep::Done(true)));
}

#[test]
fn upload_of_full_chunks_has_no_empty_one() {
    let screenshot = found(SCREENSHOT_CHUNK_SIZE);
    let mut upload = ScreenshotUpload::new(1, &screenshot);

    assert!(matches!(
        upload.next_step(true),
        SendStep::Send(ControlPacket::ScreenshotStart(_))
    ));
    assert!(matches!(
        upload.next_step(true),
        SendStep::Send(ControlPacket::ScreenshotChunk(_))
    ));
    assert!(matches!(upload.next_step(true), SendStep::Done(true)));
}

#[test]
fn upload_stops_when_the_connection_is_gone() {
    let screenshot = found(10);
    let mut upload = ScreenshotUpload::new(1, &screenshot);

    assert!(matches!(upload.next_step(true), SendStep::Send(_)));
    assert!(matches!(upload.next_step(false), SendStep::Done(false)));
}

#[test]
fn empty_captures_are_not_announced() {
    let screenshot = found(0);
    let mut upload = ScreenshotUpload::new(1, &screenshot);

    assert!(matches!(upload.next_step(true), SendStep::Done(false)));
}

#[test]
fn sending_goes_on_until_a_packet_fails() {
    let screenshot = found(SCREENSHOT_CHUNK_SIZE + 1);
    let record = |packet: &ControlPacket| match packet {
        ControlPacket::ScreenshotStart(start) => format!("start {}", start.chunk_count),
        ControlPacket::ScreenshotChunk(chunk) => format!("chunk {}", chunk.chunk_index),
    };

    let (sent, delivered) =
        send_screenshot(Vec::new(), 1, &screenshot, |mut sent: Vec<String>, packet| {
            sent.push(record(packet));
            (sent, true)
        });
    assert!(delivered);
    assert_eq!(sent, vec!["start 2", "chunk 0", "chunk 1"]);

    let (sent, delivered) =
        send_screenshot(Vec::new(), 1, &screenshot, |mut sent: Vec<String>, packet| {
            sent.push(record(packet));
            (sent, matches!(packet, ControlPacket::ScreenshotStart(_)))
        });
    assert!(!delivered);
    assert_eq!(sent, vec!["start 2", "chunk 0"]);

    let mut calls = 0;
    let (_, delivered) = send_screenshot((), 1, &found(0), |(), _| {
        calls += 1;
        ((), true)
    });
    assert!(!delivered);
    assert_eq!(calls, 0);
}

#[test]
fn delivery_pulse_goes_from_left_to_right() {
    let pulses = notify_delivered();

    assert_eq!(pulses.len(), 2);
    assert_eq!((pulses[0].delay_ms, pulses[0].hand, pulses[0].duration_ms), (0, Hand::Left, 50));
    assert_eq!((pulses[1].delay_ms, pulses[1].hand, pulses[1].duration_ms), (80, Hand::Right, 50));
}

#[test]
fn either_permission_gives_access() {
    assert!(storage_permission_granted(true, false));
    assert!(storage_permission_granted(false, true));
    assert!(storage_permission_granted(true, true));
    assert!(!storage_permission_granted(false, false));
}
