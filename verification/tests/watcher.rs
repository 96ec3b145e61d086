use headset_screenshots::watcher::{MediaEntry, MediaPoll, ScreenshotWatcher, MAX_ENTRIES_PER_POLL};

fn entry(
    id: i64,
    date_added: i64,
    display_name: Option<&str>,
    mime_type: Option<&str>,
) -> MediaEntry {
    MediaEntry {
        id,
        date_added,
        display_name: display_name.map(|name| name.to_string()),
        mime_type: mime_type.map(|mime_type| mime_type.to_string()),
    }
}

fn visit(poll: &mut MediaPoll, entry: MediaEntry, data: Option<&[u8]>) -> bool {
    match poll.examine(entry) {
        Some(capture) => {
            poll.take(capture, data.map(|data| data.to_vec()));
            true
        }
        None => false,
    }
}

#[test]
fn polls_start_from_the_clock() {
    let watcher = ScreenshotWatcher::new(Some(100), Some("alvr.client".to_string()));

    assert_eq!(watcher.begin_poll().since(), 100);
    assert_eq!(ScreenshotWatcher::new(None, None).begin_poll().since(), 0);
}

#[test]
fn polls_return_readable_screenshots() {
    let mut watcher = ScreenshotWatcher::new(Some(100), None);
    let mut poll = watcher.begin_poll();

    assert!(visit(&mut poll, entry(1, 101, Some("a.JPEG"), Some("image/jpeg")), Some(b"aa")));
    assert!(visit(&mut poll, entry(2, 102, Some("b.png"), Some("image/png")), None));
    assert!(!visit(&mut poll, entry(3, 103, Some("c.mp4"), Some("video/mp4")), Some(b"cc")));
    assert!(!visit(&mut poll, entry(4, 105, None, Some("image/png")), Some(b"dd")));
    assert!(!visit(&mut poll, entry(5, 104, Some("e.png"), None), Some(b"ee")));

    let found = watcher.poll(Some(poll));

    assert_eq!(found.len(), 1);
    assert_eq!(found[0].display_name, "a.JPEG");
    assert_eq!(found[0].extension, "jpeg");
    assert_eq!(found[0].data, b"aa");
    // The latest entry counts, rejected or not.
    assert_eq!(watcher.begin_poll().since(), 105);
}

#[test]
fn failed_polls_change_nothing() {
    let mut watcher = ScreenshotWatcher::new(Some(100), None);
    let mut poll = watcher.begin_poll();
    assert!(visit(&mut poll, entry(6, 101, Some("a.png"), Some("image/png")), Some(b"aa")));

    assert!(watcher.poll(None).is_empty());
    assert_eq!(watcher.begin_poll().since(), 100);
}

#[test]
fn polls_without_entries_find_nothing() {
    let mut watcher = ScreenshotWatcher::new(Some(100), None);
    let poll = watcher.begin_poll();

    assert!(watcher.poll(Some(poll)).is_empty());
    assert_eq!(watcher.begin_poll().since(), 100);
}

#[test]
fn the_watermark_does_not_go_back() {
    let mut watcher = ScreenshotWatcher::new(Some(100), None);
    let mut poll = watcher.begin_poll();
    visit(&mut poll, entry(7, 99, Some("a.png"), Some("image/png")), Some(b"aa"));

    watcher.poll(Some(poll));

    assert_eq!(watcher.begin_poll().since(), 100);
}

#[test]
fn polls_stop_at_the_limit() {
    assert_eq!(MAX_ENTRIES_PER_POLL, 16);
    let mut watcher = ScreenshotWatcher::new(Some(0), None);
    let mut poll = watcher.begin_poll();
    let mut date = 0;
    while poll.wants_more() {
        date += 1;
        visit(&mut poll, entry(date, date, Some("skipped.mp4"), Some("video/mp4")), None);
        date += 1;
        visit(&mut poll, entry(date, date, Some("a.jpg"), Some("image/jpeg")), Some(b"a"));
    }

    assert_eq!(watcher.poll(Some(poll)).len(), 16);
    assert_eq!(watcher.begin_poll().since(), 32);
}

#[test]
fn package_match_is_a_diagnostic() {
    let watcher = ScreenshotWatcher::new(Some(0), Some("alvr.client".to_string()));
    let mut poll = watcher.begin_poll();

    let own = poll.examine(entry(8, 1, Some("alvr.client_1.png"), Some("image/png"))).unwrap();
    let other = poll.examine(entry(9, 2, Some("other_1.png"), Some("image/png"))).unwrap();

    assert!(own.package_match);
    assert!(!other.package_match);
    assert_eq!(other.extension, "png");
}

/// Polls a collection of dated ids, in the order given.
fn poll_all(watcher: &mut ScreenshotWatcher, collection: &[(i64, i64)]) -> Vec<i64> {
    let mut poll = watcher.begin_poll();
    let since = poll.since();
    for (id, date_added) in collection {
        if *date_added >= since && poll.wants_more() {
            let name = format!("{id}.png");
            visit(&mut poll, entry(*id, *date_added, Some(&name), Some("image/png")), Some(b"a"));
        }
    }
    watcher
        .poll(Some(poll))
        .into_iter()
        .map(|found| found.display_name.trim_end_matches(".png").parse().unwrap())
        .collect()
}

#[test]
fn successive_polls_find_each_capture_once() {
    let collection: Vec<(i64, i64)> = (1..=40).map(|n| (n, n)).collect();
    let mut watcher = ScreenshotWatcher::new(Some(3), None);
    let mut sent = Vec::new();

    for expected in [16, 16, 5, 0] {
        let found = poll_all(&mut watcher, &collection);
        assert_eq!(found.len(), expected);
        sent.extend(found);
    }

    // Those of the first three seconds were there before the watcher.
    assert_eq!(sent, (4..=40).collect::<Vec<i64>>());
}

#[test]
fn captures_beyond_the_limit_in_one_second_are_found_later() {
    let collection: Vec<(i64, i64)> = (1..=40).map(|n| (n, 5)).collect();
    let mut watcher = ScreenshotWatcher::new(Some(4), None);

    assert_eq!(poll_all(&mut watcher, &collection), (1..=16).collect::<Vec<i64>>());
    assert_eq!(watcher.begin_poll().since(), 5);
    // Rows of one second may come in another order.
    let reversed: Vec<(i64, i64)> = collection.iter().rev().copied().collect();
    assert_eq!(poll_all(&mut watcher, &reversed), (25..=40).rev().collect::<Vec<i64>>());
    assert_eq!(poll_all(&mut watcher, &collection), (17..=24).collect::<Vec<i64>>());
    assert!(poll_all(&mut watcher, &collection).is_empty());
}

#[test]
fn captures_indexed_later_in_the_same_second_are_found() {
    let mut watcher = ScreenshotWatcher::new(Some(4), None);

    assert_eq!(poll_all(&mut watcher, &[(7, 5)]), vec![7]);
    assert_eq!(poll_all(&mut watcher, &[(7, 5), (8, 5)]), vec![8]);
    assert_eq!(poll_all(&mut watcher, &[(7, 5), (8, 5), (9, 6)]), vec![9]);
    assert!(poll_all(&mut watcher, &[(7, 5), (8, 5), (9, 6)]).is_empty());
}

#[test]
fn captures_of_the_start_second_are_not_found() {
    let mut watcher = ScreenshotWatcher::new(Some(4), None);

    assert_eq!(poll_all(&mut watcher, &[(1, 3), (2, 4), (3, 5)]), vec![3]);
    assert!(poll_all(&mut watcher, &[(1, 3), (2, 4), (3, 5)]).is_empty());
}

#[test]
fn rejected_and_unreadable_entries_are_done_with() {
    let mut watcher = ScreenshotWatcher::new(Some(4), None);
    let mut poll = watcher.begin_poll();
    assert!(!visit(&mut poll, entry(1, 5, Some("a.mp4"), Some("video/mp4")), None));
    assert!(visit(&mut poll, entry(2, 5, Some("a.png"), Some("image/png")), None));
    assert!(watcher.poll(Some(poll)).is_empty());

    let mut poll = watcher.begin_poll();
    assert!(!visit(&mut poll, entry(2, 5, Some("a.png"), Some("image/png")), Some(b"a")));
    assert!(visit(&mut poll, entry(3, 5, Some("a.png"), Some("image/png")), Some(b"a")));
}

#[test]
fn deleted_and_renamed_rows_do_not_bring_captures_back() {
    let mut watcher = ScreenshotWatcher::new(Some(4), None);
    assert_eq!(poll_all(&mut watcher, &[(1, 5), (2, 5)]), vec![1, 2]);

    // The newest one is deleted while its second is still the watermark.
    assert!(poll_all(&mut watcher, &[(1, 5)]).is_empty());

    let mut poll = watcher.begin_poll();
    assert!(!visit(&mut poll, entry(1, 5, Some("new.jpg"), Some("image/jpeg")), Some(b"b")));
    assert!(watcher.poll(Some(poll)).is_empty());

    assert_eq!(poll_all(&mut watcher, &[(1, 5), (3, 5)]), vec![3]);
}
