use preserve::digest::ContentHash;
use preserve::download::{
    download_file, fetch_with_retry, has_expected_length, is_valid, range_header, DownloadAction,
    DownloadEvent, FetchAction, FetchOutcome, FileDownload, Stage,
};
use preserve::errors::InstallError;
use preserve::models::{InstallPhase, ManifestFile};
use preserve::transfer::{download_percent, progress, Transfer};
use sha2::Digest;

fn file_of(content: &[u8]) -> ManifestFile {
    ManifestFile {
        path: "data/game.bin".to_string(),
        sha256: hex::encode(sha2::Sha256::digest(content)),
        size: content.len() as u64,
    }
}

fn hash_of(content: &[u8]) -> ContentHash {
    let mut hash = ContentHash::new();
    hash.update(content);
    hash
}

/// A disk with a partial file, and a server with the file.
struct World {
    partial: Vec<u8>,
    installed: bool,
    reports: Vec<u64>,
    offsets: Vec<u64>,
    waits: Vec<u64>,
}

/// Runs a download to its end. The server hands out the given pieces of its file, one for each
/// request, and honours ranges or does not.
fn run(
    expected: &ManifestFile,
    served: &[u8],
    partial: &[u8],
    piece: usize,
    ranges: bool,
) -> (World, Result<(), InstallError>) {
    let mut world = World {
        partial: partial.to_vec(),
        installed: false,
        reports: Vec::new(),
        offsets: Vec::new(),
        waits: Vec::new(),
    };
    let mut download = FileDownload::new(expected.clone());
    let mut offset: u64 = 0;
    let (_, mut action) = download_file(&mut download, DownloadEvent::Begin { cancelled: false });
    loop {
        let (report, next) = match action {
            DownloadAction::CheckExisting => {
                download_file(&mut download, DownloadEvent::Checked(None))
            }
            DownloadAction::MeasurePartial => {
                let length = world.partial.len() as u64;
                download_file(&mut download, DownloadEvent::Measured(length))
            }
            DownloadAction::HashPartial => {
                let mut hash = ContentHash::new();
                hash.update(&world.partial);
                download_file(&mut download, DownloadEvent::Hashed(hash))
            }
            DownloadAction::Fetch { offset: from, discard } => {
                if discard {
                    world.partial.clear();
                }
                world.offsets.push(from);
                offset = if ranges { from } else { 0 };
                let status = if ranges && from > 0 { 206 } else { 200 };
                download_file(&mut download, DownloadEvent::Answered { status, cancelled: false })
            }
            DownloadAction::FetchAfter { millis, offset: from } => {
                world.waits.push(millis);
                world.offsets.push(from);
                offset = if ranges { from } else { 0 };
                let status = if ranges && from > 0 { 206 } else { 200 };
                download_file(&mut download, DownloadEvent::Answered { status, cancelled: false })
            }
            DownloadAction::Receive { append } => {
                if !append {
                    world.partial.clear();
                }
                let start = offset as usize;
                let end = served.len().min(start + piece);
                let bytes = &served[start..end];
                let (report, action) =
                    download_file(&mut download, DownloadEvent::Chunk { bytes, cancelled: false });
                world.reports.extend(report);
                assert!(matches!(action, DownloadAction::Write));
                world.partial.extend_from_slice(bytes);
                download_file(&mut download, DownloadEvent::Ended { broken: false })
            }
            DownloadAction::Install => {
                world.installed = true;
                assert!(download.stage() == Stage::Placing);
                download_file(&mut download, DownloadEvent::Placed(Ok(())))
            }
            DownloadAction::Done => return (world, Ok(())),
            DownloadAction::Fail(error) => return (world, Err(error)),
            DownloadAction::Write => panic!("nothing came to be written"),
        };
        world.reports.extend(report);
        action = next;
    }
}

#[test]
fn whole_file_in_one_reply() {
    let content = b"all of the game";
    let (world, result) = run(&file_of(content), content, b"", 100, true);
    assert!(result.is_ok());
    assert!(world.installed);
    assert_eq!(world.partial, content);
    assert_eq!(world.offsets, [0]);
    assert_eq!(world.reports, [0, content.len() as u64]);
}

#[test]
fn partial_file_is_resumed() {
    let content = b"all of the game";
    let (world, result) = run(&file_of(content), content, &content[..6], 100, true);
    assert!(result.is_ok());
    assert_eq!(world.partial, content);
    assert_eq!(world.offsets, [6]);
    assert_eq!(world.reports, [6, content.len() as u64]);
}

#[test]
fn ignored_range_starts_over() {
    let content = b"all of the game";
    let (world, result) = run(&file_of(content), content, &content[..6], 100, false);
    assert!(result.is_ok());
    assert_eq!(world.partial, content);
    assert_eq!(world.offsets, [6, 0]);
}

#[test]
fn oversized_partial_file_is_discarded() {
    let content = b"short";
    let (world, result) = run(&file_of(content), content, b"much too long", 100, true);
    assert!(result.is_ok());
    assert_eq!(world.partial, content);
    assert_eq!(world.offsets, [0]);
}

#[test]
fn interrupted_download_goes_on() {
    let content = b"123456";
    let (world, result) = run(&file_of(content), content, b"", 1, true);
    assert!(result.is_ok());
    assert_eq!(world.partial, content);
    assert_eq!(world.offsets, [0, 1, 2, 3, 4, 5]);
    assert_eq!(world.waits, [500, 1000, 1500, 2000, 2500]);
}

#[test]
fn download_gives_up_after_six_reconnects() {
    let content = b"12345678";
    let (world, result) = run(&file_of(content), content, b"", 1, true);
    assert_eq!(result.unwrap_err().message(), "Download ended early for data/game.bin");
    assert_eq!(world.waits, [500, 1000, 1500, 2000, 2500, 3000]);
    assert_eq!(world.partial, b"1234567");
    assert!(!world.installed);
}

#[test]
fn reconnect_without_range_fails() {
    let content = b"123456";
    let (_, result) = run(&file_of(content), content, b"", 1, false);
    assert_eq!(
        result.unwrap_err().message(),
        "Download server does not support resuming data/game.bin"
    );
}

#[test]
fn wrong_bytes_are_not_installed() {
    let (world, result) = run(&file_of(b"the game"), b"the gain", b"", 100, true);
    assert_eq!(result.unwrap_err().message(), "Integrity check failed for data/game.bin");
    assert!(!world.installed);
}

#[test]
fn wrong_partial_file_is_not_installed() {
    let (world, result) = run(&file_of(b"the game"), b"the game", b"THE", 100, true);
    assert!(matches!(result, Err(InstallError::Corrupt(_))));
    assert!(!world.installed);
}

#[test]
fn too_many_bytes_are_refused() {
    let (_, result) = run(&file_of(b"game"), b"games", b"", 100, true);
    assert_eq!(
        result.unwrap_err().message(),
        "Download exceeded the expected size for data/game.bin"
    );
}

fn receiving(content: &[u8]) -> FileDownload {
    let mut download = FileDownload::new(file_of(content));
    for event in [
        DownloadEvent::Begin { cancelled: false },
        DownloadEvent::Checked(None),
        DownloadEvent::Measured(0),
        DownloadEvent::Answered { status: 200, cancelled: false },
    ] {
        let _ = download_file(&mut download, event);
    }
    download
}

#[test]
fn repeated_disconnects_are_named_so() {
    let mut download = receiving(b"game");
    for _ in 0..6 {
        let (_, action) = download_file(&mut download, DownloadEvent::Ended { broken: true });
        assert!(matches!(action, DownloadAction::FetchAfter { offset: 0, .. }));
        let event = DownloadEvent::Answered { status: 200, cancelled: false };
        let _ = download_file(&mut download, event);
    }
    match download_file(&mut download, DownloadEvent::Ended { broken: true }).1 {
        DownloadAction::Fail(error) => {
            assert_eq!(error.message(), "Download repeatedly disconnected for data/game.bin")
        }
        _ => panic!("the download went on"),
    }
    assert!(download.stage() == Stage::Finished);
}

fn is_cancelled(action: DownloadAction) -> bool {
    matches!(action, DownloadAction::Fail(InstallError::Cancelled))
}

#[test]
fn cancelled_download_stops_where_it_is() {
    let mut download = FileDownload::new(file_of(b"game"));
    assert!(is_cancelled(
        download_file(&mut download, DownloadEvent::Begin { cancelled: true }).1
    ));
    let mut download = receiving(b"game");
    let (report, action) =
        download_file(&mut download, DownloadEvent::Chunk { bytes: b"ga", cancelled: false });
    assert_eq!(report, Some(2));
    assert!(matches!(action, DownloadAction::Write));
    let (report, action) =
        download_file(&mut download, DownloadEvent::Chunk { bytes: b"me", cancelled: true });
    assert_eq!(report, None);
    assert!(is_cancelled(action));
    assert_eq!(download.received(), 2);
}

#[test]
fn valid_file_is_kept() {
    let mut download = FileDownload::new(file_of(b"game"));
    let _ = download_file(&mut download, DownloadEvent::Begin { cancelled: false });
    let (report, action) =
        download_file(&mut download, DownloadEvent::Checked(Some(hash_of(b"game"))));
    assert_eq!(report, Some(4));
    assert!(matches!(action, DownloadAction::Done));
}

#[test]
fn wrong_file_is_not_kept() {
    for content in [&b"gain"[..], b"games", b""] {
        let mut download = FileDownload::new(file_of(b"game"));
        let _ = download_file(&mut download, DownloadEvent::Begin { cancelled: false });
        let event = DownloadEvent::Checked(Some(hash_of(content)));
        let (report, action) = download_file(&mut download, event);
        assert_eq!(report, None);
        assert!(matches!(action, DownloadAction::MeasurePartial));
    }
}

#[test]
fn whole_partial_file_takes_its_place() {
    let file = ManifestFile {
        path: "a.bin".to_string(),
        sha256: "ba7816bf8f01cfea414140de5dae2223b00361a396177a9cb410ff61f20015ad".to_string(),
        size: 3,
    };
    let (world, result) = run(&file, b"abc", b"abc", 100, true);
    assert!(result.is_ok());
    assert!(world.installed);
    assert_eq!(world.partial, b"abc");
    assert!(world.offsets.is_empty());
    assert_eq!(world.reports, [3]);
}

#[test]
fn wrong_partial_file_of_the_right_length() {
    let content = b"123456";
    let (world, result) = run(&file_of(content), content, b"xxxxxx", 100, true);
    assert!(matches!(result, Err(InstallError::Corrupt(_))));
    assert_eq!(world.offsets, [6]);
    assert!(!world.installed);
    let (world, result) = run(&file_of(content), content, b"xxxxxx", 100, false);
    assert!(result.is_ok());
    assert_eq!(world.offsets, [6, 0]);
    assert_eq!(world.partial, content);
    let mut download = FileDownload::new(file_of(content));
    for event in [
        DownloadEvent::Begin { cancelled: false },
        DownloadEvent::Checked(None),
        DownloadEvent::Measured(6),
        DownloadEvent::Hashed(hash_of(b"xxxxxx")),
    ] {
        let _ = download_file(&mut download, event);
    }
    let words = "416 Range Not Satisfiable".to_string();
    let error = match fetch_with_retry(2, FetchOutcome::Answered(416, words)) {
        FetchAction::GiveUp { error, .. } => error,
        _ => panic!("another attempt"),
    };
    match download_file(&mut download, DownloadEvent::Broken(error)).1 {
        DownloadAction::Fail(error) => {
            assert_eq!(error.message(), "Download returned 416 Range Not Satisfiable")
        }
        _ => panic!("the download went on"),
    }
}

/// By how much the reported counts grow.
fn counted(reports: &[u64]) -> u64 {
    let mut latest = 0;
    let mut counted = 0;
    for bytes in reports {
        counted += bytes.saturating_sub(latest);
        latest = *bytes;
    }
    counted
}

#[test]
fn counts_add_up_to_the_size() {
    let content = b"123456";
    for partial in [&b""[..], b"12", b"123456", b"1234567"] {
        for ranges in [true, false] {
            let (world, result) = run(&file_of(content), content, partial, 100, ranges);
            assert!(result.is_ok());
            assert_eq!(counted(&world.reports), 6);
        }
    }
}

#[test]
fn file_that_cannot_be_placed_is_not_there() {
    let mut download = receiving(b"game");
    let event = DownloadEvent::Chunk { bytes: b"game", cancelled: false };
    let _ = download_file(&mut download, event);
    let (_, action) = download_file(&mut download, DownloadEvent::Ended { broken: false });
    assert!(matches!(action, DownloadAction::Install));
    let error = InstallError::Other("access denied".to_string());
    match download_file(&mut download, DownloadEvent::Placed(Err(error))).1 {
        DownloadAction::Fail(error) => assert_eq!(error.message(), "access denied"),
        _ => panic!("the download went on"),
    }
}

#[test]
fn broken_disk_ends_the_download() {
    let mut download = receiving(b"game");
    let error = InstallError::Other("disk full".to_string());
    match download_file(&mut download, DownloadEvent::Broken(error)).1 {
        DownloadAction::Fail(error) => assert_eq!(error.message(), "disk full"),
        _ => panic!("the download went on"),
    }
}

#[test]
fn requests_are_retried_twice() {
    let busy = || FetchOutcome::Answered(503, "503 Service Unavailable".to_string());
    assert!(matches!(fetch_with_retry(0, busy()), FetchAction::Retry { millis: 700 }));
    assert!(matches!(fetch_with_retry(1, busy()), FetchAction::Retry { millis: 1400 }));
    match fetch_with_retry(2, busy()) {
        FetchAction::GiveUp { millis, error } => {
            assert_eq!(millis, 2100);
            assert_eq!(error.message(), "Download returned 503 Service Unavailable");
        }
        _ => panic!("another attempt"),
    }
    match fetch_with_retry(2, FetchOutcome::Failed("timed out".to_string())) {
        FetchAction::GiveUp { error, .. } => assert_eq!(error.message(), "timed out"),
        _ => panic!("another attempt"),
    }
    let good = FetchOutcome::Answered(206, "206 Partial Content".to_string());
    assert!(matches!(fetch_with_retry(2, good), FetchAction::Accept));
}

#[test]
fn ranges_start_at_the_offset() {
    assert_eq!(range_header(0), None);
    assert_eq!(range_header(10).unwrap(), "bytes=10-");
    assert_eq!(range_header(u64::MAX).unwrap(), "bytes=18446744073709551615-");
}

#[test]
fn existing_files_are_checked_by_length_and_digest() {
    let file = file_of(b"game");
    assert!(has_expected_length(Some(4), &file));
    assert!(!has_expected_length(Some(5), &file));
    assert!(!has_expected_length(None, &file));
    assert!(is_valid(Some(hash_of(b"game")), &file));
    assert!(!is_valid(Some(hash_of(b"gain")), &file));
    assert!(!is_valid(None, &file));
    let mismatched = ManifestFile { size: 5, ..file };
    assert!(!is_valid(Some(hash_of(b"game")), &mismatched));
}

#[test]
fn percentages_agree_with_machine_floating_point() {
    let by_floating_point = |done: u64, total: u64| {
        (((done as f64 / total.max(1) as f64) * 94.0).round() as u8).min(94)
    };
    for total in [0u64, 1, 2, 3, 7, 94, 188, 1_000, 65_537, 54_300_000_000, u64::MAX] {
        for step in 0..=200u64 {
            let done = ((total as u128) * (step as u128) / 200) as u64;
            assert_eq!(download_percent(done, total), by_floating_point(done, total));
        }
    }
    let mut state: u64 = 0x1234_5678_9abc_def1;
    for _ in 0..5_000 {
        state = state.wrapping_mul(6364136223846793005).wrapping_add(1442695040888963407);
        let total = state >> (state & 31);
        let done = total / 3 * 2;
        assert_eq!(download_percent(done, total), by_floating_point(done, total));
    }
}

#[test]
fn complete_download_fills_its_share() {
    for total in [1u64, 10, 54_300_000_000, u64::MAX] {
        assert_eq!(download_percent(total, total), 94);
        assert_eq!(download_percent(0, total), 0);
    }
    assert_eq!(download_percent(0, 0), 0);
}

#[test]
fn speed_agrees_with_machine_floating_point() {
    let mut state: u64 = 0x0dd_ba11;
    for _ in 0..3_000 {
        state = state.wrapping_mul(6364136223846793005).wrapping_add(1442695040888963407);
        let nanos = (state >> 20) % 5_000_000_001;
        let amount = state >> (state & 63);
        let mut transfer = Transfer::new(u64::MAX);
        let _ = transfer.tick(7);
        transfer.advance(0, amount);
        let report = transfer.tick(7 + nanos);
        let seconds = std::time::Duration::from_nanos(nanos).as_secs_f64();
        let expected = if seconds > 0.25 { (amount as f64 / seconds) as u64 } else { 0 };
        assert_eq!(report.bytes_per_second, expected);
    }
}

#[test]
fn speed_counts_from_the_last_five_seconds() {
    const SECOND: u64 = 1_000_000_000;
    let mut transfer = Transfer::new(10_000);
    assert_eq!(transfer.tick(0).bytes_per_second, 0);
    transfer.advance(0, 1_000);
    assert_eq!(transfer.tick(SECOND / 4).bytes_per_second, 0);
    assert_eq!(transfer.tick(SECOND).bytes_per_second, 1_000);
    transfer.advance(1_000, 3_000);
    assert_eq!(transfer.tick(5 * SECOND).bytes_per_second, 600);
    assert_eq!(transfer.tick(6 * SECOND).bytes_per_second, 400);
    assert_eq!(transfer.tick(100 * SECOND).bytes_per_second, 0);
}

#[test]
fn account_of_a_download() {
    let mut transfer = Transfer::new(400);
    transfer.begin_file("a.bin");
    transfer.advance(0, 100);
    transfer.advance(100, 60);
    let report = transfer.tick(0);
    assert_eq!(report.phase, InstallPhase::Downloading);
    assert_eq!(report.detail, "Downloading a.bin");
    assert_eq!(report.bytes_done, 100);
    assert_eq!(report.bytes_total, 400);
    assert_eq!(report.percent, 24);
    assert_eq!(report.active_downloads, 1);
    transfer.begin_file("b.bin");
    transfer.advance(0, 900);
    let report = transfer.tick(1);
    assert_eq!(report.detail, "Downloading 2 files · b.bin");
    assert_eq!(report.bytes_done, 400);
    assert_eq!(report.percent, 94);
    transfer.end_file();
    assert_eq!(transfer.active(), 1);
    assert_eq!(transfer.done(), 400);
}

#[test]
fn reports_hold_what_they_are_given() {
    let report = progress(InstallPhase::Verifying, 95, "All files verified", 1, 2, 3, 4);
    assert_eq!(report.phase, InstallPhase::Verifying);
    assert_eq!(report.percent, 95);
    assert_eq!(report.detail, "All files verified");
    assert_eq!(report.bytes_done, 1);
    assert_eq!(report.bytes_total, 2);
    assert_eq!(report.bytes_per_second, 3);
    assert_eq!(report.active_downloads, 4);
}

#[test]
fn percentage_never_falls() {
    for total in [1u64, 3, 1_000, 999_999_999_999, u64::MAX] {
        let mut last = 0;
        for step in 0..=1_000u64 {
            let done = ((total as u128) * (step as u128) / 1_000) as u64;
            let percent = download_percent(done, total);
            assert!(percent >= last);
            last = percent;
        }
        assert_eq!(last, 94);
    }
}
