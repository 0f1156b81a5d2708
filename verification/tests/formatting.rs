use preserve::format::{format_bytes, format_eta, format_speed, phase_name};
use preserve::models::{InstallPhase, InstallProgress};

#[test]
fn formats_binary_scale_without_skipping_kilobytes() {
    assert_eq!(format_bytes(54_300_000_000), "54.3 GB");
    assert_eq!(format_speed(870_400), "870.4 KB/s");
}

/// The same amount by way of machine floating point.
fn by_floating_point(bytes: u64) -> String {
    const UNITS: [&str; 5] = ["B", "KB", "MB", "GB", "TB"];
    let mut value = bytes as f64;
    let mut unit: usize = 0;
    while value >= 1000.0 && unit < UNITS.len() - 1 {
        value /= 1000.0;
        unit += 1;
    }
    if unit == 0 {
        format!("{:.0} {}", value, UNITS[unit])
    } else {
        format!("{:.1} {}", value, UNITS[unit])
    }
}

#[test]
fn amounts_agree_with_machine_floating_point() {
    for bytes in 0..20_000u64 {
        assert_eq!(format_bytes(bytes), by_floating_point(bytes));
    }
    for scale in [100u64, 1_000, 100_000, 1_000_000, 100_000_000, 100_000_000_000] {
        for step in 0..3_000u64 {
            let bytes = scale * step + scale / 2;
            assert_eq!(format_bytes(bytes), by_floating_point(bytes));
            assert_eq!(format_bytes(bytes + 1), by_floating_point(bytes + 1));
        }
    }
    let mut state: u64 = 0x9e37_79b9_7f4a_7c15;
    for _ in 0..20_000 {
        state = state.wrapping_mul(6364136223846793005).wrapping_add(1442695040888963407);
        let bytes = state >> (state & 63);
        assert_eq!(format_bytes(bytes), by_floating_point(bytes));
    }
    assert_eq!(format_bytes(u64::MAX), by_floating_point(u64::MAX));
}

#[test]
fn amounts_at_the_edges() {
    assert_eq!(format_bytes(0), "0 B");
    assert_eq!(format_bytes(1), "1 B");
    assert_eq!(format_bytes(999), "999 B");
    assert_eq!(format_bytes(1_000), "1.0 KB");
    assert_eq!(format_bytes(1_150), "1.1 KB");
    assert_eq!(format_bytes(1_250), "1.2 KB");
    assert_eq!(format_bytes(999_999), "1000.0 KB");
    assert_eq!(format_bytes(u64::MAX), "18446744.1 TB");
    assert_eq!(format_speed(0), "—");
    assert_eq!(format_speed(999), "999 B/s");
}

fn running(done: u64, total: u64, speed: u64) -> InstallProgress {
    InstallProgress {
        phase: InstallPhase::Downloading,
        percent: 10,
        detail: String::new(),
        bytes_done: done,
        bytes_total: total,
        bytes_per_second: speed,
        active_downloads: 1,
    }
}

#[test]
fn remaining_time_in_minutes_and_hours() {
    assert_eq!(format_eta(&running(0, 100, 0)), "—");
    assert_eq!(format_eta(&running(100, 100, 5)), "—");
    assert_eq!(format_eta(&running(101, 100, 5)), "—");
    assert_eq!(format_eta(&running(0, 59, 1)), "< 1 min");
    assert_eq!(format_eta(&running(0, 60, 1)), "1 min");
    assert_eq!(format_eta(&running(0, 3_599, 1)), "59 min");
    assert_eq!(format_eta(&running(0, 3_600, 1)), "1h 0m");
    assert_eq!(format_eta(&running(100, 7_380, 1)), "2h 1m");
}

#[test]
fn phases_have_their_headings() {
    assert_eq!(phase_name(&InstallPhase::Idle), "READY");
    assert_eq!(phase_name(&InstallPhase::Preparing), "PREPARING");
    assert_eq!(phase_name(&InstallPhase::Downloading), "DOWNLOADING");
    assert_eq!(phase_name(&InstallPhase::Verifying), "VERIFIED");
    assert_eq!(phase_name(&InstallPhase::Prerequisites), "PREREQUISITES");
    assert_eq!(phase_name(&InstallPhase::Complete), "COMPLETE");
    assert_eq!(phase_name(&InstallPhase::Cancelled), "PAUSED");
    assert_eq!(phase_name(&InstallPhase::Failed), "NEEDS ATTENTION");
}

#[test]
fn progress_starts_idle() {
    let progress = InstallProgress::default();
    assert_eq!(progress.phase, InstallPhase::Idle);
    assert_eq!(progress.percent, 0);
    assert_eq!(progress.detail, "");
    assert_eq!(progress.bytes_done, 0);
    assert_eq!(progress.bytes_total, 0);
    assert_eq!(progress.bytes_per_second, 0);
    assert_eq!(progress.active_downloads, 0);
}

#[test]
fn no_unit_is_skipped() {
    assert_eq!(format_bytes(1_000), "1.0 KB");
    assert_eq!(format_bytes(1_000_000), "1.0 MB");
    assert_eq!(format_bytes(1_000_000_000), "1.0 GB");
    assert_eq!(format_bytes(1_000_000_000_000), "1.0 TB");
    assert_eq!(format_bytes(1_000_000_000_000_000), "1000.0 TB");
}

#[test]
fn thousandfold_is_in_the_next_unit() {
    let units = ["B", "KB", "MB", "GB", "TB"];
    for bytes in [1_000u64, 1_499, 999_950, 54_321_000, 7_000_000_000] {
        let text = format_bytes(bytes);
        let (number, unit) = text.split_once(' ').unwrap();
        let next = units.iter().position(|each| *each == unit).unwrap() + 1;
        assert_eq!(format_bytes(1_000 * bytes), format!("{number} {}", units[next]));
    }
}
