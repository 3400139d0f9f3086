use clean_core::memory::{
    optimize, pid_list, status, MemReading, MemStatus, PidList, TrimFacts, TrimmedProcess,
};
use clean_core::types::Platform;

fn reading(total: u64, avail: u64, load: u32) -> MemReading {
    MemReading { total, avail, load }
}

#[test]
fn status_reports_real_totals() {
    let s = status(Platform::Windows, Some(reading(16_000, 4_000, 75)));
    assert!(s.total_bytes > 0, "total physical memory should be nonzero");
    assert!(s.avail_bytes <= s.total_bytes, "available cannot exceed total");
    assert!(s.percent_used <= 100);
    assert_eq!(s.used_bytes, 12_000);
    assert_eq!(s.percent_used, 75);
}

#[test]
fn odd_readings_stay_in_range() {
    let s = MemStatus::from_total_avail(10, 20, 400);
    assert_eq!(s.used_bytes, 0);
    assert_eq!(s.percent_used, 100);
}

fn facts(platform_reads: bool) -> TrimFacts {
    let read = |avail: u64| if platform_reads { Some(reading(100, avail, 50)) } else { None };
    TrimFacts {
        before: read(40),
        after: read(55),
        elevated: false,
        processes: vec![
            TrimmedProcess { pid: 0, trimmed: false },
            TrimmedProcess { pid: 8, trimmed: true },
            TrimmedProcess { pid: 12, trimmed: false },
        ],
        purged: true,
    }
}

#[test]
fn non_windows_status_zero_and_optimize_errors() {
    assert_eq!(status(Platform::Other, Some(reading(9, 9, 9))).total_bytes, 0);
    assert!(optimize(Platform::Other, &facts(true)).is_err());
}

#[test]
fn optimize_returns_consistent_before_after() {
    let out = optimize(Platform::Windows, &facts(true)).expect("a reading was given");
    assert_eq!(out.before.total_bytes, out.after.total_bytes);
    assert!(out.processes_total > 0);
    assert!(out.processes_trimmed <= out.processes_total);
    assert_eq!(out.freed_bytes, 15);
    assert_eq!(out.processes_trimmed, 1);
    assert!(!out.standby_purged, "purging the standby list takes elevation");
}

#[test]
fn optimize_without_a_reading_is_an_error() {
    assert!(optimize(Platform::Windows, &facts(false)).is_err());
}

#[test]
fn process_list_grows_until_it_fits() {
    assert_eq!(pid_list(1024, 400), PidList::Take { count: 100 });
    assert_eq!(pid_list(1024, 4096), PidList::Grow { capacity: 2048 });
}
