//! Memory optimizer: honestly free up RAM by trimming process working sets and
//! (when elevated) purging the standby list, reporting the REAL before / after
//! available physical memory.
//!
//! Trimming a working set pushes a process's rarely-used pages out of physical
//! RAM; the reclaimed memory is real, but the effect is temporary: Windows
//! pages back in whatever a program touches next.
//!
//! Windows-only. On other platforms the status is all zeros and optimizing is
//! an error. The caller asks the system; what is made of the answers stands
//! here.
use crate::codec::i64_from_bits;
use crate::error::CoreError;
use crate::types::{wrapped_i64, Platform};
use vstd::prelude::*;

verus! {

/// A snapshot of physical-memory usage.
#[derive(Debug, Clone, Copy, PartialEq, Eq, Structural)]
pub struct MemStatus {
    pub total_bytes: u64,
    pub avail_bytes: u64,
    pub used_bytes: u64,
    /// System memory load, 0-100 (Windows `dwMemoryLoad`).
    pub percent_used: u8,
}

impl MemStatus {
    pub open spec fn of(total: u64, avail: u64, load: u32) -> MemStatus {
        MemStatus {
            total_bytes: total,
            avail_bytes: avail,
            used_bytes: if avail <= total {
                (total - avail) as u64
            } else {
                0
            },
            percent_used: if load <= 100 {
                load as u8
            } else {
                100
            },
        }
    }

    pub open spec fn zero() -> MemStatus {
        MemStatus { total_bytes: 0, avail_bytes: 0, used_bytes: 0, percent_used: 0 }
    }

    pub fn from_total_avail(total: u64, avail: u64, load: u32) -> (r: MemStatus)
        ensures
            r == Self::of(total, avail, load),
            r.used_bytes <= r.total_bytes,
            r.percent_used <= 100,
    {
        MemStatus {
            total_bytes: total,
            avail_bytes: avail,
            used_bytes: total.saturating_sub(avail),
            percent_used: if load < 100 {
                load as u8
            } else {
                100
            },
        }
    }
}

/// What the system tells of its physical memory.
#[derive(Debug, Clone, Copy)]
pub struct MemReading {
    pub total: u64,
    pub avail: u64,
    pub load: u32,
}

/// The usage that a reading shows.
pub open spec fn usage(platform: Platform, reading: Option<MemReading>) -> Option<MemStatus> {
    match (platform, reading) {
        (Platform::Windows, Some(m)) => Some(MemStatus::of(m.total, m.avail, m.load)),
        _ => None,
    }
}

fn read_status(platform: Platform, reading: Option<MemReading>) -> (r: Option<MemStatus>)
    ensures
        r == usage(platform, reading),
{
    match (platform, reading) {
        (Platform::Windows, Some(m)) => Some(
            MemStatus::from_total_avail(m.total, m.avail, m.load),
        ),
        _ => None,
    }
}

/// Current physical-memory usage. Best-effort; zeros if it cannot be read (and
/// on non-Windows).
pub fn status(platform: Platform, reading: Option<MemReading>) -> (r: MemStatus)
    ensures
        r == match usage(platform, reading) {
            Some(s) => s,
            None => MemStatus::zero(),
        },
{
    match read_status(platform, reading) {
        Some(s) => s,
        None => MemStatus { total_bytes: 0, avail_bytes: 0, used_bytes: 0, percent_used: 0 },
    }
}

/// The result of one run: what was measured before and after, and what the
/// trim actually did.
#[derive(Debug)]
pub struct TrimOutcome {
    pub before: MemStatus,
    pub after: MemStatus,
    /// `avail_after - avail_before`. May be small, zero, or (rarely) negative -
    /// reported verbatim so the user sees the honest effect, not a fabricated
    /// "freed N MB" headline.
    pub freed_bytes: i64,
    /// Processes the optimizer could see.
    pub processes_total: u32,
    /// Processes whose working set was actually trimmed (the rest could not be
    /// opened - typically system/protected processes needing higher rights).
    pub processes_trimmed: u32,
    /// Whether the standby-list purge ran (requires elevation).
    pub standby_purged: bool,
    /// Whether this process is elevated (drives what was attempted).
    pub elevated: bool,
}

/// One process, and whether its working set was trimmed.
#[derive(Debug, Clone, Copy)]
pub struct TrimmedProcess {
    pub pid: u32,
    pub trimmed: bool,
}

/// The System Idle Process is not counted.
pub open spec fn counted() -> spec_fn(TrimmedProcess) -> bool {
    |p: TrimmedProcess| p.pid != 0
}

pub open spec fn counted_trimmed() -> spec_fn(TrimmedProcess) -> bool {
    |p: TrimmedProcess| p.pid != 0 && p.trimmed
}

/// How many processes were seen, and how many were trimmed.
pub fn trim_counts(v: &Vec<TrimmedProcess>) -> (r: (u32, u32))
    requires
        v@.len() <= u32::MAX,
    ensures
        r.0 == v@.filter(counted()).len(),
        r.1 == v@.filter(counted_trimmed()).len(),
        r.1 <= r.0,
{
    let mut total: u32 = 0;
    let mut trimmed: u32 = 0;
    let mut i: usize = 0;
    let n: usize = v.len();
    proof {
        crate::lists::lemma_filter_ends(v@, counted());
        crate::lists::lemma_filter_ends(v@, counted_trimmed());
    }
    while i < n
        invariant
            i <= n == v@.len() <= u32::MAX,
            total == v@.take(i as int).filter(counted()).len(),
            trimmed == v@.take(i as int).filter(counted_trimmed()).len(),
            trimmed <= total <= i,
        decreases n - i,
    {
        proof {
            crate::lists::lemma_filter_take(v@, counted(), i as int);
            crate::lists::lemma_filter_take(v@, counted_trimmed(), i as int);
        }
        if v[i].pid != 0 {
            total += 1;
            if v[i].trimmed {
                trimmed += 1;
            }
        }
        i += 1;
    }
    (total, trimmed)
}

/// What to do with a list of process ids that the system filled.
#[derive(Debug, Clone, Copy, PartialEq, Eq, Structural)]
pub enum PidList {
    /// So many of its entries are process ids.
    Take { count: usize },
    /// It was full, so there may be more: ask again with room for so many.
    Grow { capacity: usize },
}

/// A list that was filled to the last entry is asked for again with twice the
/// room, up to a million entries.
pub fn pid_list(capacity: usize, needed_bytes: u32) -> (r: PidList)
    requires
        0 < capacity <= 0x10_0000,
    ensures
        r == if needed_bytes / 4 < capacity {
            PidList::Take { count: (needed_bytes / 4) as usize }
        } else if capacity * 2 <= 0x10_0000 {
            PidList::Grow { capacity: (capacity * 2) as usize }
        } else {
            PidList::Take { count: capacity }
        },
        r matches PidList::Take { count } ==> count <= capacity,
{
    let returned: usize = (needed_bytes / 4) as usize;
    if returned < capacity {
        PidList::Take { count: returned }
    } else if capacity * 2 <= 0x10_0000 {
        PidList::Grow { capacity: capacity * 2 }
    } else {
        PidList::Take { count: capacity }
    }
}

/// What one run did: the memory before and after, the processes, and whether
/// the standby list was purged.
#[derive(Debug)]
pub struct TrimFacts {
    pub before: Option<MemReading>,
    pub after: Option<MemReading>,
    pub elevated: bool,
    pub processes: Vec<TrimmedProcess>,
    /// Whether a purge succeeded. It is tried only when elevated.
    pub purged: bool,
}

/// The memory after a run; where it could not be read, that before.
pub open spec fn usage_after(platform: Platform, facts: TrimFacts) -> MemStatus {
    match usage(platform, facts.after) {
        Some(s) => s,
        None => usage(platform, facts.before)->0,
    }
}

/// Report on trimmed working sets (and the standby list, purged when
/// elevated): an honest before/after comparison. Errors only when the platform
/// is unsupported or the memory status itself cannot be read.
pub fn optimize(platform: Platform, facts: &TrimFacts) -> (r: Result<TrimOutcome, CoreError>)
    requires
        facts.processes@.len() <= u32::MAX,
        usage(platform, facts.before) matches Some(before) ==> i64::MIN <= wrapped_i64(
            usage_after(platform, *facts).avail_bytes,
        ) - wrapped_i64(before.avail_bytes) <= i64::MAX,
    ensures
        match r {
            Ok(o) => {
                &&& usage(platform, facts.before) == Some(o.before)
                &&& o.after == usage_after(platform, *facts)
                &&& o.freed_bytes == wrapped_i64(o.after.avail_bytes) - wrapped_i64(
                    o.before.avail_bytes,
                )
                &&& o.processes_total == facts.processes@.filter(counted()).len()
                &&& o.processes_trimmed == facts.processes@.filter(counted_trimmed()).len()
                &&& o.processes_trimmed <= o.processes_total
                &&& o.standby_purged == (facts.elevated && facts.purged)
                &&& o.elevated == facts.elevated
            },
            Err(e) => {
                &&& usage(platform, facts.before) is None
                &&& e matches CoreError::Session(why) && why@ == if platform is Windows {
                    "could not read memory status"@
                } else {
                    "memory optimization is only available on Windows"@
                }
            },
        },
{
    match platform {
        Platform::Windows => {},
        _ => {
            return Err(CoreError::session("memory optimization is only available on Windows"));
        },
    }
    let before: MemStatus = match read_status(platform, facts.before) {
        Some(s) => s,
        None => {
            return Err(CoreError::session("could not read memory status"));
        },
    };
    let after: MemStatus = match read_status(platform, facts.after) {
        Some(s) => s,
        None => before,
    };
    let (total, trimmed) = trim_counts(&facts.processes);
    let freed: i64 = i64_from_bits(after.avail_bytes) - i64_from_bits(before.avail_bytes);
    Ok(
        TrimOutcome {
            before,
            after,
            freed_bytes: freed,
            processes_total: total,
            processes_trimmed: trimmed,
            standby_purged: facts.elevated && facts.purged,
            elevated: facts.elevated,
        },
    )
}

/// Used and available memory make up the total, where no more is available than
/// there is; the load is shown as it was read, up to all of it.
pub proof fn law_memory_adds_up(total: u64, avail: u64, load: u32)
    ensures
        MemStatus::of(total, avail, load).total_bytes == total,
        MemStatus::of(total, avail, load).avail_bytes == avail,
        avail <= total ==> MemStatus::of(total, avail, load).used_bytes + avail == total,
        avail > total ==> MemStatus::of(total, avail, load).used_bytes == 0,
        load <= 100 ==> MemStatus::of(total, avail, load).percent_used == load,
        load > 100 ==> MemStatus::of(total, avail, load).percent_used == 100,
{
}

/// Memory is read on Windows only, and shown as it was read.
pub proof fn law_memory_is_read_on_windows(platform: Platform, reading: Option<MemReading>)
    ensures
        usage(platform, reading) is Some <==> platform is Windows && reading is Some,
        usage(platform, reading) matches Some(s) ==> s.total_bytes == reading->0.total
            && s.avail_bytes == reading->0.avail,
{
}

/// Every process but the idle one is counted, and as trimmed where it was.
pub proof fn law_processes_are_counted(p: TrimmedProcess)
    ensures
        counted()(p) <==> p.pid != 0,
        counted_trimmed()(p) <==> p.pid != 0 && p.trimmed,
{
}

} // verus!
