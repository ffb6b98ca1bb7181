//! The comparison result: one entry per identity with its status, and the
//! count of each status.
use vstd::prelude::*;

verus! {

/// The version of the sidecar and result formats this library reads and
/// writes.
pub const SCHEMA_VERSION: u32 = 1;

/// The outcome of comparing one identity.
#[derive(Debug, Clone, Copy, PartialEq, Eq, Structural, Hash, PartialOrd, Ord)]
pub enum Status {
    Changed,
    Added,
    Removed,
    Mismatch,
    Error,
    Unchanged,
}

/// How many entries have each status.
#[derive(Debug, Clone, Copy, PartialEq, Eq, Structural)]
pub struct Summary {
    pub unchanged: u32,
    pub changed: u32,
    pub added: u32,
    pub removed: u32,
    pub mismatch: u32,
    pub error: u32,
}

/// The count that `status` adds to.
pub open spec fn count_of(s: Summary, status: Status) -> u32 {
    match status {
        Status::Unchanged => s.unchanged,
        Status::Changed => s.changed,
        Status::Added => s.added,
        Status::Removed => s.removed,
        Status::Mismatch => s.mismatch,
        Status::Error => s.error,
    }
}

/// `s` with one more entry of `status`.
pub open spec fn counted(s: Summary, status: Status) -> Summary {
    match status {
        Status::Unchanged => Summary { unchanged: (s.unchanged + 1) as u32, ..s },
        Status::Changed => Summary { changed: (s.changed + 1) as u32, ..s },
        Status::Added => Summary { added: (s.added + 1) as u32, ..s },
        Status::Removed => Summary { removed: (s.removed + 1) as u32, ..s },
        Status::Mismatch => Summary { mismatch: (s.mismatch + 1) as u32, ..s },
        Status::Error => Summary { error: (s.error + 1) as u32, ..s },
    }
}

/// All counts zero.
pub open spec fn zero_summary() -> Summary {
    Summary { unchanged: 0, changed: 0, added: 0, removed: 0, mismatch: 0, error: 0 }
}

/// The number of entries in `statuses` that equal `status`.
pub open spec fn occurrences(statuses: Seq<Status>, status: Status) -> nat
    decreases statuses.len(),
{
    if statuses.len() == 0 {
        0
    } else {
        occurrences(statuses.drop_last(), status) + if statuses.last() == status {
            1nat
        } else {
            0nat
        }
    }
}

impl Summary {
    /// All counts zero.
    pub fn new() -> (r: Summary)
        ensures
            r == zero_summary(),
    {
        Summary { unchanged: 0, changed: 0, added: 0, removed: 0, mismatch: 0, error: 0 }
    }

    /// Counts one more entry of `status`; the other counts stay.
    pub fn count(&mut self, status: Status)
        requires
            count_of(*old(self), status) < u32::MAX,
        ensures
            *final(self) == counted(*old(self), status),
    {
        match status {
            Status::Unchanged => self.unchanged = self.unchanged + 1,
            Status::Changed => self.changed = self.changed + 1,
            Status::Added => self.added = self.added + 1,
            Status::Removed => self.removed = self.removed + 1,
            Status::Mismatch => self.mismatch = self.mismatch + 1,
            Status::Error => self.error = self.error + 1,
        }
    }

    /// The count of entries with `status`.
    pub fn get(&self, status: Status) -> (r: u32)
        ensures
            r == count_of(*self, status),
    {
        match status {
            Status::Unchanged => self.unchanged,
            Status::Changed => self.changed,
            Status::Added => self.added,
            Status::Removed => self.removed,
            Status::Mismatch => self.mismatch,
            Status::Error => self.error,
        }
    }
}

/// Law: counting a status raises that status's count by one and leaves the
/// others as they were.
pub proof fn law_count_touches_one_status(s: Summary, status: Status, other: Status)
    requires
        count_of(s, status) < u32::MAX,
    ensures
        count_of(counted(s, status), status) == count_of(s, status) + 1,
        other != status ==> count_of(counted(s, status), other) == count_of(s, other),
{
}

/// A ratio `num / den` held exactly; a zero denominator stands for zero.
#[derive(Debug, Clone, Copy, PartialEq, Eq, Structural)]
pub struct Ratio {
    pub num: u64,
    pub den: u64,
}

/// The region holding every differing pixel, in image pixels.
#[derive(Debug, Clone, Copy, PartialEq, Eq, Structural)]
pub struct DiffBounds {
    pub x: u32,
    pub y: u32,
    pub width: u32,
    pub height: u32,
}

/// The comparison result of one identity. Paths are relative to the layout
/// root.
#[derive(Debug, Clone)]
pub struct Entry {
    pub id: String,
    pub status: Status,
    pub diff_ratio: Option<Ratio>,
    pub diff_pixels: Option<u64>,
    pub diff_bounds: Option<DiffBounds>,
    pub baseline: Option<String>,
    pub current: Option<String>,
    pub diff: Option<String>,
    pub message: Option<String>,
    pub captured_at: Option<String>,
}

/// The mathematical form of an optional string.
pub open spec fn opt_view(o: Option<String>) -> Option<Seq<char>> {
    match o {
        Some(s) => Some(s@),
        None => None,
    }
}

/// The mathematical form of an [`Entry`].
pub struct EntryView {
    pub id: Seq<char>,
    pub status: Status,
    pub diff_ratio: Option<Ratio>,
    pub diff_pixels: Option<u64>,
    pub diff_bounds: Option<DiffBounds>,
    pub baseline: Option<Seq<char>>,
    pub current: Option<Seq<char>>,
    pub diff: Option<Seq<char>>,
    pub message: Option<Seq<char>>,
    pub captured_at: Option<Seq<char>>,
}

impl View for Entry {
    type V = EntryView;

    open spec fn view(&self) -> EntryView {
        EntryView {
            id: self.id@,
            status: self.status,
            diff_ratio: self.diff_ratio,
            diff_pixels: self.diff_pixels,
            diff_bounds: self.diff_bounds,
            baseline: opt_view(self.baseline),
            current: opt_view(self.current),
            diff: opt_view(self.diff),
            message: opt_view(self.message),
            captured_at: opt_view(self.captured_at),
        }
    }
}

/// The statuses of a list of entries, in order.
pub open spec fn statuses(entries: Seq<Entry>) -> Seq<Status> {
    entries.map_values(|e: Entry| e.status)
}

/// The whole result of one comparison run.
#[derive(Debug, Clone)]
pub struct ResultFile {
    pub schema_version: u32,
    pub mitame_version: Option<String>,
    pub profile: String,
    pub summary: Summary,
    pub results: Vec<Entry>,
}

} // verus!
