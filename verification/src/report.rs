use vstd::prelude::*;
use crate::ids::ItemId;

verus! {

/// Controls whether directory deletion is forced: a forced deletion removes a
/// directory with all its contents, an unforced one only an empty directory.
#[derive(Debug, Clone, Copy, PartialEq, Eq, Structural, Default)]
pub enum ForceDeletion {
    #[default]
    Force,
    NoForce,
}

impl ForceDeletion {
    /// The boolean form: `true` means forced.
    pub fn as_bool(&self) -> (r: bool)
        ensures
            r == (*self is Force),
    {
        match self {
            ForceDeletion::Force => true,
            ForceDeletion::NoForce => false,
        }
    }

    /// Builds the policy from its boolean form.
    pub fn from_bool(value: bool) -> (r: Self)
        ensures
            (r is Force) == value,
    {
        if value {
            ForceDeletion::Force
        } else {
            ForceDeletion::NoForce
        }
    }
}

/// Controls whether list results are sorted.
#[derive(Debug, Clone, Copy, PartialEq, Eq, Structural, Default)]
pub enum ShouldSort {
    #[default]
    Sort,
    NoSort,
}

impl ShouldSort {
    /// The boolean form: `true` means sorted.
    pub fn as_bool(&self) -> (r: bool)
        ensures
            r == (*self is Sort),
    {
        match self {
            ShouldSort::Sort => true,
            ShouldSort::NoSort => false,
        }
    }

    /// Builds the flag from its boolean form.
    pub fn from_bool(value: bool) -> (r: Self)
        ensures
            (r is Sort) == value,
    {
        if value {
            ShouldSort::Sort
        } else {
            ShouldSort::NoSort
        }
    }
}

/// Controls whether callers should serialize values before storing them.
#[derive(Debug, Clone, Copy, PartialEq, Eq, Structural, Default)]
pub enum Serialize {
    #[default]
    Serialize,
    NoSerialize,
}

impl Serialize {
    /// The boolean form: `true` means serialize.
    pub fn as_bool(&self) -> (r: bool)
        ensures
            r == (*self is Serialize),
    {
        match self {
            Serialize::Serialize => true,
            Serialize::NoSerialize => false,
        }
    }

    /// Builds the flag from its boolean form.
    pub fn from_bool(value: bool) -> (r: Self)
        ensures
            (r is Serialize) == value,
    {
        if value {
            Serialize::Serialize
        } else {
            Serialize::NoSerialize
        }
    }
}

/// Controls whether an export copies the item or moves it out.
#[derive(Debug, Clone, Copy, PartialEq, Eq, Structural, Default)]
pub enum ExportMode {
    #[default]
    Copy,
    Move,
}

/// Controls how a scan handles newly found, untracked items.
#[derive(Debug, Clone, Copy, PartialEq, Eq, Structural, Default)]
pub enum ScanPolicy {
    DetectOnly,
    RemoveNew,
    #[default]
    AddNew,
}

/// One difference found by a scan: an untracked path discovered on disk, or
/// a tracked path that is missing from disk.
#[derive(Debug, Clone, PartialEq)]
pub enum ExternalChange {
    Added { id: ItemId, path: Vec<String> },
    Removed { id: ItemId, path: Vec<String> },
}

/// The changes are exactly the given (name, position, path) triples, in
/// order, all marked as newly discovered.
pub open spec fn changes_are_added(
    cs: Seq<ExternalChange>,
    ts: Seq<(Seq<char>, int, Seq<Seq<char>>)>,
) -> bool {
    &&& cs.len() == ts.len()
    &&& forall|i: int|
        0 <= i < cs.len() ==> ((#[trigger] cs[i]) matches ExternalChange::Added { id, path } && id@
            == (ts[i].0, ts[i].1) && path.deep_view() == ts[i].2)
}

/// The changes are exactly the given (name, position, path) triples, in
/// order, all marked as missing from disk.
pub open spec fn changes_are_removed(
    cs: Seq<ExternalChange>,
    ts: Seq<(Seq<char>, int, Seq<Seq<char>>)>,
) -> bool {
    &&& cs.len() == ts.len()
    &&& forall|i: int|
        0 <= i < cs.len() ==> ((#[trigger] cs[i]) matches ExternalChange::Removed { id, path }
            && id@ == (ts[i].0, ts[i].1) && path.deep_view() == ts[i].2)
}

/// Summary of one reconciliation pass: the scanned scope, the recursion flag,
/// the changes found, and how many tracked entries were unchanged.
#[derive(Debug, Clone, PartialEq)]
pub struct ScanReport {
    scanned_from: ItemId,
    recursive: bool,
    added: Vec<ExternalChange>,
    removed: Vec<ExternalChange>,
    unchanged_count: usize,
    total_changed_count: usize,
}

impl ScanReport {
    pub closed spec fn scanned_from_view(&self) -> (Seq<char>, int) {
        self.scanned_from@
    }

    pub closed spec fn recursive_view(&self) -> bool {
        self.recursive
    }

    pub closed spec fn added_view(&self) -> Seq<ExternalChange> {
        self.added@
    }

    pub closed spec fn removed_view(&self) -> Seq<ExternalChange> {
        self.removed@
    }

    pub closed spec fn unchanged_count_view(&self) -> int {
        self.unchanged_count as int
    }

    pub closed spec fn total_changed_view(&self) -> int {
        self.total_changed_count as int
    }

    /// Assembles a report.
    pub(crate) fn assemble(
        scanned_from: ItemId,
        recursive: bool,
        added: Vec<ExternalChange>,
        removed: Vec<ExternalChange>,
        unchanged_count: usize,
        total_changed_count: usize,
    ) -> (r: Self)
        ensures
            r.scanned_from_view() == scanned_from@,
            r.recursive_view() == recursive,
            r.added_view() == added@,
            r.removed_view() == removed@,
            r.unchanged_count_view() == unchanged_count as int,
            r.total_changed_view() == total_changed_count as int,
    {
        ScanReport { scanned_from, recursive, added, removed, unchanged_count, total_changed_count }
    }

    /// The identity the scan started from.
    pub fn get_scan_from(&self) -> (r: &ItemId)
        ensures
            r@ == self.scanned_from_view(),
    {
        &self.scanned_from
    }

    /// The newly discovered, untracked items.
    pub fn get_added(&self) -> (r: &Vec<ExternalChange>)
        ensures
            r@ == self.added_view(),
    {
        &self.added
    }

    /// The tracked items that were missing on disk.
    pub fn get_removed(&self) -> (r: &Vec<ExternalChange>)
        ensures
            r@ == self.removed_view(),
    {
        &self.removed
    }

    /// How many tracked items inside the scope were unchanged.
    pub fn get_unchanged_count(&self) -> (r: usize)
        ensures
            r as int == self.unchanged_count_view(),
    {
        self.unchanged_count
    }

    /// The total number of changes: added plus removed.
    pub fn get_total_changed_count(&self) -> (r: usize)
        ensures
            r as int == self.total_changed_view(),
    {
        self.total_changed_count
    }
}

} // verus!
