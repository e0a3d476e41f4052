//! One scan of the library, from its root to the last probe.
//!
//! A [`Scan`] is the scanner's side of a scan: it walks the tree below the
//! root, hands the files it found to the dispatcher, and then has them
//! probed one by one. Listing a directory and probing a file are the
//! caller's work; the scan says which comes next. A scan that a later one
//! has replaced ends at its next step and leaves the dispatcher as it is.

use vstd::prelude::*;
use crate::dispatch::{DispatchState, Dispatcher, Recorded};
use crate::paths::lemma_all_below;
use crate::probe::ProbeReport;
use crate::walk::{DirEntry, WalkState, Walker};

verus! {

/// What the caller of a scan has to do next.
#[derive(Debug, PartialEq, Eq)]
pub enum ScanAction {
    /// List this directory and hand the listing in.
    ListDirectory(String),
    /// Probe this file and hand the report in.
    Probe(String),
    /// Nothing: the scan has ended.
    Done,
}

/// A scan's next action, with paths as sequences of characters.
pub enum Action {
    /// List this directory.
    ListDirectory(Seq<char>),
    /// Probe this file.
    Probe(Seq<char>),
    /// The scan has ended.
    Done,
}

impl View for ScanAction {
    type V = Action;

    open spec fn view(&self) -> Action {
        match self {
            ScanAction::ListDirectory(dir) => Action::ListDirectory(dir@),
            ScanAction::Probe(file) => Action::Probe(file@),
            ScanAction::Done => Action::Done,
        }
    }
}

/// The mathematical state of a scan.
#[verifier::ext_equal]
pub struct ScanState {
    /// The epoch under which the scan reports to the dispatcher.
    pub epoch: nat,
    /// The walk of the tree below the root.
    pub walk: WalkState,
    /// Whether the walk has ended and its files have been handed over.
    pub loaded: bool,
}

impl ScanState {
    /// A scan of `root` under `epoch` of which nothing has been done yet.
    pub open spec fn begun(epoch: nat, root: Seq<char>) -> ScanState {
        ScanState { epoch, walk: WalkState::start(root), loaded: false }
    }

    /// Whether the scan, asked for its next action with the dispatcher in
    /// state `engine`, takes its walk on.
    pub open spec fn walks(self, engine: DispatchState) -> bool {
        self.epoch == engine.epoch && !self.loaded
    }

    /// Whether the scan, asked for its next action, hands its files over.
    pub open spec fn hands_over(self, engine: DispatchState) -> bool {
        self.walks(engine) && self.walk.settled().finished()
    }

    /// The scan after it has been asked for its next action.
    pub open spec fn stepped(self, engine: DispatchState) -> ScanState {
        if self.walks(engine) {
            ScanState { walk: self.walk.settled(), loaded: self.hands_over(engine), ..self }
        } else {
            self
        }
    }

    /// The dispatcher after the scan has been asked for its next action:
    /// the files of a walk that has just ended are in the inventory.
    pub open spec fn engine_stepped(self, engine: DispatchState) -> DispatchState {
        if self.hands_over(engine) {
            engine.inventory_loaded(self.epoch, self.walk.settled().files)
        } else {
            engine
        }
    }

    /// The next action of the scan: the directory that the walk waits for;
    /// after the walk the next file of the inventory that has not been
    /// examined; and nothing once all are examined, or where a later scan
    /// has replaced this one.
    pub open spec fn action(self, engine: DispatchState) -> Action {
        if self.walks(engine) && self.walk.settled().awaiting is Some {
            Action::ListDirectory(self.walk.settled().awaiting->0)
        } else {
            match self.engine_stepped(engine).next_file(self.epoch) {
                Some(file) => Action::Probe(file),
                None => Action::Done,
            }
        }
    }

    /// The scan after a listing has been handed in.
    pub open spec fn listed(self, entries: Seq<DirEntry>) -> ScanState {
        ScanState { walk: self.walk.listed(entries), ..self }
    }
}

/// A scan in progress.
pub struct Scan {
    epoch: u64,
    walker: Walker,
    loaded: bool,
}

impl View for Scan {
    type V = ScanState;

    closed spec fn view(&self) -> ScanState {
        ScanState { epoch: self.epoch as nat, walk: self.walker@, loaded: self.loaded }
    }
}

impl Scan {
    /// The scan of `root` that reports under `epoch`.
    pub fn new(epoch: u64, root: &str) -> (out: Scan)
        ensures
            out@ == ScanState::begun(epoch as nat, root@),
    {
        Scan { epoch, walker: Walker::new(root), loaded: false }
    }

    /// The epoch under which the scan reports.
    pub fn epoch(&self) -> (out: u64)
        ensures
            out == self@.epoch,
    {
        self.epoch
    }

    /// Takes the scan on and says what the caller has to do next. When the
    /// walk has ended, its files go to the dispatcher's inventory.
    pub fn next_action(&mut self, engine: &mut Dispatcher) -> (out: ScanAction)
        ensures
            final(engine)@.valid(),
            final(self)@ == old(self)@.stepped(old(engine)@),
            final(engine)@ == old(self)@.engine_stepped(old(engine)@),
            out@ == old(self)@.action(old(engine)@),
    {
        if engine.epoch() == self.epoch && !self.loaded {
            match self.walker.next_directory() {
                Some(dir) => {
                    return ScanAction::ListDirectory(dir);
                },
                None => {
                    engine.load_inventory(self.epoch, self.walker.found().as_slice());
                    self.loaded = true;
                },
            }
        }
        match engine.next_probe(self.epoch) {
            Some(file) => ScanAction::Probe(file),
            None => ScanAction::Done,
        }
    }

    /// Hands in the listing of the directory that the scan asked for.
    pub fn add_listing(&mut self, entries: &[DirEntry])
        ensures
            final(self)@ == old(self)@.listed(entries@),
    {
        self.walker.add_listing(entries);
    }

    /// Hands in the report of the probe that the scan asked for.
    pub fn record_probe(&self, engine: &mut Dispatcher, report: &ProbeReport) -> (out: Recorded)
        ensures
            final(engine)@.valid(),
            out == old(engine)@.recording(self@.epoch, *report),
            final(engine)@ == old(engine)@.probe_recorded(self@.epoch, *report),
    {
        engine.record_probe(self.epoch, report)
    }
}

/// No file that a walk of the dispatcher's root finds is lost on the way
/// into the inventory: the files of the walk are appended as they are.
pub proof fn lemma_found_files_enter_inventory(engine: DispatchState, walk: WalkState)
    requires
        walk.valid(),
        walk.root == engine.root,
    ensures
        engine.inventory_loaded(engine.epoch, walk.files).inventory == engine.inventory
            + walk.files,
{
    lemma_all_below(engine.root, walk.files);
}

/// A scan that a later one has replaced has nothing more to do, and asking
/// it changes neither the scan nor the dispatcher.
pub proof fn lemma_replaced_scan_is_done(scan: ScanState, engine: DispatchState)
    requires
        scan.epoch != engine.epoch,
    ensures
        scan.action(engine) == Action::Done,
        scan.stepped(engine) == scan,
        scan.engine_stepped(engine) == engine,
{
}

} // verus!
