//! The work queue and its counters: one scan at a time fills the queue, and
//! workers drain it from the front.
//!
//! A [`Dispatcher`] owns the library root, the inventory of the current scan,
//! the pending jobs and the scan counters. It is an ordinary value: whoever
//! shares it between tasks puts it behind one lock, and every operation here
//! is then one critical section. Each scan is known by its epoch; what a scan
//! reports under an epoch that is no longer current changes nothing.

use vstd::prelude::*;
use std::collections::VecDeque;
use crate::paths::{
    below, is_under, joined, lemma_relative_round_trip, path_views, relative_of, strip_root, under_root,
};
use crate::probe::{classified, classify, needs_conversion, wants_conversion, ProbeReport};

verus! {

/// The mathematical state of a dispatcher.
#[verifier::ext_equal]
pub struct DispatchState {
    /// The library root of the current scan.
    pub root: Seq<char>,
    /// The files that the current scan has found, in the order it found them.
    pub inventory: Seq<Seq<char>>,
    /// The jobs that no worker has claimed yet, oldest first, each as the
    /// position of its file in the inventory.
    pub pending: Seq<int>,
    /// How many files of the inventory have been examined.
    pub scanned: nat,
    /// How many of the examined files could not be classified.
    pub failures: nat,
    /// The number of the current scan.
    pub epoch: nat,
}

/// The counters that a status query reports.
#[derive(Clone, Copy, Debug, PartialEq, Eq, Structural)]
pub struct Status {
    /// Files that the current scan has found.
    pub total_files: usize,
    /// Files that the current scan has examined.
    pub scanned_files: usize,
    /// Jobs waiting for a worker.
    pub queued_jobs: usize,
}

/// Why a scan was not started.
#[derive(Clone, Copy, Debug, PartialEq, Eq, Structural)]
pub enum ScanError {
    /// The root does not exist or is not a directory.
    InvalidRoot,
    /// The dispatcher has numbered as many scans as it can.
    EpochsExhausted,
}

/// What became of one probe report.
#[derive(Clone, Copy, Debug, PartialEq, Eq, Structural)]
pub enum Recorded {
    /// The report belongs to a scan that a later one has replaced.
    Stale,
    /// Every file of the inventory had been examined already.
    Idle,
    /// The file was examined and has become a job.
    Queued,
    /// The file was examined and needs no conversion.
    Skipped,
    /// The file was examined and could not be classified.
    Failed,
}

impl DispatchState {
    /// Before the first scan: nothing known, nothing pending.
    pub open spec fn initial() -> DispatchState {
        DispatchState {
            root: Seq::empty(),
            inventory: Seq::empty(),
            pending: Seq::empty(),
            scanned: 0,
            failures: 0,
            epoch: 0,
        }
    }

    /// The invariant of a dispatcher: the counters are in step with the
    /// inventory, every file of the inventory lies below the root, and the
    /// pending jobs are examined files of the inventory in the order in
    /// which the scan found them.
    pub open spec fn valid(self) -> bool {
        &&& self.failures <= self.scanned <= self.inventory.len()
        &&& forall|i: int|
            0 <= i < self.inventory.len() ==> is_under(self.root, #[trigger] self.inventory[i])
        &&& forall|k: int|
            0 <= k < self.pending.len() ==> 0 <= #[trigger] self.pending[k] < self.scanned
        &&& forall|j: int, k: int|
            0 <= j < k < self.pending.len() ==> #[trigger] self.pending[j]
                < #[trigger] self.pending[k]
    }

    /// The pending jobs, oldest first, as workers see them: paths relative
    /// to the root.
    pub open spec fn jobs(self) -> Seq<Seq<char>> {
        Seq::new(
            self.pending.len(),
            |k: int| relative_of(self.root, self.inventory[self.pending[k]]),
        )
    }

    /// The state with inventory, queue and counters emptied.
    pub open spec fn cleared(self) -> DispatchState {
        DispatchState {
            inventory: Seq::empty(),
            pending: Seq::empty(),
            scanned: 0,
            failures: 0,
            ..self
        }
    }

    /// The state in which a new scan of `root` has just begun.
    pub open spec fn scan_started(self, root: Seq<char>) -> DispatchState {
        DispatchState { root, epoch: self.epoch + 1, ..self.cleared() }
    }

    /// The state after the scan of `epoch` has reported `files`: those below
    /// the root join the inventory, in their order.
    pub open spec fn inventory_loaded(self, epoch: nat, files: Seq<Seq<char>>) -> DispatchState {
        if epoch == self.epoch {
            DispatchState {
                inventory: self.inventory + files.filter(below(self.root)),
                ..self
            }
        } else {
            self
        }
    }

    /// The file that the scan of `epoch` has to probe next.
    pub open spec fn next_file(self, epoch: nat) -> Option<Seq<char>> {
        if epoch == self.epoch && self.scanned < self.inventory.len() {
            Some(self.inventory[self.scanned as int])
        } else {
            None
        }
    }

    /// What a report of the scan of `epoch` is recorded as.
    pub open spec fn recording(self, epoch: nat, report: ProbeReport) -> Recorded {
        if epoch != self.epoch {
            Recorded::Stale
        } else if self.scanned >= self.inventory.len() {
            Recorded::Idle
        } else if wants_conversion(report) {
            Recorded::Queued
        } else if classified(report) is Err {
            Recorded::Failed
        } else {
            Recorded::Skipped
        }
    }

    /// The state after a report of the scan of `epoch` on the next file of
    /// the inventory.
    pub open spec fn probe_recorded(self, epoch: nat, report: ProbeReport) -> DispatchState {
        match self.recording(epoch, report) {
            Recorded::Stale | Recorded::Idle => self,
            Recorded::Queued => DispatchState {
                pending: self.pending.push(self.scanned as int),
                scanned: self.scanned + 1,
                ..self
            },
            Recorded::Skipped => DispatchState { scanned: self.scanned + 1, ..self },
            Recorded::Failed => DispatchState {
                scanned: self.scanned + 1,
                failures: self.failures + 1,
                ..self
            },
        }
    }

    /// The state after the scan of `epoch` has handed in `reports`, one after
    /// the other.
    pub open spec fn after_reports(self, epoch: nat, reports: Seq<ProbeReport>) -> DispatchState
        decreases reports.len(),
    {
        if reports.len() == 0 {
            self
        } else {
            self.after_reports(epoch, reports.drop_last()).probe_recorded(epoch, reports.last())
        }
    }

    /// The job that the next claim hands out.
    pub open spec fn next_job(self) -> Option<Seq<char>> {
        if self.pending.len() > 0 {
            Some(self.jobs()[0])
        } else {
            None
        }
    }

    /// The state after one claim.
    pub open spec fn claimed(self) -> DispatchState {
        if self.pending.len() > 0 {
            DispatchState { pending: self.pending.drop_first(), ..self }
        } else {
            self
        }
    }

    /// The state after `n` claims, one after the other.
    pub open spec fn after_claims(self, n: nat) -> DispatchState
        decreases n,
    {
        if n == 0 {
            self
        } else {
            self.after_claims((n - 1) as nat).claimed()
        }
    }
}

/// What a dispatcher holds.
struct Engine {
    root: String,
    inventory: Vec<String>,
    pending: VecDeque<usize>,
    scanned: usize,
    failures: usize,
    epoch: u64,
}

impl View for Engine {
    type V = DispatchState;

    closed spec fn view(&self) -> DispatchState {
        DispatchState {
            root: self.root@,
            inventory: path_views(self.inventory@),
            pending: self.pending@.map_values(|i: usize| i as int),
            scanned: self.scanned as nat,
            failures: self.failures as nat,
            epoch: self.epoch as nat,
        }
    }
}

impl Engine {
    fn new() -> (out: Engine)
        ensures
            out@ == DispatchState::initial(),
            out@.valid(),
    {
        let out = Engine {
            root: String::new(),
            inventory: Vec::new(),
            pending: VecDeque::new(),
            scanned: 0,
            failures: 0,
            epoch: 0,
        };
        assert(out@ =~= DispatchState::initial());
        out
    }

    fn clear_queue(&mut self)
        requires
            old(self)@.valid(),
        ensures
            final(self)@.valid(),
            final(self)@ == old(self)@.cleared(),
    {
        self.pending = VecDeque::new();
        self.scanned = 0;
        self.failures = 0;
        self.inventory = Vec::new();
        assert(self@ =~= old(self)@.cleared());
    }

    fn trigger_scan(&mut self, root: String, is_directory: bool) -> (out: Result<u64, ScanError>)
        requires
            old(self)@.valid(),
        ensures
            final(self)@.valid(),
            match out {
                Ok(epoch) => {
                    &&& is_directory
                    &&& old(self)@.epoch < u64::MAX
                    &&& final(self)@ == old(self)@.scan_started(root@)
                    &&& epoch == final(self)@.epoch
                },
                Err(ScanError::InvalidRoot) => !is_directory && final(self)@ == old(self)@,
                Err(ScanError::EpochsExhausted) => {
                    &&& is_directory
                    &&& old(self)@.epoch == u64::MAX
                    &&& final(self)@ == old(self)@
                },
            },
    {
        if !is_directory {
            return Err(ScanError::InvalidRoot);
        }
        if self.epoch == u64::MAX {
            return Err(ScanError::EpochsExhausted);
        }
        self.clear_queue();
        self.root = root;
        self.epoch = self.epoch + 1;
        assert(self@ =~= old(self)@.scan_started(root@));
        Ok(self.epoch)
    }

    fn load_inventory(&mut self, epoch: u64, files: &[String]) -> (out: bool)
        requires
            old(self)@.valid(),
        ensures
            final(self)@.valid(),
            out == (epoch == old(self)@.epoch),
            final(self)@ == old(self)@.inventory_loaded(epoch as nat, path_views(files@)),
    {
        if epoch != self.epoch {
            return false;
        }
        let ghost kept = below(old(self)@.root);
        let ghost all = path_views(files@);
        let mut i: usize = 0;
        proof {
            reveal(Seq::filter);
            assert(all.take(0).filter(kept) =~= Seq::<Seq<char>>::empty());
            assert(self@.inventory + Seq::<Seq<char>>::empty() =~= self@.inventory);
        }
        while i < files.len()
            invariant
                i <= files.len(),
                self@.valid(),
                all == path_views(files@),
                kept == below(old(self)@.root),
                self@ == (DispatchState {
                    inventory: old(self)@.inventory + all.take(i as int).filter(kept),
                    ..old(self)@
                }),
            decreases files.len() - i,
        {
            let ghost before = self@;
            proof {
                reveal(Seq::filter);
                assert(all.take(i + 1).drop_last() =~= all.take(i as int));
                assert(all.take(i + 1).last() == files@[i as int]@);
            }
            if under_root(self.root.as_str(), files[i].as_str()) {
                self.inventory.push(files[i].clone());
                assert(self@.inventory =~= before.inventory.push(files@[i as int]@));
                assert forall|k: int| 0 <= k < self@.inventory.len() implies is_under(
                    self@.root,
                    #[trigger] self@.inventory[k],
                ) by {
                    if k < before.inventory.len() {
                        assert(self@.inventory[k] == before.inventory[k]);
                    }
                }
                assert(self@ =~= (DispatchState {
                    inventory: old(self)@.inventory + all.take(i + 1).filter(kept),
                    ..old(self)@
                }));
                assert(self@.pending == before.pending);
            }
            i += 1;
        }
        assert(all.take(files.len() as int) =~= all);
        true
    }

    fn next_probe(&self, epoch: u64) -> (out: Option<String>)
        requires
            self@.valid(),
        ensures
            self@.next_file(epoch as nat) == match out {
                Some(path) => Some(path@),
                None => None::<Seq<char>>,
            },
    {
        if epoch == self.epoch && self.scanned < self.inventory.len() {
            Some(self.inventory[self.scanned].clone())
        } else {
            None
        }
    }

    fn record_probe(&mut self, epoch: u64, report: &ProbeReport) -> (out: Recorded)
        requires
            old(self)@.valid(),
        ensures
            final(self)@.valid(),
            out == old(self)@.recording(epoch as nat, *report),
            final(self)@ == old(self)@.probe_recorded(epoch as nat, *report),
    {
        if epoch != self.epoch {
            return Recorded::Stale;
        }
        if self.scanned >= self.inventory.len() {
            return Recorded::Idle;
        }
        let out = match classify(report) {
            Ok(label) => {
                if needs_conversion(label.as_str()) {
                    self.pending.push_back(self.scanned);
                    Recorded::Queued
                } else {
                    Recorded::Skipped
                }
            },
            Err(_) => {
                self.failures = self.failures + 1;
                Recorded::Failed
            },
        };
        self.scanned = self.scanned + 1;
        assert(self@ =~= old(self)@.probe_recorded(epoch as nat, *report));
        out
    }

    fn claim_next(&mut self) -> (out: Option<String>)
        requires
            old(self)@.valid(),
        ensures
            final(self)@.valid(),
            final(self)@ == old(self)@.claimed(),
            old(self)@.next_job() == match out {
                Some(job) => Some(job@),
                None => None::<Seq<char>>,
            },
    {
        match self.pending.pop_front() {
            Some(index) => {
                assert(old(self)@.pending[0] == index);
                assert(self@ =~= old(self)@.claimed());
                assert(is_under(self@.root, self@.inventory[index as int]));
                let job = strip_root(self.root.as_str(), self.inventory[index].as_str());
                Some(job)
            },
            None => None,
        }
    }
}

/// The dispatch engine: library root, inventory, pending jobs and counters.
///
/// The invariant [`DispatchState::valid`] holds of every dispatcher, at all
/// times.
pub struct Dispatcher {
    inner: Engine,
}

impl View for Dispatcher {
    type V = DispatchState;

    closed spec fn view(&self) -> DispatchState {
        self.inner@
    }
}

impl Dispatcher {
    #[verifier::type_invariant]
    spec fn inv(&self) -> bool {
        self.inner@.valid()
    }

    /// Takes the fields out for a change and leaves an empty dispatcher.
    fn take(&mut self) -> (inner: Engine)
        ensures
            inner@ == old(self)@,
            inner@.valid(),
    {
        proof {
            use_type_invariant(&*self);
        }
        let mut inner = Engine::new();
        core::mem::swap(&mut self.inner, &mut inner);
        inner
    }

    /// A dispatcher that has seen no scan.
    pub fn new() -> (out: Dispatcher)
        ensures
            out@ == DispatchState::initial(),
    {
        Dispatcher { inner: Engine::new() }
    }

    /// The number of the current scan.
    pub fn epoch(&self) -> (out: u64)
        ensures
            out == self@.epoch,
            self@.valid(),
    {
        proof {
            use_type_invariant(self);
        }
        self.inner.epoch
    }

    /// The root of the current scan.
    pub fn root(&self) -> (out: &str)
        ensures
            out@ == self@.root,
    {
        self.inner.root.as_str()
    }

    /// How many files of the current scan could not be classified.
    pub fn probe_failures(&self) -> (out: usize)
        ensures
            out == self@.failures,
    {
        self.inner.failures
    }

    /// Empties inventory, queue and counters. Root and epoch stay.
    pub fn clear_queue(&mut self)
        ensures
            final(self)@ == old(self)@.cleared(),
            final(self)@.valid(),
    {
        let mut inner = self.take();
        inner.clear_queue();
        self.inner = inner;
    }

    /// Starts a scan of `root`, where `is_directory` says that `root` exists
    /// and is a directory: everything of the scan before is dropped, and the
    /// new scan's epoch is returned. Any other root is refused, and nothing
    /// changes.
    pub fn trigger_scan(&mut self, root: String, is_directory: bool) -> (out: Result<u64, ScanError>)
        ensures
            final(self)@.valid(),
            match out {
                Ok(epoch) => {
                    &&& is_directory
                    &&& old(self)@.epoch < u64::MAX
                    &&& final(self)@ == old(self)@.scan_started(root@)
                    &&& epoch == final(self)@.epoch
                },
                Err(ScanError::InvalidRoot) => !is_directory && final(self)@ == old(self)@,
                Err(ScanError::EpochsExhausted) => {
                    &&& is_directory
                    &&& old(self)@.epoch == u64::MAX
                    &&& final(self)@ == old(self)@
                },
            },
    {
        let mut inner = self.take();
        let out = inner.trigger_scan(root, is_directory);
        self.inner = inner;
        out
    }

    /// Takes the files that the scan of `epoch` has found into the
    /// inventory, those below the root and in their order, and says whether
    /// `epoch` is the current scan. For any other epoch nothing changes.
    pub fn load_inventory(&mut self, epoch: u64, files: &[String]) -> (out: bool)
        ensures
            out == (epoch == old(self)@.epoch),
            final(self)@ == old(self)@.inventory_loaded(epoch as nat, path_views(files@)),
            final(self)@.valid(),
    {
        let mut inner = self.take();
        let out = inner.load_inventory(epoch, files);
        self.inner = inner;
        out
    }

    /// The file that the scan of `epoch` has to probe next; none where the
    /// scan has examined all its files or is no longer the current one.
    pub fn next_probe(&self, epoch: u64) -> (out: Option<String>)
        ensures
            self@.next_file(epoch as nat) == match out {
                Some(path) => Some(path@),
                None => None::<Seq<char>>,
            },
            self@.valid(),
    {
        proof {
            use_type_invariant(self);
        }
        self.inner.next_probe(epoch)
    }

    /// Records what the probe of the next file of the inventory reported for
    /// the scan of `epoch`: the file counts as examined, and becomes the
    /// newest job where its codec is the one to convert. A report for
    /// another epoch, or with no file left to examine, changes nothing.
    pub fn record_probe(&mut self, epoch: u64, report: &ProbeReport) -> (out: Recorded)
        ensures
            out == old(self)@.recording(epoch as nat, *report),
            final(self)@ == old(self)@.probe_recorded(epoch as nat, *report),
            final(self)@.valid(),
    {
        let mut inner = self.take();
        let out = inner.record_probe(epoch, report);
        self.inner = inner;
        out
    }

    /// Hands out the oldest pending job, as a path relative to the root, and
    /// takes it off the queue; nothing where no job is pending.
    pub fn claim_next(&mut self) -> (out: Option<String>)
        ensures
            final(self)@ == old(self)@.claimed(),
            final(self)@.valid(),
            old(self)@.next_job() == match out {
                Some(job) => Some(job@),
                None => None::<Seq<char>>,
            },
    {
        let mut inner = self.take();
        let out = inner.claim_next();
        self.inner = inner;
        out
    }

    /// The counters as they stand.
    pub fn status(&self) -> (out: Status)
        ensures
            out.total_files == self@.inventory.len(),
            out.scanned_files == self@.scanned,
            out.queued_jobs == self@.pending.len(),
            self@.valid(),
    {
        proof {
            use_type_invariant(self);
        }
        Status {
            total_files: self.inner.inventory.len(),
            scanned_files: self.inner.scanned,
            queued_jobs: self.inner.pending.len(),
        }
    }
}

/// The places in the inventory of the files that `reports` make jobs of,
/// where the first report is on the file at place `first`.
pub open spec fn queued_by(first: int, reports: Seq<ProbeReport>) -> Seq<int>
    decreases reports.len(),
{
    if reports.len() == 0 {
        Seq::empty()
    } else if wants_conversion(reports.last()) {
        queued_by(first, reports.drop_last()).push(first + reports.len() - 1)
    } else {
        queued_by(first, reports.drop_last())
    }
}

/// How many of the reports give no codec label.
pub open spec fn probe_errors(reports: Seq<ProbeReport>) -> nat
    decreases reports.len(),
{
    if reports.len() == 0 {
        0
    } else {
        probe_errors(reports.drop_last()) + if classified(reports.last()) is Err {
            1nat
        } else {
            0nat
        }
    }
}

/// Every report of the current scan counts, whatever it says: as many files
/// are examined as reports come in, while files are left to examine. The
/// files whose reports name the codec to convert join the queue at its end,
/// in the order of the reports, and a report that gives no label is counted
/// as a failure and holds up nothing.
pub proof fn lemma_reports_are_counted(s: DispatchState, reports: Seq<ProbeReport>)
    requires
        s.scanned + reports.len() <= s.inventory.len(),
    ensures
        s.after_reports(s.epoch, reports) == (DispatchState {
            scanned: s.scanned + reports.len(),
            failures: s.failures + probe_errors(reports),
            pending: s.pending + queued_by(s.scanned as int, reports),
            ..s
        }),
    decreases reports.len(),
{
    if reports.len() == 0 {
        assert(s.pending + queued_by(s.scanned as int, reports) =~= s.pending);
    } else {
        lemma_reports_are_counted(s, reports.drop_last());
        assert(s.after_reports(s.epoch, reports).pending =~= s.pending + queued_by(
            s.scanned as int,
            reports,
        ));
    }
}

/// A file becomes a job exactly when its report names the codec to convert:
/// the place of the file that report `i` is on is among those queued if and
/// only if the report asks for the conversion. The places queued ascend.
pub proof fn lemma_queued_are_the_wanted(first: int, reports: Seq<ProbeReport>)
    ensures
        forall|i: int|
            0 <= i < reports.len() ==> (queued_by(first, reports).contains(first + i)
                <==> wants_conversion(#[trigger] reports[i])),
        forall|k: int|
            0 <= k < queued_by(first, reports).len() ==> first <= #[trigger] queued_by(
                first,
                reports,
            )[k] < first + reports.len(),
        forall|j: int, k: int|
            0 <= j < k < queued_by(first, reports).len() ==> #[trigger] queued_by(first, reports)[j]
                < #[trigger] queued_by(first, reports)[k],
    decreases reports.len(),
{
    if reports.len() > 0 {
        let earlier = reports.drop_last();
        let last = reports.len() - 1;
        let before = queued_by(first, earlier);
        let after = queued_by(first, reports);
        lemma_queued_are_the_wanted(first, earlier);
        assert forall|i: int| 0 <= i < reports.len() implies (after.contains(first + i)
            <==> wants_conversion(#[trigger] reports[i])) by {
            if i < last {
                assert(reports[i] == earlier[i]);
                if before.contains(first + i) {
                    let k = choose|k: int| 0 <= k < before.len() && before[k] == first + i;
                    assert(after[k] == first + i);
                }
                if after.contains(first + i) {
                    let k = choose|k: int| 0 <= k < after.len() && after[k] == first + i;
                    assert(before[k] == first + i);
                }
            } else if wants_conversion(reports.last()) {
                assert(after[after.len() - 1] == first + last);
            } else if after.contains(first + i) {
                let k = choose|k: int| 0 <= k < after.len() && after[k] == first + i;
                assert(before[k] < first + earlier.len());
            }
        }
        assert forall|k: int| 0 <= k < after.len() implies first <= #[trigger] after[k] < first
            + reports.len() by {
            if k < before.len() {
                assert(after[k] == before[k]);
            }
        }
        assert forall|j: int, k: int| 0 <= j < k < after.len() implies #[trigger] after[j]
            < #[trigger] after[k] by {
            assert(after[j] == before[j]);
            if k < before.len() {
                assert(after[k] == before[k]);
            }
        }
    }
}

/// After `n` claims the `n` oldest jobs are gone, or all of them where there
/// were fewer; nothing else has changed.
pub proof fn lemma_after_claims(s: DispatchState, n: nat)
    ensures
        s.after_claims(n) == (DispatchState {
            pending: s.pending.skip(if n <= s.pending.len() { n as int } else { s.pending.len() as int }),
            ..s
        }),
        n <= s.jobs().len() ==> s.after_claims(n).jobs() == s.jobs().skip(n as int),
        n >= s.jobs().len() ==> s.after_claims(n).jobs().len() == 0,
    decreases n,
{
    if n == 0 {
        assert(s.pending.skip(0) =~= s.pending);
    } else {
        lemma_after_claims(s, (n - 1) as nat);
        let before = s.after_claims((n - 1) as nat);
        if n <= s.pending.len() {
            assert(before.pending.drop_first() =~= s.pending.skip(n as int));
        } else {
            assert(before.pending =~= s.pending.skip(s.pending.len() as int));
        }
    }
    let after = s.after_claims(n);
    if n <= s.jobs().len() {
        assert(after.jobs() =~= s.jobs().skip(n as int));
    }
}

/// Claims drain the queue from the front: the claim that follows `n` others
/// hands out the job that stood at place `n`, and nothing once every job has
/// been handed out. Claims on one dispatcher happen one after the other, so
/// this holds for callers in any number, whatever their timing.
pub proof fn lemma_claims_in_order(s: DispatchState, n: nat)
    ensures
        n < s.jobs().len() ==> s.after_claims(n).next_job() == Some(s.jobs()[n as int]),
        n >= s.jobs().len() ==> s.after_claims(n).next_job() is None,
{
    lemma_after_claims(s, n);
}

/// Of a queue of distinct jobs, as many claims as there are jobs hand out
/// every job exactly once, and the claim after them hands out nothing.
pub proof fn lemma_each_job_claimed_once(s: DispatchState)
    requires
        s.jobs().no_duplicates(),
    ensures
        forall|j: int, n: nat|
            0 <= j < s.jobs().len() ==> (#[trigger] s.after_claims(n).next_job() == Some(
                #[trigger] s.jobs()[j],
            ) <==> n == j),
        s.after_claims(s.jobs().len()).next_job() is None,
{
    assert forall|j: int, n: nat| 0 <= j < s.jobs().len() implies (
    #[trigger] s.after_claims(n).next_job() == Some(#[trigger] s.jobs()[j]) <==> n == j) by {
        lemma_claims_in_order(s, n);
    }
    lemma_claims_in_order(s, s.jobs().len());
}

/// Where the scan has found no file twice, no job is pending twice.
pub proof fn lemma_jobs_distinct(s: DispatchState)
    requires
        s.valid(),
        s.inventory.no_duplicates(),
    ensures
        s.jobs().no_duplicates(),
{
    assert forall|j: int, k: int|
        0 <= j < s.jobs().len() && 0 <= k < s.jobs().len() && j != k implies s.jobs()[j]
        != s.jobs()[k] by {
        let a = s.pending[j];
        let b = s.pending[k];
        if j < k {
            assert(s.pending[j] < s.pending[k]);
        } else {
            assert(s.pending[k] < s.pending[j]);
        }
        if s.jobs()[j] == s.jobs()[k] {
            lemma_relative_round_trip(s.root, s.inventory[a], Seq::empty());
            lemma_relative_round_trip(s.root, s.inventory[b], Seq::empty());
            assert(s.inventory[a] == s.inventory[b]);
        }
    }
}

/// Jobs are handed out in the order in which the scan found their files:
/// of two claims, the earlier one hands out the file that stands earlier in
/// the inventory. Every job handed out is an examined file of the current
/// inventory.
pub proof fn lemma_claims_follow_scan_order(s: DispatchState, m: nat, n: nat)
    requires
        s.valid(),
        m < n < s.pending.len(),
    ensures
        0 <= s.pending[m as int] < s.pending[n as int] < s.scanned,
        s.after_claims(m).next_job() == Some(
            relative_of(s.root, s.inventory[s.pending[m as int]]),
        ),
        s.after_claims(n).next_job() == Some(
            relative_of(s.root, s.inventory[s.pending[n as int]]),
        ),
{
    lemma_claims_in_order(s, m);
    lemma_claims_in_order(s, n);
}

/// A file that becomes a job is queued behind every job that is pending, and
/// the jobs in front of it stay as they are; any other report leaves the
/// queue as it is.
pub proof fn lemma_record_appends(s: DispatchState, epoch: nat, report: ProbeReport)
    ensures
        s.recording(epoch, report) == Recorded::Queued ==> s.probe_recorded(epoch, report).jobs()
            == s.jobs().push(relative_of(s.root, s.inventory[s.scanned as int])),
        s.recording(epoch, report) != Recorded::Queued ==> s.probe_recorded(epoch, report).jobs()
            == s.jobs(),
{
    let t = s.probe_recorded(epoch, report);
    if s.recording(epoch, report) == Recorded::Queued {
        assert(t.jobs() =~= s.jobs().push(relative_of(s.root, s.inventory[s.scanned as int])));
    } else {
        assert(t.jobs() =~= s.jobs());
    }
}

/// A new scan replaces the one before: once it has started, nothing is
/// pending and nothing is known of the old inventory, and whatever a scan
/// with an earlier epoch still reports changes nothing, so that no job of an
/// earlier scan can be claimed.
pub proof fn lemma_scan_replaces_epoch(
    s: DispatchState,
    root: Seq<char>,
    earlier: nat,
    files: Seq<Seq<char>>,
    report: ProbeReport,
)
    requires
        earlier <= s.epoch,
    ensures
        s.scan_started(root).epoch > s.epoch,
        s.scan_started(root).jobs().len() == 0,
        s.scan_started(root).next_job() is None,
        s.scan_started(root).inventory.len() == 0,
        s.scan_started(root).scanned == 0,
        s.scan_started(root).inventory_loaded(earlier, files) == s.scan_started(root),
        s.scan_started(root).probe_recorded(earlier, report) == s.scan_started(root),
        s.scan_started(root).next_file(earlier) is None,
{
}

/// What is reported under an epoch that is not the current one changes
/// nothing, and no operation but the start of a scan changes the epoch.
pub proof fn lemma_stale_reports_change_nothing(
    s: DispatchState,
    epoch: nat,
    files: Seq<Seq<char>>,
    report: ProbeReport,
)
    ensures
        epoch != s.epoch ==> s.inventory_loaded(epoch, files) == s,
        epoch != s.epoch ==> s.probe_recorded(epoch, report) == s,
        epoch != s.epoch ==> s.next_file(epoch) is None,
        s.inventory_loaded(epoch, files).epoch == s.epoch,
        s.probe_recorded(epoch, report).epoch == s.epoch,
        s.claimed().epoch == s.epoch,
        s.cleared().epoch == s.epoch,
{
}

/// Every pending job is a file that the current scan found and examined.
pub proof fn lemma_jobs_come_from_inventory(s: DispatchState, k: int)
    requires
        s.valid(),
        0 <= k < s.jobs().len(),
    ensures
        exists|i: int|
            0 <= i < s.scanned && i < s.inventory.len() && s.jobs()[k] == relative_of(
                s.root,
                #[trigger] s.inventory[i],
            ),
        joined(s.root, s.jobs()[k]) == s.inventory[s.pending[k]],
{
    let i = s.pending[k];
    assert(0 <= i < s.scanned);
    assert(s.jobs()[k] == relative_of(s.root, s.inventory[i]));
    lemma_relative_round_trip(s.root, s.inventory[i], Seq::empty());
}

/// Every operation keeps the invariant.
pub proof fn lemma_operations_keep_valid(
    s: DispatchState,
    root: Seq<char>,
    epoch: nat,
    files: Seq<Seq<char>>,
    report: ProbeReport,
)
    requires
        s.valid(),
    ensures
        DispatchState::initial().valid(),
        s.cleared().valid(),
        s.scan_started(root).valid(),
        s.inventory_loaded(epoch, files).valid(),
        s.probe_recorded(epoch, report).valid(),
        s.claimed().valid(),
{
    let loaded = s.inventory_loaded(epoch, files);
    if epoch == s.epoch {
        assert forall|i: int| 0 <= i < loaded.inventory.len() implies is_under(
            loaded.root,
            #[trigger] loaded.inventory[i],
        ) by {
            if i >= s.inventory.len() {
                files.lemma_filter_pred(below(s.root), i - s.inventory.len());
            }
        }
    }
    let recorded = s.probe_recorded(epoch, report);
    assert(recorded.valid());
    let claimed = s.claimed();
    assert(claimed.valid()) by {
        if s.pending.len() > 0 {
            assert forall|k: int| 0 <= k < claimed.pending.len() implies 0
                <= #[trigger] claimed.pending[k] < claimed.scanned by {
                assert(claimed.pending[k] == s.pending[k + 1]);
            }
            assert forall|j: int, k: int| 0 <= j < k < claimed.pending.len() implies
                #[trigger] claimed.pending[j] < #[trigger] claimed.pending[k] by {
                assert(claimed.pending[j] == s.pending[j + 1]);
                assert(claimed.pending[k] == s.pending[k + 1]);
            }
        }
    }
}

} // verus!
