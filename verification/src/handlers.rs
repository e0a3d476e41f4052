//! What the service answers: one function for each of its endpoints, from
//! the dispatcher and the request's plain values to the reply.

use vstd::prelude::*;
use crate::dispatch::Dispatcher;
use crate::install::{plan_install, staging_of, InstallPlan, StorageError};
use crate::paths::{joined, resolve};
use crate::scan::{Scan, ScanState};
use crate::text::{decimal, decimal_string};

verus! {

/// The status report for the given counts.
pub open spec fn status_text(total: nat, scanned: nat, queued: nat) -> Seq<char> {
    "Status:\nTotal Files: "@ + decimal(total) + "\nScanned Files: "@ + decimal(scanned)
        + "\nFiles To Convert: "@ + decimal(queued)
}

/// The reply to a scan request.
pub struct ScanReply {
    /// What the client is told.
    pub message: String,
    /// The scan that is to be run, where one was started.
    pub scan: Option<Scan>,
}

/// The reply to a worker that asks for work: the next job's path relative to
/// the library root, or nothing where no job is pending. The job leaves the
/// queue.
pub fn request(engine: &mut Dispatcher) -> (out: String)
    ensures
        final(engine)@.valid(),
        final(engine)@ == old(engine)@.claimed(),
        out@ == match old(engine)@.next_job() {
            Some(job) => job,
            None => Seq::<char>::empty(),
        },
{
    match engine.claim_next() {
        Some(job) => job,
        None => String::new(),
    }
}

/// The status report: files found, files examined, jobs pending.
pub fn base(engine: &Dispatcher) -> (out: String)
    ensures
        out@ == status_text(
            engine@.inventory.len(),
            engine@.scanned,
            engine@.pending.len(),
        ),
{
    let status = engine.status();
    let mut out = String::from_str("Status:\nTotal Files: ");
    out.append(decimal_string(status.total_files).as_str());
    out.append("\nScanned Files: ");
    out.append(decimal_string(status.scanned_files).as_str());
    out.append("\nFiles To Convert: ");
    out.append(decimal_string(status.queued_jobs).as_str());
    out
}

/// The reply to a request to scan `path`, where `is_directory` says that
/// `path` exists and is a directory. A scan of such a path is started and
/// replaces the one before; for any other path nothing changes.
pub fn scan_files(engine: &mut Dispatcher, path: String, is_directory: bool) -> (out: ScanReply)
    ensures
        final(engine)@.valid(),
        match out.scan {
            Some(scan) => {
                &&& is_directory
                &&& old(engine)@.epoch < u64::MAX
                &&& final(engine)@ == old(engine)@.scan_started(path@)
                &&& scan@ == ScanState::begun(final(engine)@.epoch, path@)
                &&& out.message@ == "Scannen gestartet"@
            },
            None => {
                &&& !is_directory || old(engine)@.epoch == u64::MAX
                &&& final(engine)@ == old(engine)@
                &&& out.message@ == "Datei existiert nicht"@
            },
        },
{
    let scan = match engine.trigger_scan(path.clone(), is_directory) {
        Ok(epoch) => Some(Scan::new(epoch, path.as_str())),
        Err(_) => None,
    };
    let message = if scan.is_some() {
        "Scannen gestartet"
    } else {
        "Datei existiert nicht"
    };
    ScanReply { message: String::from_str(message), scan }
}

/// Where the upload of a converted file for `path`, relative to the library
/// root, is staged and installed. Any path is taken: whether it was handed
/// out as a job is not looked at.
pub fn converted(engine: &Dispatcher, path: &str) -> (out: InstallPlan)
    ensures
        out.staging@ == staging_of(path@),
        out.destination@ == joined(engine@.root, path@),
{
    plan_install(engine.root(), path)
}

/// The reply to the upload of a converted file, by how installing it ended.
pub fn converted_reply(outcome: Result<(), StorageError>) -> (out: &'static str)
    ensures
        out@ == match outcome {
            Ok(_) => "Datei erfolgreich hochgeladen!"@,
            Err(_) => "Fehler beim Speichern der Datei."@,
        },
{
    match outcome {
        Ok(_) => "Datei erfolgreich hochgeladen!",
        Err(_) => "Fehler beim Speichern der Datei.",
    }
}

/// The library file that a request for `file`, relative to the library
/// root, is answered from.
pub fn files(engine: &Dispatcher, file: &str) -> (out: String)
    ensures
        out@ == joined(engine@.root, file@),
{
    resolve(engine.root(), file)
}

} // verus!
