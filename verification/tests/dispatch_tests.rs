use video_reencoding_net::dispatch::{Dispatcher, Recorded, ScanError, Status};
use video_reencoding_net::handlers::{base, converted, converted_reply, files, request, scan_files};
use video_reencoding_net::install::{InstallAction, InstallPhase, StorageError};
use video_reencoding_net::probe::ProbeReport;
use video_reencoding_net::scan::{Scan, ScanAction};
use video_reencoding_net::walk::{DirEntry, EntryKind};

fn output(text: &str) -> ProbeReport {
    ProbeReport::Output(text.to_string())
}

fn paths(names: &[&str]) -> Vec<String> {
    names.iter().map(|name| name.to_string()).collect()
}

/// A dispatcher whose current scan of `/lib` has queued every given file.
fn seeded(names: &[&str]) -> (Dispatcher, u64) {
    let mut engine = Dispatcher::new();
    let epoch = engine.trigger_scan("/lib".to_string(), true).unwrap();
    let inventory: Vec<String> = names.iter().map(|name| format!("/lib/{}", name)).collect();
    assert!(engine.load_inventory(epoch, &inventory));
    for _ in names {
        assert_eq!(engine.record_probe(epoch, &output("h264\nvideo\n")), Recorded::Queued);
    }
    (engine, epoch)
}

#[test]
fn new_dispatcher_is_empty() {
    let mut engine = Dispatcher::new();
    assert_eq!(engine.epoch(), 0);
    assert_eq!(engine.root(), "");
    assert_eq!(engine.probe_failures(), 0);
    assert_eq!(engine.status(), Status { total_files: 0, scanned_files: 0, queued_jobs: 0 });
    assert_eq!(engine.claim_next(), None);
    assert_eq!(engine.next_probe(0), None);
}

#[test]
fn full_cycle() {
    let mut engine = Dispatcher::new();
    let reply = scan_files(&mut engine, "/lib".to_string(), true);
    assert_eq!(reply.message, "Scannen gestartet");
    let mut scan = reply.scan.unwrap();
    assert_eq!(scan.epoch(), 1);
    assert_eq!(engine.epoch(), 1);
    assert_eq!(engine.root(), "/lib");

    assert_eq!(scan.next_action(&mut engine), ScanAction::ListDirectory("/lib".to_string()));
    scan.add_listing(&[
        DirEntry { name: "a.mkv".to_string(), kind: EntryKind::File },
        DirEntry { name: "b.mkv".to_string(), kind: EntryKind::File },
    ]);
    assert_eq!(engine.status(), Status { total_files: 0, scanned_files: 0, queued_jobs: 0 });

    assert_eq!(scan.next_action(&mut engine), ScanAction::Probe("/lib/a.mkv".to_string()));
    assert_eq!(engine.status(), Status { total_files: 2, scanned_files: 0, queued_jobs: 0 });
    assert_eq!(
        scan.record_probe(&mut engine, &output("h264\nvideo\naac\naudio\n")),
        Recorded::Queued
    );
    assert_eq!(scan.next_action(&mut engine), ScanAction::Probe("/lib/b.mkv".to_string()));
    assert_eq!(scan.record_probe(&mut engine, &output("hevc\nvideo\n")), Recorded::Skipped);
    assert_eq!(scan.next_action(&mut engine), ScanAction::Done);
    assert_eq!(scan.next_action(&mut engine), ScanAction::Done);

    assert_eq!(engine.status(), Status { total_files: 2, scanned_files: 2, queued_jobs: 1 });
    assert_eq!(base(&engine), "Status:\nTotal Files: 2\nScanned Files: 2\nFiles To Convert: 1");

    assert_eq!(engine.claim_next(), Some("a.mkv".to_string()));
    assert_eq!(engine.claim_next(), None);
    assert_eq!(engine.status(), Status { total_files: 2, scanned_files: 2, queued_jobs: 0 });

    let plan = converted(&engine, "a.mkv");
    assert_eq!(plan.staging, "./a.mkv");
    assert_eq!(plan.destination, "/lib/a.mkv");
    let phase = InstallPhase::start();
    assert_eq!(phase.action(), Some(InstallAction::Stage));
    let phase = phase.advance(true);
    assert_eq!(phase.action(), Some(InstallAction::Commit));
    let phase = phase.advance(true);
    assert_eq!(phase.action(), Some(InstallAction::RemoveStaging));
    let phase = phase.advance(true);
    assert_eq!(phase.action(), None);
    assert_eq!(phase.outcome(), Some(Ok(())));
    assert_eq!(converted_reply(phase.outcome().unwrap()), "Datei erfolgreich hochgeladen!");
    assert_eq!(files(&engine, "a.mkv"), "/lib/a.mkv");
}

#[test]
fn scan_walks_the_tree_and_then_probes() {
    let mut engine = Dispatcher::new();
    let epoch = engine.trigger_scan("/lib".to_string(), true).unwrap();
    let mut scan = Scan::new(epoch, "/lib");
    let mut listed: Vec<String> = Vec::new();
    let mut probed: Vec<String> = Vec::new();
    loop {
        match scan.next_action(&mut engine) {
            ScanAction::ListDirectory(dir) => {
                let entries = match dir.as_str() {
                    "/lib" => vec![
                        DirEntry { name: "films".to_string(), kind: EntryKind::Directory },
                        DirEntry { name: "top.mkv".to_string(), kind: EntryKind::File },
                        DirEntry { name: "link".to_string(), kind: EntryKind::Other },
                    ],
                    "/lib/films" => vec![
                        DirEntry { name: "x.mkv".to_string(), kind: EntryKind::File },
                        DirEntry { name: "y.mkv".to_string(), kind: EntryKind::File },
                    ],
                    _ => Vec::new(),
                };
                listed.push(dir);
                scan.add_listing(&entries);
            }
            ScanAction::Probe(file) => {
                let report = if file.ends_with("y.mkv") { output("vp9\n") } else { output("h264\n") };
                probed.push(file);
                scan.record_probe(&mut engine, &report);
            }
            ScanAction::Done => break,
        }
    }
    assert_eq!(listed, vec!["/lib".to_string(), "/lib/films".to_string()]);
    assert_eq!(
        probed,
        vec!["/lib/films/x.mkv".to_string(), "/lib/films/y.mkv".to_string(), "/lib/top.mkv".to_string()]
    );
    assert_eq!(engine.status(), Status { total_files: 3, scanned_files: 3, queued_jobs: 2 });
    assert_eq!(engine.claim_next(), Some("films/x.mkv".to_string()));
    assert_eq!(engine.claim_next(), Some("top.mkv".to_string()));
    assert_eq!(engine.claim_next(), None);
}

#[test]
fn replaced_scan_ends_at_once() {
    let mut engine = Dispatcher::new();
    let mut old_scan = scan_files(&mut engine, "/old".to_string(), true).scan.unwrap();
    assert_eq!(old_scan.next_action(&mut engine), ScanAction::ListDirectory("/old".to_string()));

    let mut new_scan = scan_files(&mut engine, "/new".to_string(), true).scan.unwrap();
    assert_eq!(new_scan.epoch(), old_scan.epoch() + 1);

    // The old scan hands in its listing and would go on; it is told to stop.
    old_scan.add_listing(&[DirEntry { name: "o.mkv".to_string(), kind: EntryKind::File }]);
    assert_eq!(old_scan.next_action(&mut engine), ScanAction::Done);
    assert_eq!(old_scan.record_probe(&mut engine, &output("h264\n")), Recorded::Stale);
    assert_eq!(engine.status(), Status { total_files: 0, scanned_files: 0, queued_jobs: 0 });

    assert_eq!(new_scan.next_action(&mut engine), ScanAction::ListDirectory("/new".to_string()));
    new_scan.add_listing(&[DirEntry { name: "n.mkv".to_string(), kind: EntryKind::File }]);
    assert_eq!(new_scan.next_action(&mut engine), ScanAction::Probe("/new/n.mkv".to_string()));
    assert_eq!(old_scan.next_action(&mut engine), ScanAction::Done);
    assert_eq!(new_scan.record_probe(&mut engine, &output("h264\n")), Recorded::Queued);
    assert_eq!(new_scan.next_action(&mut engine), ScanAction::Done);
    assert_eq!(engine.claim_next(), Some("n.mkv".to_string()));
    assert_eq!(engine.claim_next(), None);
}

#[test]
fn scan_replaced_while_probing_leaves_no_job() {
    let mut engine = Dispatcher::new();
    let mut old_scan = scan_files(&mut engine, "/old".to_string(), true).scan.unwrap();
    assert_eq!(old_scan.next_action(&mut engine), ScanAction::ListDirectory("/old".to_string()));
    old_scan.add_listing(&[
        DirEntry { name: "1.mkv".to_string(), kind: EntryKind::File },
        DirEntry { name: "2.mkv".to_string(), kind: EntryKind::File },
    ]);
    assert_eq!(old_scan.next_action(&mut engine), ScanAction::Probe("/old/1.mkv".to_string()));
    assert_eq!(old_scan.record_probe(&mut engine, &output("h264\n")), Recorded::Queued);
    assert_eq!(old_scan.next_action(&mut engine), ScanAction::Probe("/old/2.mkv".to_string()));

    // A new scan starts while the probe of the second file is running.
    let _new_scan = scan_files(&mut engine, "/new".to_string(), true).scan.unwrap();
    assert_eq!(old_scan.record_probe(&mut engine, &output("h264\n")), Recorded::Stale);
    assert_eq!(old_scan.next_action(&mut engine), ScanAction::Done);
    assert_eq!(engine.status(), Status { total_files: 0, scanned_files: 0, queued_jobs: 0 });
    assert_eq!(engine.claim_next(), None);
}

#[test]
fn invalid_scan_target_is_rejected_without_change() {
    let (mut engine, epoch) = seeded(&["a.mkv", "b.mkv"]);
    let before = engine.status();

    assert_eq!(engine.trigger_scan("/does/not/exist".to_string(), false), Err(ScanError::InvalidRoot));
    assert_eq!(engine.status(), before);
    assert_eq!(engine.epoch(), epoch);
    assert_eq!(engine.root(), "/lib");

    let reply = scan_files(&mut engine, "/does/not/exist".to_string(), false);
    assert_eq!(reply.message, "Datei existiert nicht");
    assert!(reply.scan.is_none());
    assert_eq!(engine.status(), before);
    assert_eq!(engine.epoch(), epoch);
    assert_eq!(engine.root(), "/lib");

    // The scan that was running goes on as before.
    assert!(engine.load_inventory(epoch, &paths(&["/lib/c.mkv"])));
    assert_eq!(engine.record_probe(epoch, &output("h264\n")), Recorded::Queued);
    assert_eq!(engine.claim_next(), Some("a.mkv".to_string()));
    assert_eq!(engine.claim_next(), Some("b.mkv".to_string()));
    assert_eq!(engine.claim_next(), Some("c.mkv".to_string()));
}

#[test]
fn probe_failure_is_tolerated() {
    let mut engine = Dispatcher::new();
    let epoch = engine.trigger_scan("/lib".to_string(), true).unwrap();
    let inventory = paths(&["/lib/1.mkv", "/lib/2.mkv", "/lib/3.mkv", "/lib/4.mkv", "/lib/5.mkv"]);
    assert!(engine.load_inventory(epoch, &inventory));

    assert_eq!(engine.record_probe(epoch, &output("h264\nvideo\n")), Recorded::Queued);
    assert_eq!(engine.record_probe(epoch, &output("hevc\nvideo\n")), Recorded::Skipped);
    assert_eq!(engine.record_probe(epoch, &ProbeReport::Unavailable), Recorded::Failed);
    assert_eq!(engine.record_probe(epoch, &output("h264\nvideo\n")), Recorded::Queued);
    assert_eq!(engine.record_probe(epoch, &output("h264\nvideo\n")), Recorded::Queued);

    assert_eq!(engine.status(), Status { total_files: 5, scanned_files: 5, queued_jobs: 3 });
    assert_eq!(engine.probe_failures(), 1);
    assert_eq!(engine.claim_next(), Some("1.mkv".to_string()));
    assert_eq!(engine.claim_next(), Some("4.mkv".to_string()));
    assert_eq!(engine.claim_next(), Some("5.mkv".to_string()));
    assert_eq!(engine.claim_next(), None);
}

#[test]
fn empty_probe_output_counts_as_failure() {
    let mut engine = Dispatcher::new();
    let epoch = engine.trigger_scan("/lib".to_string(), true).unwrap();
    assert!(engine.load_inventory(epoch, &paths(&["/lib/1.mkv", "/lib/2.mkv"])));
    assert_eq!(engine.record_probe(epoch, &output("")), Recorded::Failed);
    assert_eq!(engine.record_probe(epoch, &output("\nh264\n")), Recorded::Failed);
    assert_eq!(engine.status(), Status { total_files: 2, scanned_files: 2, queued_jobs: 0 });
    assert_eq!(engine.probe_failures(), 2);
}

#[test]
fn every_job_is_claimed_once() {
    let names = ["a.mkv", "b.mkv", "c.mkv", "d.mkv", "e.mkv", "f.mkv", "g.mkv"];
    let (mut engine, _) = seeded(&names);
    let mut claimed: Vec<String> = Vec::new();
    for _ in 0..names.len() {
        claimed.push(engine.claim_next().unwrap());
    }
    assert_eq!(engine.claim_next(), None);
    for name in names {
        assert_eq!(claimed.iter().filter(|job| job.as_str() == name).count(), 1);
    }
    assert_eq!(claimed.len(), names.len());
}

#[test]
fn claims_are_first_in_first_out() {
    let (mut engine, _) = seeded(&["j1.mkv", "j2.mkv", "j3.mkv"]);
    assert_eq!(engine.claim_next(), Some("j1.mkv".to_string()));
    assert_eq!(engine.claim_next(), Some("j2.mkv".to_string()));
    assert_eq!(engine.claim_next(), Some("j3.mkv".to_string()));
    assert_eq!(engine.claim_next(), None);
}

#[test]
fn claims_between_reports_keep_the_order() {
    let mut engine = Dispatcher::new();
    let epoch = engine.trigger_scan("/lib".to_string(), true).unwrap();
    assert!(engine.load_inventory(epoch, &paths(&["/lib/j1.mkv", "/lib/j2.mkv", "/lib/j3.mkv"])));
    assert_eq!(engine.claim_next(), None);
    assert_eq!(engine.record_probe(epoch, &output("h264\n")), Recorded::Queued);
    assert_eq!(engine.record_probe(epoch, &output("h264\n")), Recorded::Queued);
    assert_eq!(engine.claim_next(), Some("j1.mkv".to_string()));
    assert_eq!(engine.record_probe(epoch, &output("h264\n")), Recorded::Queued);
    assert_eq!(engine.claim_next(), Some("j2.mkv".to_string()));
    assert_eq!(engine.claim_next(), Some("j3.mkv".to_string()));
    assert_eq!(engine.claim_next(), None);
}

#[test]
fn new_scan_replaces_the_old_one() {
    let (mut engine, old_epoch) = seeded(&["old1.mkv", "old2.mkv"]);
    assert!(engine.load_inventory(old_epoch, &paths(&["/lib/old3.mkv"])));

    let new_epoch = engine.trigger_scan("/new".to_string(), true).unwrap();
    assert_eq!(new_epoch, old_epoch + 1);
    assert_eq!(engine.root(), "/new");
    assert_eq!(engine.status(), Status { total_files: 0, scanned_files: 0, queued_jobs: 0 });
    assert_eq!(engine.claim_next(), None);

    // The old scan is still running; what it reports changes nothing.
    assert!(!engine.load_inventory(old_epoch, &paths(&["/new/late.mkv"])));
    assert_eq!(engine.next_probe(old_epoch), None);
    assert_eq!(engine.record_probe(old_epoch, &output("h264\n")), Recorded::Stale);
    assert_eq!(engine.status(), Status { total_files: 0, scanned_files: 0, queued_jobs: 0 });
    assert_eq!(engine.claim_next(), None);

    assert!(engine.load_inventory(new_epoch, &paths(&["/new/n.mkv"])));
    assert_eq!(engine.record_probe(old_epoch, &output("h264\n")), Recorded::Stale);
    assert_eq!(engine.record_probe(new_epoch, &output("h264\n")), Recorded::Queued);
    assert_eq!(engine.claim_next(), Some("n.mkv".to_string()));
    assert_eq!(engine.claim_next(), None);
}

#[test]
fn report_without_a_file_left_is_idle() {
    let (mut engine, epoch) = seeded(&["a.mkv"]);
    let before = engine.status();
    assert_eq!(engine.record_probe(epoch, &output("h264\n")), Recorded::Idle);
    assert_eq!(engine.record_probe(epoch, &ProbeReport::Unavailable), Recorded::Idle);
    assert_eq!(engine.status(), before);
    assert_eq!(engine.probe_failures(), 0);
}

#[test]
fn inventory_keeps_only_files_below_the_root() {
    let mut engine = Dispatcher::new();
    let epoch = engine.trigger_scan("/lib".to_string(), true).unwrap();
    let found = paths(&["/lib/a.mkv", "/elsewhere/b.mkv", "/library/c.mkv", "/lib", "/lib/sub/d.mkv"]);
    assert!(engine.load_inventory(epoch, &found));
    assert_eq!(engine.status(), Status { total_files: 2, scanned_files: 0, queued_jobs: 0 });
    assert_eq!(engine.next_probe(epoch), Some("/lib/a.mkv".to_string()));
    assert_eq!(engine.record_probe(epoch, &output("h264\n")), Recorded::Queued);
    assert_eq!(engine.next_probe(epoch), Some("/lib/sub/d.mkv".to_string()));
    assert_eq!(engine.record_probe(epoch, &output("h264\n")), Recorded::Queued);
    assert_eq!(engine.claim_next(), Some("a.mkv".to_string()));
    assert_eq!(engine.claim_next(), Some("sub/d.mkv".to_string()));
}

#[test]
fn inventory_grows_with_each_load() {
    let mut engine = Dispatcher::new();
    let epoch = engine.trigger_scan("/lib".to_string(), true).unwrap();
    assert!(engine.load_inventory(epoch, &paths(&["/lib/a.mkv"])));
    assert!(engine.load_inventory(epoch, &paths(&["/lib/b.mkv", "/lib/c.mkv"])));
    assert_eq!(engine.status(), Status { total_files: 3, scanned_files: 0, queued_jobs: 0 });
}

#[test]
fn clear_queue_keeps_root_and_epoch() {
    let (mut engine, epoch) = seeded(&["a.mkv", "b.mkv"]);
    engine.clear_queue();
    assert_eq!(engine.status(), Status { total_files: 0, scanned_files: 0, queued_jobs: 0 });
    assert_eq!(engine.probe_failures(), 0);
    assert_eq!(engine.epoch(), epoch);
    assert_eq!(engine.root(), "/lib");
    assert_eq!(engine.claim_next(), None);
}

#[test]
fn request_answers_with_the_job_or_nothing() {
    let (mut engine, _) = seeded(&["films/a.mkv"]);
    assert_eq!(request(&mut engine), "films/a.mkv");
    assert_eq!(request(&mut engine), "");
}

#[test]
fn base_reports_the_counters() {
    let engine = Dispatcher::new();
    assert_eq!(base(&engine), "Status:\nTotal Files: 0\nScanned Files: 0\nFiles To Convert: 0");

    let names: Vec<String> = (0..12).map(|i| format!("{}.mkv", i)).collect();
    let names: Vec<&str> = names.iter().map(|name| name.as_str()).collect();
    let (mut engine, epoch) = seeded(&names);
    assert!(engine.load_inventory(epoch, &paths(&["/lib/x.mkv"; 93])));
    engine.claim_next();
    engine.claim_next();
    assert_eq!(base(&engine), "Status:\nTotal Files: 105\nScanned Files: 12\nFiles To Convert: 10");
}

#[test]
fn failed_staging_leaves_the_destination_alone() {
    let phase = InstallPhase::start().advance(false);
    assert_eq!(phase, InstallPhase::Removing { installed: false });
    assert_eq!(phase.action(), Some(InstallAction::RemoveStaging));
    assert_eq!(phase.outcome(), None);
    let phase = phase.advance(true);
    assert_eq!(phase, InstallPhase::Finished { installed: false });
    assert_eq!(phase.action(), None);
    assert_eq!(phase.outcome(), Some(Err(StorageError)));
    assert_eq!(converted_reply(Err(StorageError)), "Fehler beim Speichern der Datei.");
}

#[test]
fn failed_commit_is_a_storage_error() {
    let phase = InstallPhase::start().advance(true).advance(false);
    assert_eq!(phase, InstallPhase::Removing { installed: false });
    let phase = phase.advance(false);
    assert_eq!(phase.outcome(), Some(Err(StorageError)));
}

#[test]
fn failed_removal_does_not_undo_the_install() {
    let phase = InstallPhase::start().advance(true).advance(true).advance(false);
    assert_eq!(phase, InstallPhase::Finished { installed: true });
    assert_eq!(phase.outcome(), Some(Ok(())));
    assert_eq!(phase.advance(false), InstallPhase::Finished { installed: true });
}
