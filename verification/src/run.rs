//! A whole scan, told of the tree that it walks and of what the probes say.
//!
//! The caller of a scan lists directories and probes files. Here both are
//! functions: the tree gives each directory's listing, and the probes give
//! each file's report. A scan run against them leaves the dispatcher with
//! the files of the tree as its inventory, all of them examined, and with
//! exactly those as jobs whose probe names the codec to convert, in the
//! order of the walk.

use vstd::prelude::*;
use crate::dispatch::{
    lemma_reports_are_counted, probe_errors, queued_by, DispatchState,
};
use crate::paths::{is_under, joined, lemma_all_below};
use crate::probe::ProbeReport;
use crate::scan::{Action, ScanState};
use crate::tree::{
    lemma_stack_on_stack, lemma_stacked_is_tree, level_below, stack_directories, stack_ends,
    stack_files, tree_directories, tree_ends, tree_files, Listings,
};
use crate::walk::{
    lemma_joined_stays_within, stacked, within, DirEntry, EntryKind, Item, WalkState,
};

verus! {

/// What the probe of each file reports.
pub type Probes = spec_fn(Seq<char>) -> ProbeReport;

/// The reports on `files`, in their order.
pub open spec fn reports_on(probes: Probes, files: Seq<Seq<char>>) -> Seq<ProbeReport> {
    Seq::new(files.len(), |i: int| probes(files[i]))
}

/// The dispatcher after the scan has been asked for up to `steps` actions,
/// each carried out against the tree and the probes and handed in.
pub open spec fn run(
    scan: ScanState,
    engine: DispatchState,
    tree: Listings,
    probes: Probes,
    steps: nat,
) -> DispatchState
    decreases steps,
{
    if steps == 0 {
        engine
    } else {
        match scan.action(engine) {
            Action::ListDirectory(dir) => run(
                scan.stepped(engine).listed(tree(dir)),
                scan.engine_stepped(engine),
                tree,
                probes,
                (steps - 1) as nat,
            ),
            Action::Probe(file) => run(
                scan.stepped(engine),
                scan.engine_stepped(engine).probe_recorded(scan.epoch, probes(file)),
                tree,
                probes,
                (steps - 1) as nat,
            ),
            Action::Done => scan.engine_stepped(engine),
        }
    }
}

/// The files of a tree lie below the directory that the tree hangs from.
pub proof fn lemma_tree_files_below(
    tree: Listings,
    root: Seq<char>,
    dir: Seq<char>,
    entries: Seq<DirEntry>,
    depth: nat,
)
    requires
        within(root, dir),
    ensures
        forall|i: int|
            0 <= i < tree_files(tree, dir, entries, depth).len() ==> is_under(
                root,
                #[trigger] tree_files(tree, dir, entries, depth)[i],
            ),
    decreases depth, entries.len(),
{
    if entries.len() > 0 {
        let path = joined(dir, entries[0].name@);
        let rest = tree_files(tree, dir, entries.drop_first(), depth);
        let all = tree_files(tree, dir, entries, depth);
        lemma_joined_stays_within(root, dir, entries[0].name@);
        lemma_tree_files_below(tree, root, dir, entries.drop_first(), depth);
        if entries[0].kind == EntryKind::Directory && depth > 0 {
            lemma_tree_files_below(tree, root, path, tree(path), (depth - 1) as nat);
        }
        let first = all.take(all.len() - rest.len());
        assert(all =~= first + rest);
        assert forall|i: int| 0 <= i < all.len() implies is_under(root, #[trigger] all[i]) by {
            if i < first.len() {
                match entries[0].kind {
                    EntryKind::File => {
                        assert(first =~= seq![path]);
                    },
                    EntryKind::Directory => {
                        if depth > 0 {
                            let inner = tree_files(tree, path, tree(path), (depth - 1) as nat);
                            assert(first =~= inner);
                            assert(all[i] == inner[i]);
                        } else {
                            assert(first =~= Seq::<Seq<char>>::empty());
                        }
                    },
                    EntryKind::Other => {
                        assert(first =~= Seq::<Seq<char>>::empty());
                    },
                }
            } else {
                assert(all[i] == rest[i - first.len()]);
            }
        }
    }
}

/// Reports handed in one after the other: the first, and then the rest.
pub proof fn lemma_first_report(s: DispatchState, epoch: nat, reports: Seq<ProbeReport>)
    requires
        reports.len() > 0,
    ensures
        s.after_reports(epoch, reports) == s.probe_recorded(epoch, reports[0]).after_reports(
            epoch,
            reports.drop_first(),
        ),
    decreases reports.len(),
{
    let first = s.probe_recorded(epoch, reports[0]);
    if reports.len() == 1 {
        assert(reports.drop_last() =~= Seq::<ProbeReport>::empty());
        assert(reports.drop_first() =~= Seq::<ProbeReport>::empty());
        assert(s.after_reports(epoch, reports.drop_last()) == s);
        assert(first.after_reports(epoch, reports.drop_first()) == first);
    } else {
        lemma_first_report(s, epoch, reports.drop_last());
        assert(reports.drop_last().drop_first() =~= reports.drop_first().drop_last());
        assert(reports.drop_last()[0] == reports[0]);
        assert(reports.drop_first().last() == reports.last());
    }
}

/// A scan that walks is seen through where its walk comes to rest.
proof fn lemma_run_sees_settled(
    a: ScanState,
    b: ScanState,
    engine: DispatchState,
    tree: Listings,
    probes: Probes,
    steps: nat,
)
    requires
        a.epoch == b.epoch,
        !a.loaded,
        !b.loaded,
        a.walk.settled() == b.walk.settled(),
    ensures
        run(a, engine, tree, probes, steps) == run(b, engine, tree, probes, steps),
{
    if steps > 0 {
        assert(a.action(engine) == b.action(engine));
        assert(a.engine_stepped(engine) == b.engine_stepped(engine));
        if a.walks(engine) {
            assert(a.stepped(engine) == b.stepped(engine));
        }
    }
}

/// While a scan walks, each step is one listing, and after as many steps as
/// its stack asks for listings the walk has found the files that the stack
/// stood for.
proof fn lemma_run_walks(
    scan: ScanState,
    engine: DispatchState,
    tree: Listings,
    probes: Probes,
    depths: Seq<nat>,
    more: nat,
)
    requires
        !scan.loaded,
        scan.epoch == engine.epoch,
        scan.walk.awaiting is None,
        stack_ends(tree, scan.walk.stack, depths),
    ensures
        run(scan, engine, tree, probes, stack_directories(tree, scan.walk.stack, depths) + more)
            == run(
            ScanState {
                walk: WalkState {
                    stack: Seq::empty(),
                    files: scan.walk.files + stack_files(tree, scan.walk.stack, depths),
                    ..scan.walk
                },
                ..scan
            },
            engine,
            tree,
            probes,
            more,
        ),
    decreases stack_directories(tree, scan.walk.stack, depths), scan.walk.stack.len(),
{
    let w = scan.walk;
    let steps = stack_directories(tree, w.stack, depths) + more;
    let rested = ScanState {
        walk: WalkState {
            stack: Seq::empty(),
            files: w.files + stack_files(tree, w.stack, depths),
            ..w
        },
        ..scan
    };
    if w.stack.len() == 0 {
        assert(rested.walk.files =~= w.files);
        assert(rested.walk.stack =~= w.stack);
        assert(rested =~= scan);
    } else if !w.stack.last().directory {
        let next = WalkState {
            stack: w.stack.drop_last(),
            files: w.files.push(w.stack.last().path),
            ..w
        };
        let next_scan = ScanState { walk: next, ..scan };
        assert(w.settled() == next.settled());
        lemma_run_sees_settled(scan, next_scan, engine, tree, probes, steps);
        lemma_run_walks(next_scan, engine, tree, probes, depths.drop_last(), more);
        assert(next.files + stack_files(tree, next.stack, depths.drop_last()) =~= w.files
            + stack_files(tree, w.stack, depths));
    } else {
        let dir = w.stack.last().path;
        let depth = depths.last();
        let under = w.stack.drop_last();
        let under_depths = depths.drop_last();
        let entries = tree(dir);
        let top = stacked(dir, entries);
        let top_depths = Seq::new(top.len(), |i: int| level_below(depth));
        let next = WalkState { stack: under + top, awaiting: None, ..w };
        let next_scan = ScanState { walk: next, ..scan };
        assert(w.settled().awaiting == Some(dir));
        assert(scan.action(engine) == Action::ListDirectory(dir));
        assert(!scan.hands_over(engine));
        assert(scan.stepped(engine).listed(entries) =~= next_scan);
        assert(run(scan, engine, tree, probes, steps) == run(
            next_scan,
            engine,
            tree,
            probes,
            (steps - 1) as nat,
        ));
        assert(w.stack[w.stack.len() - 1].directory);
        lemma_stacked_is_tree(tree, dir, entries, depth);
        lemma_stack_on_stack(tree, under, under_depths, top, top_depths);
        assert(stack_ends(tree, next.stack, under_depths + top_depths)) by {
            assert forall|i: int|
                0 <= i < next.stack.len() && (#[trigger] next.stack[i]).directory implies tree_ends(
                tree,
                next.stack[i].path,
                tree(next.stack[i].path),
                (under_depths + top_depths)[i],
            ) by {
                if i < under.len() {
                    assert(next.stack[i] == w.stack[i]);
                } else {
                    assert(next.stack[i] == top[i - under.len()]);
                }
            }
        }
        lemma_run_walks(next_scan, engine, tree, probes, under_depths + top_depths, more);
        assert(next.files + stack_files(tree, next.stack, under_depths + top_depths) =~= w.files
            + stack_files(tree, w.stack, depths));
    }
}

/// Once the inventory is loaded, each step is one probe, until every file
/// has been examined.
proof fn lemma_run_probes(
    scan: ScanState,
    engine: DispatchState,
    tree: Listings,
    probes: Probes,
    more: nat,
)
    requires
        scan.loaded,
        scan.epoch == engine.epoch,
        engine.scanned <= engine.inventory.len(),
    ensures
        run(scan, engine, tree, probes, (engine.inventory.len() - engine.scanned + 1 + more) as nat)
            == engine.after_reports(
            engine.epoch,
            reports_on(probes, engine.inventory.skip(engine.scanned as int)),
        ),
    decreases engine.inventory.len() - engine.scanned,
{
    let left = engine.inventory.skip(engine.scanned as int);
    let reports = reports_on(probes, left);
    if engine.scanned == engine.inventory.len() {
        assert(scan.action(engine) == Action::Done);
    } else {
        let file = engine.inventory[engine.scanned as int];
        assert(scan.action(engine) == Action::Probe(file));
        let next = engine.probe_recorded(scan.epoch, probes(file));
        assert(next.scanned == engine.scanned + 1);
        lemma_run_probes(scan, next, tree, probes, more);
        assert(reports[0] == probes(file));
        assert(reports.drop_first() =~= reports_on(probes, next.inventory.skip(next.scanned as int)));
        lemma_first_report(engine, engine.epoch, reports);
    }
}

/// The dispatcher that a finished scan of `files` leaves behind, where
/// `engine` is the dispatcher on which the scan began.
pub open spec fn scanned_through(
    engine: DispatchState,
    files: Seq<Seq<char>>,
    probes: Probes,
) -> DispatchState {
    DispatchState {
        inventory: files,
        scanned: files.len(),
        failures: probe_errors(reports_on(probes, files)),
        pending: queued_by(0, reports_on(probes, files)),
        ..engine
    }
}

/// The stack at the start of a walk stands for the tree below the root.
proof fn lemma_start_stands_for_tree(tree: Listings, root: Seq<char>, depth: nat)
    requires
        tree_ends(tree, root, tree(root), depth),
    ensures
        stack_ends(tree, WalkState::start(root).stack, seq![depth]),
        stack_directories(tree, WalkState::start(root).stack, seq![depth]) == 1 + tree_directories(
            tree,
            root,
            tree(root),
            depth,
        ),
        WalkState::start(root).files + stack_files(tree, WalkState::start(root).stack, seq![depth])
            == tree_files(tree, root, tree(root), depth),
{
    let w = WalkState::start(root);
    let depths = seq![depth];
    assert(w.stack.drop_last() =~= Seq::<Item>::empty());
    assert(depths.drop_last() =~= Seq::<nat>::empty());
    assert(stack_directories(tree, w.stack.drop_last(), depths.drop_last()) == 0);
    assert(stack_files(tree, w.stack.drop_last(), depths.drop_last()) =~= Seq::<Seq<char>>::empty());
    assert(w.files + stack_files(tree, w.stack, depths) =~= tree_files(
        tree,
        root,
        tree(root),
        depth,
    ));
}

/// When its walk has ended, the scan hands its files over, and goes on as a
/// scan does whose inventory is loaded.
proof fn lemma_run_hands_over(
    scan: ScanState,
    engine: DispatchState,
    tree: Listings,
    probes: Probes,
    steps: nat,
)
    requires
        steps > 0,
        !scan.loaded,
        scan.epoch == engine.epoch,
        scan.walk.awaiting is None,
        scan.walk.stack.len() == 0,
    ensures
        run(scan, engine, tree, probes, steps) == run(
            ScanState { loaded: true, ..scan },
            engine.inventory_loaded(engine.epoch, scan.walk.files),
            tree,
            probes,
            steps,
        ),
{
    let loaded_scan = ScanState { loaded: true, ..scan };
    let loaded = engine.inventory_loaded(engine.epoch, scan.walk.files);
    assert(scan.walk.settled() == scan.walk);
    assert(scan.stepped(engine) =~= loaded_scan);
    assert(scan.engine_stepped(engine) == loaded);
    assert(loaded_scan.stepped(loaded) == loaded_scan);
    assert(loaded_scan.engine_stepped(loaded) == loaded);
    assert(scan.action(engine) == loaded_scan.action(loaded));
}

/// A scan does what it is for. Begun on a dispatcher that has just started
/// it, and run against a tree that ends within `depth` levels, the scan
/// leaves the dispatcher with the files of the tree as its inventory, in the
/// order of the walk, and every one of them examined; the jobs are the files
/// whose probe names the codec to convert, in that order, and the probes
/// that gave no label are counted. It takes one step for each directory,
/// one for each file, and one to see that nothing is left.
pub proof fn lemma_scan_fills_inventory_and_queue(
    before: DispatchState,
    root: Seq<char>,
    tree: Listings,
    probes: Probes,
    depth: nat,
    spare: nat,
)
    requires
        tree_ends(tree, root, tree(root), depth),
    ensures
        run(
            ScanState::begun(before.scan_started(root).epoch, root),
            before.scan_started(root),
            tree,
            probes,
            1 + tree_directories(tree, root, tree(root), depth) + tree_files(
                tree,
                root,
                tree(root),
                depth,
            ).len() + 1 + spare,
        ) == scanned_through(
            before.scan_started(root),
            tree_files(tree, root, tree(root), depth),
            probes,
        ),
{
    let engine = before.scan_started(root);
    let scan = ScanState::begun(engine.epoch, root);
    let files = tree_files(tree, root, tree(root), depth);
    let reports = reports_on(probes, files);
    let probing = (files.len() + 1 + spare) as nat;
    let listing = 1 + tree_directories(tree, root, tree(root), depth);
    let rested = ScanState {
        walk: WalkState { stack: Seq::empty(), files, ..scan.walk },
        ..scan
    };
    let loaded_scan = ScanState { loaded: true, ..rested };
    let loaded = engine.inventory_loaded(engine.epoch, files);

    assert(run(scan, engine, tree, probes, listing + probing) == run(
        rested,
        engine,
        tree,
        probes,
        probing,
    )) by {
        lemma_start_stands_for_tree(tree, root, depth);
        lemma_run_walks(scan, engine, tree, probes, seq![depth], probing);
    }
    assert(run(rested, engine, tree, probes, probing) == run(
        loaded_scan,
        loaded,
        tree,
        probes,
        probing,
    )) by {
        lemma_run_hands_over(rested, engine, tree, probes, probing);
    }
    assert(loaded == (DispatchState { inventory: files, ..engine })) by {
        lemma_tree_files_below(tree, root, root, tree(root), depth);
        lemma_all_below(root, files);
        assert(engine.inventory + files =~= files);
    }
    assert(run(loaded_scan, loaded, tree, probes, probing) == loaded.after_reports(
        loaded.epoch,
        reports,
    )) by {
        lemma_run_probes(loaded_scan, loaded, tree, probes, spare);
        assert(loaded.inventory.skip(0) =~= files);
    }
    assert(loaded.after_reports(loaded.epoch, reports) == scanned_through(engine, files, probes))
        by {
        lemma_reports_are_counted(loaded, reports);
        assert(loaded.pending + queued_by(0, reports) =~= queued_by(0, reports));
    }
}

} // verus!
