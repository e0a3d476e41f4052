//! The directory scanner: walks a directory tree and finds its files.
//!
//! Reading a directory is the caller's work. A [`Walker`] decides what is to
//! be read next and what becomes of each entry: it names a directory, the
//! caller lists it, and the walker takes the entries from there. Files come
//! out in the order of a depth-first walk that follows each listing: what
//! lies below a directory stands where the directory stood in its listing.

use vstd::prelude::*;
use crate::paths::{is_under, joined, path_views, resolve};

verus! {

/// What kind of thing an entry of a directory is.
#[derive(Clone, Copy, Debug, PartialEq, Eq, Structural)]
pub enum EntryKind {
    /// A regular file.
    File,
    /// A directory.
    Directory,
    /// Anything else; the walk passes it by.
    Other,
}

/// One entry of a directory listing.
#[derive(Debug)]
pub struct DirEntry {
    /// The entry's name within its directory.
    pub name: String,
    /// What the entry is.
    pub kind: EntryKind,
}

/// A path that the walk still has to deal with.
pub struct Item {
    /// The path.
    pub path: Seq<char>,
    /// Whether it is a directory, to be listed, or a file, to be reported.
    pub directory: bool,
}

/// The mathematical state of a walk.
#[verifier::ext_equal]
pub struct WalkState {
    /// The directory at which the walk began.
    pub root: Seq<char>,
    /// What is still to be dealt with; the last item comes next.
    pub stack: Seq<Item>,
    /// The files found so far, in the order of the walk.
    pub files: Seq<Seq<char>>,
    /// The directory whose listing the walk waits for.
    pub awaiting: Option<Seq<char>>,
}

/// What the entries of the directory `dir` put on the stack: files and
/// directories, the first entry last, so that it is dealt with first.
pub open spec fn stacked(dir: Seq<char>, entries: Seq<DirEntry>) -> Seq<Item>
    decreases entries.len(),
{
    if entries.len() == 0 {
        Seq::empty()
    } else {
        let rest = stacked(dir, entries.drop_first());
        match entries[0].kind {
            EntryKind::Other => rest,
            EntryKind::File => rest.push(
                Item { path: joined(dir, entries[0].name@), directory: false },
            ),
            EntryKind::Directory => rest.push(
                Item { path: joined(dir, entries[0].name@), directory: true },
            ),
        }
    }
}

/// `path` is `root` or lies below it.
pub open spec fn within(root: Seq<char>, path: Seq<char>) -> bool {
    path == root || is_under(root, path)
}

impl WalkState {
    /// A walk of `root` of which nothing has been done yet.
    pub open spec fn start(root: Seq<char>) -> WalkState {
        WalkState {
            root,
            stack: seq![Item { path: root, directory: true }],
            files: Seq::empty(),
            awaiting: None,
        }
    }

    /// The walk's invariant: it never leaves its root. The files, found or
    /// still to be reported, lie below the root, and the directories still
    /// to be listed are the root or lie below it.
    pub open spec fn valid(self) -> bool {
        &&& forall|i: int| 0 <= i < self.files.len() ==> is_under(self.root, #[trigger] self.files[i])
        &&& forall|i: int|
            0 <= i < self.stack.len() ==> if (#[trigger] self.stack[i]).directory {
                within(self.root, self.stack[i].path)
            } else {
                is_under(self.root, self.stack[i].path)
            }
        &&& self.awaiting matches Some(dir) ==> within(self.root, dir)
    }

    /// The walk has dealt with everything.
    pub open spec fn finished(self) -> bool {
        self.awaiting is None && self.stack.len() == 0
    }

    /// The walk taken on to where it needs a listing or has finished: the
    /// files on top of the stack are reported, and the first directory that
    /// comes up is the one to list. A walk that waits for a listing stays as
    /// it is.
    pub open spec fn settled(self) -> WalkState
        decreases self.stack.len(),
    {
        if self.awaiting is Some || self.stack.len() == 0 {
            self
        } else if self.stack.last().directory {
            WalkState {
                stack: self.stack.drop_last(),
                awaiting: Some(self.stack.last().path),
                ..self
            }
        } else {
            (WalkState {
                stack: self.stack.drop_last(),
                files: self.files.push(self.stack.last().path),
                ..self
            }).settled()
        }
    }

    /// The walk after the listing it waited for has come in: the entries are
    /// next in line, in their order. A walk that waited for none stays as it
    /// is.
    pub open spec fn listed(self, entries: Seq<DirEntry>) -> WalkState {
        match self.awaiting {
            None => self,
            Some(dir) => WalkState {
                stack: self.stack + stacked(dir, entries),
                awaiting: None,
                ..self
            },
        }
    }
}

/// A path on the walker's stack.
struct Pending {
    path: String,
    directory: bool,
}

impl View for Pending {
    type V = Item;

    closed spec fn view(&self) -> Item {
        Item { path: self.path@, directory: self.directory }
    }
}

/// A walk of a directory tree in progress.
pub struct Walker {
    root: String,
    stack: Vec<Pending>,
    files: Vec<String>,
    awaiting: Option<String>,
}

impl View for Walker {
    type V = WalkState;

    closed spec fn view(&self) -> WalkState {
        WalkState {
            root: self.root@,
            stack: self.stack@.map_values(|item: Pending| item@),
            files: path_views(self.files@),
            awaiting: match self.awaiting {
                Some(dir) => Some(dir@),
                None => None,
            },
        }
    }
}

impl Walker {
    /// Begins a walk of the directory `root`.
    pub fn new(root: &str) -> (out: Walker)
        ensures
            out@ == WalkState::start(root@),
    {
        let mut stack: Vec<Pending> = Vec::new();
        stack.push(Pending { path: String::from_str(root), directory: true });
        let out = Walker {
            root: String::from_str(root),
            stack,
            files: Vec::new(),
            awaiting: None,
        };
        assert(out@ =~= WalkState::start(root@));
        out
    }

    /// Takes the walk on and names the directory that is to be listed next;
    /// none once the walk has finished. Until the listing has been handed
    /// in, a further call names the same directory.
    pub fn next_directory(&mut self) -> (out: Option<String>)
        ensures
            final(self)@ == old(self)@.settled(),
            match out {
                Some(dir) => final(self)@.awaiting == Some(dir@),
                None => final(self)@.finished(),
            },
    {
        loop
            invariant
                self@.settled() == old(self)@.settled(),
            decreases self.stack.len(),
        {
            if let Some(dir) = &self.awaiting {
                return Some(dir.clone());
            }
            let ghost before = self@;
            match self.stack.pop() {
                None => {
                    return None;
                },
                Some(top) => {
                    assert(top@ == before.stack.last());
                    if top.directory {
                        self.awaiting = Some(top.path);
                        assert(self@ =~= before.settled());
                    } else {
                        self.files.push(top.path);
                        assert(self@ =~= (WalkState {
                            stack: before.stack.drop_last(),
                            files: before.files.push(before.stack.last().path),
                            ..before
                        }));
                    }
                },
            }
        }
    }

    /// Hands in the listing of the directory that the walk waits for: its
    /// files and directories are dealt with next, in the order of the
    /// listing. Without a directory waited for, nothing changes.
    pub fn add_listing(&mut self, entries: &[DirEntry])
        ensures
            final(self)@ == old(self)@.listed(entries@),
    {
        let dir = match self.awaiting.take() {
            None => {
                assert(self@ =~= old(self)@);
                return ;
            },
            Some(dir) => dir,
        };
        let mut i: usize = entries.len();
        assert(entries@.skip(i as int) =~= Seq::<DirEntry>::empty());
        assert(self@.stack =~= old(self)@.stack + stacked(dir@, entries@.skip(i as int)));
        while i > 0
            invariant
                i <= entries.len(),
                old(self)@.awaiting == Some(dir@),
                self@ == (WalkState {
                    stack: old(self)@.stack + stacked(dir@, entries@.skip(i as int)),
                    awaiting: None,
                    ..old(self)@
                }),
            decreases i,
        {
            i -= 1;
            let ghost before = self@;
            proof {
                assert(entries@.skip(i as int).drop_first() =~= entries@.skip(i + 1));
                assert(entries@.skip(i as int)[0] == entries@[i as int]);
            }
            let entry = &entries[i];
            match entry.kind {
                EntryKind::Other => {},
                EntryKind::File => {
                    let path = resolve(dir.as_str(), entry.name.as_str());
                    self.stack.push(Pending { path, directory: false });
                    assert(self@.stack =~= before.stack.push(
                        Item { path: joined(dir@, entry.name@), directory: false },
                    ));
                },
                EntryKind::Directory => {
                    let path = resolve(dir.as_str(), entry.name.as_str());
                    self.stack.push(Pending { path, directory: true });
                    assert(self@.stack =~= before.stack.push(
                        Item { path: joined(dir@, entry.name@), directory: true },
                    ));
                },
            }
            assert(self@ =~= (WalkState {
                stack: old(self)@.stack + stacked(dir@, entries@.skip(i as int)),
                awaiting: None,
                ..old(self)@
            }));
        }
        assert(entries@.skip(0) =~= entries@);
    }

    /// The files found so far, in the order of the walk.
    pub fn found(&self) -> (out: &Vec<String>)
        ensures
            path_views(out@) == self@.files,
    {
        &self.files
    }

    /// Whether the walk has dealt with everything.
    pub fn is_finished(&self) -> (out: bool)
        ensures
            out == self@.finished(),
    {
        self.awaiting.is_none() && self.stack.len() == 0
    }

    /// Ends the walk and gives the files found, in the order of the walk.
    pub fn into_files(self) -> (out: Vec<String>)
        ensures
            path_views(out@) == self@.files,
    {
        self.files
    }
}

/// What lies in a directory of the walk lies below the walk's root.
pub proof fn lemma_joined_stays_within(root: Seq<char>, dir: Seq<char>, name: Seq<char>)
    requires
        within(root, dir),
    ensures
        is_under(root, joined(dir, name)),
{
    let path = joined(dir, name);
    assert(path.take(root.len() as int) =~= root) by {
        if dir != root {
            assert(dir.take(root.len() as int) == root);
            assert(path.take(root.len() as int) =~= dir.take(root.len() as int));
        }
    }
}

/// Whatever a listing puts on the stack lies below the directory listed.
pub proof fn lemma_stacked_within(root: Seq<char>, dir: Seq<char>, entries: Seq<DirEntry>)
    requires
        within(root, dir),
    ensures
        forall|i: int|
            0 <= i < stacked(dir, entries).len() ==> is_under(
                root,
                (#[trigger] stacked(dir, entries)[i]).path,
            ),
    decreases entries.len(),
{
    if entries.len() > 0 {
        let rest = stacked(dir, entries.drop_first());
        lemma_stacked_within(root, dir, entries.drop_first());
        lemma_joined_stays_within(root, dir, entries[0].name@);
        assert forall|i: int| 0 <= i < stacked(dir, entries).len() implies is_under(
            root,
            (#[trigger] stacked(dir, entries)[i]).path,
        ) by {
            if i < rest.len() {
                assert(stacked(dir, entries)[i] == rest[i]);
            }
        }
    }
}

/// A walk that has been taken on waits for a listing or has finished, and
/// taking it on once more changes nothing. The files it had found are still
/// the first of its files.
pub proof fn lemma_settled_rests(w: WalkState)
    ensures
        w.settled().awaiting is Some || w.settled().finished(),
        w.settled().settled() == w.settled(),
        w.settled().root == w.root,
        w.files.len() <= w.settled().files.len(),
        w.settled().files.take(w.files.len() as int) == w.files,
    decreases w.stack.len(),
{
    if w.awaiting is Some || w.stack.len() == 0 {
        assert(w.files.take(w.files.len() as int) =~= w.files);
    } else if w.stack.last().directory {
        assert(w.files.take(w.files.len() as int) =~= w.files);
    } else {
        let next = WalkState {
            stack: w.stack.drop_last(),
            files: w.files.push(w.stack.last().path),
            ..w
        };
        lemma_settled_rests(next);
        assert(next.settled().files.take(w.files.len() as int) =~= next.settled().files.take(
            next.files.len() as int,
        ).take(w.files.len() as int));
        assert(next.files.take(w.files.len() as int) =~= w.files);
    }
}

/// A walk never leaves its root: it begins within it, and neither taking it
/// on nor handing in a listing leads outside. Every file found lies below
/// the root.
pub proof fn lemma_walk_stays_below_root(w: WalkState, root: Seq<char>, entries: Seq<DirEntry>)
    requires
        w.valid(),
    ensures
        WalkState::start(root).valid(),
        w.settled().valid(),
        w.listed(entries).valid(),
    decreases w.stack.len(),
{
    if !(w.awaiting is Some || w.stack.len() == 0) && !w.stack.last().directory {
        let next = WalkState {
            stack: w.stack.drop_last(),
            files: w.files.push(w.stack.last().path),
            ..w
        };
        assert(is_under(w.root, w.stack[w.stack.len() - 1].path));
        lemma_walk_stays_below_root(next, root, entries);
    }
    if let Some(dir) = w.awaiting {
        lemma_stacked_within(w.root, dir, entries);
    }
}

} // verus!
