//! What a walk finds, told of the tree that it walks.
//!
//! The tree is given by its listings: a function from each directory's path
//! to the entries that listing it gives. A walk whose caller answers every
//! request with that listing finds the files of the tree, in depth-first
//! order, provided that the tree has an end: that below some depth no
//! directory holds another.

use vstd::prelude::*;
use crate::paths::joined;
use crate::walk::{stacked, DirEntry, EntryKind, Item, WalkState};

verus! {

/// The listings of a tree: what listing the directory at a path gives.
pub type Listings = spec_fn(Seq<char>) -> Seq<DirEntry>;

/// One level less, and none below none.
pub open spec fn level_below(depth: nat) -> nat {
    if depth > 0 {
        (depth - 1) as nat
    } else {
        0
    }
}

/// The files of the directory `dir` with the entries `entries`, and of the
/// directories below it down to `depth` levels, in the order of a
/// depth-first walk that follows the listings.
pub open spec fn tree_files(tree: Listings, dir: Seq<char>, entries: Seq<DirEntry>, depth: nat) -> Seq<
    Seq<char>,
>
    decreases depth, entries.len(),
{
    if entries.len() == 0 {
        Seq::empty()
    } else {
        let path = joined(dir, entries[0].name@);
        let first = match entries[0].kind {
            EntryKind::File => seq![path],
            EntryKind::Directory => if depth > 0 {
                tree_files(tree, path, tree(path), (depth - 1) as nat)
            } else {
                Seq::empty()
            },
            EntryKind::Other => Seq::empty(),
        };
        first + tree_files(tree, dir, entries.drop_first(), depth)
    }
}

/// Whether the tree below `dir` ends within `depth` levels: `entries` holds
/// a directory only where `depth` is not 0, and that directory ends within
/// one level less.
pub open spec fn tree_ends(tree: Listings, dir: Seq<char>, entries: Seq<DirEntry>, depth: nat) -> bool
    decreases depth, entries.len(),
{
    if entries.len() == 0 {
        true
    } else {
        let path = joined(dir, entries[0].name@);
        &&& entries[0].kind == EntryKind::Directory ==> depth > 0 && tree_ends(
            tree,
            path,
            tree(path),
            (depth - 1) as nat,
        )
        &&& tree_ends(tree, dir, entries.drop_first(), depth)
    }
}

/// The number of directories below `dir`, down to `depth` levels.
pub open spec fn tree_directories(
    tree: Listings,
    dir: Seq<char>,
    entries: Seq<DirEntry>,
    depth: nat,
) -> nat
    decreases depth, entries.len(),
{
    if entries.len() == 0 {
        0
    } else {
        let path = joined(dir, entries[0].name@);
        let first: nat = if entries[0].kind == EntryKind::Directory && depth > 0 {
            1 + tree_directories(tree, path, tree(path), (depth - 1) as nat)
        } else {
            0
        };
        first + tree_directories(tree, dir, entries.drop_first(), depth)
    }
}

/// The walk `w` after its caller has answered up to `listings` requests,
/// each with the listing that the tree gives.
pub open spec fn walked(w: WalkState, tree: Listings, listings: nat) -> WalkState
    decreases listings,
{
    let rests = w.settled();
    if listings == 0 || rests.awaiting is None {
        rests
    } else {
        walked(rests.listed(tree(rests.awaiting->0)), tree, (listings - 1) as nat)
    }
}

/// The files that one item of the stack stands for.
pub open spec fn item_files(tree: Listings, item: Item, depth: nat) -> Seq<Seq<char>> {
    if item.directory {
        tree_files(tree, item.path, tree(item.path), depth)
    } else {
        seq![item.path]
    }
}

/// The files that a stack stands for, the last item's first.
pub open spec fn stack_files(tree: Listings, stack: Seq<Item>, depths: Seq<nat>) -> Seq<Seq<char>>
    decreases stack.len(),
{
    if stack.len() == 0 {
        Seq::empty()
    } else {
        item_files(tree, stack.last(), depths.last()) + stack_files(
            tree,
            stack.drop_last(),
            depths.drop_last(),
        )
    }
}

/// Whether every directory of a stack ends within the depth that goes with
/// it.
pub open spec fn stack_ends(tree: Listings, stack: Seq<Item>, depths: Seq<nat>) -> bool {
    &&& stack.len() == depths.len()
    &&& forall|i: int|
        0 <= i < stack.len() && (#[trigger] stack[i]).directory ==> tree_ends(
            tree,
            stack[i].path,
            tree(stack[i].path),
            depths[i],
        )
}

/// The number of listings that a stack asks for.
pub open spec fn stack_directories(tree: Listings, stack: Seq<Item>, depths: Seq<nat>) -> nat
    decreases stack.len(),
{
    if stack.len() == 0 {
        0
    } else {
        let last: nat = if stack.last().directory {
            1 + tree_directories(tree, stack.last().path, tree(stack.last().path), depths.last())
        } else {
            0
        };
        last + stack_directories(tree, stack.drop_last(), depths.drop_last())
    }
}

/// A stack on top of another stands for its own files and then for those of
/// the stack below, and asks for the listings of both.
pub proof fn lemma_stack_on_stack(
    tree: Listings,
    below: Seq<Item>,
    below_depths: Seq<nat>,
    top: Seq<Item>,
    top_depths: Seq<nat>,
)
    requires
        below.len() == below_depths.len(),
        top.len() == top_depths.len(),
    ensures
        stack_files(tree, below + top, below_depths + top_depths) == stack_files(
            tree,
            top,
            top_depths,
        ) + stack_files(tree, below, below_depths),
        stack_directories(tree, below + top, below_depths + top_depths) == stack_directories(
            tree,
            top,
            top_depths,
        ) + stack_directories(tree, below, below_depths),
    decreases top.len(),
{
    if top.len() == 0 {
        assert(below + top =~= below);
        assert(below_depths + top_depths =~= below_depths);
        assert(stack_files(tree, top, top_depths) + stack_files(tree, below, below_depths)
            =~= stack_files(tree, below, below_depths));
    } else {
        lemma_stack_on_stack(tree, below, below_depths, top.drop_last(), top_depths.drop_last());
        assert((below + top).drop_last() =~= below + top.drop_last());
        assert((below_depths + top_depths).drop_last() =~= below_depths + top_depths.drop_last());
        assert((below + top).last() == top.last());
        assert((below_depths + top_depths).last() == top_depths.last());
        assert(stack_files(tree, below + top, below_depths + top_depths) =~= stack_files(
            tree,
            top,
            top_depths,
        ) + stack_files(tree, below, below_depths));
    }
}

/// What a listing puts on the stack stands for the files of the directory
/// listed, and asks for the listings of the directories below it.
pub proof fn lemma_stacked_is_tree(tree: Listings, dir: Seq<char>, entries: Seq<DirEntry>, depth: nat)
    requires
        tree_ends(tree, dir, entries, depth),
    ensures
        stack_ends(
            tree,
            stacked(dir, entries),
            Seq::new(stacked(dir, entries).len(), |i: int| level_below(depth)),
        ),
        stack_files(
            tree,
            stacked(dir, entries),
            Seq::new(stacked(dir, entries).len(), |i: int| level_below(depth)),
        ) == tree_files(tree, dir, entries, depth),
        stack_directories(
            tree,
            stacked(dir, entries),
            Seq::new(stacked(dir, entries).len(), |i: int| level_below(depth)),
        ) == tree_directories(tree, dir, entries, depth),
    decreases entries.len(),
{
    let stack = stacked(dir, entries);
    let depths = Seq::new(stack.len(), |i: int| level_below(depth));
    if entries.len() > 0 {
        let rest = stacked(dir, entries.drop_first());
        let rest_depths = Seq::new(rest.len(), |i: int| level_below(depth));
        lemma_stacked_is_tree(tree, dir, entries.drop_first(), depth);
        if entries[0].kind == EntryKind::Other {
            assert(depths =~= rest_depths);
            assert(tree_files(tree, dir, entries, depth) =~= tree_files(
                tree,
                dir,
                entries.drop_first(),
                depth,
            ));
        } else {
            assert(stack.drop_last() =~= rest);
            assert(depths.drop_last() =~= rest_depths);
            assert(depths.last() == level_below(depth));
            assert forall|i: int| 0 <= i < stack.len() && (#[trigger] stack[i]).directory implies tree_ends(
                tree,
                stack[i].path,
                tree(stack[i].path),
                depths[i],
            ) by {
                if i < rest.len() {
                    assert(stack[i] == rest[i]);
                }
            }
        }
    }
}

/// A walk that is not waiting, and whose stack ends within the given depths,
/// comes to its end when its requests are answered from the tree, after as
/// many listings as the stack asks for, and has then found the files that
/// its stack stood for, after those it had found before.
pub proof fn lemma_walk_empties_stack(w: WalkState, tree: Listings, depths: Seq<nat>, spare: nat)
    requires
        w.awaiting is None,
        stack_ends(tree, w.stack, depths),
    ensures
        walked(w, tree, stack_directories(tree, w.stack, depths) + spare).finished(),
        walked(w, tree, stack_directories(tree, w.stack, depths) + spare).files == w.files
            + stack_files(tree, w.stack, depths),
        walked(w, tree, stack_directories(tree, w.stack, depths) + spare).root == w.root,
    decreases stack_directories(tree, w.stack, depths), w.stack.len(),
{
    let listings = stack_directories(tree, w.stack, depths) + spare;
    if w.stack.len() == 0 {
        assert(w.files + stack_files(tree, w.stack, depths) =~= w.files);
    } else if !w.stack.last().directory {
        let next = WalkState {
            stack: w.stack.drop_last(),
            files: w.files.push(w.stack.last().path),
            ..w
        };
        assert(w.settled() == next.settled());
        assert(walked(w, tree, listings) == walked(next, tree, listings));
        lemma_walk_empties_stack(next, tree, depths.drop_last(), spare);
        assert(next.files + stack_files(tree, next.stack, depths.drop_last()) =~= w.files
            + stack_files(tree, w.stack, depths));
    } else {
        let dir = w.stack.last().path;
        let depth = depths.last();
        let below = w.stack.drop_last();
        let below_depths = depths.drop_last();
        let entries = tree(dir);
        let top = stacked(dir, entries);
        let top_depths = Seq::new(top.len(), |i: int| level_below(depth));
        let next = WalkState { stack: below + top, awaiting: None, ..w };
        assert(w.settled().listed(entries) == next);
        assert(walked(w, tree, listings) == walked(next, tree, (listings - 1) as nat));
        assert(w.stack[w.stack.len() - 1].directory);
        lemma_stacked_is_tree(tree, dir, entries, depth);
        lemma_stack_on_stack(tree, below, below_depths, top, top_depths);
        assert(stack_ends(tree, next.stack, below_depths + top_depths)) by {
            assert forall|i: int|
                0 <= i < next.stack.len() && (#[trigger] next.stack[i]).directory implies tree_ends(
                tree,
                next.stack[i].path,
                tree(next.stack[i].path),
                (below_depths + top_depths)[i],
            ) by {
                if i < below.len() {
                    assert(next.stack[i] == w.stack[i]);
                } else {
                    assert(next.stack[i] == top[i - below.len()]);
                }
            }
        }
        lemma_walk_empties_stack(next, tree, below_depths + top_depths, spare);
        assert(next.files + stack_files(tree, next.stack, below_depths + top_depths) =~= w.files
            + stack_files(tree, w.stack, depths));
    }
}

/// A walk finds the files of its tree. Where the tree below `root` ends
/// within `depth` levels and every request of the walk is answered with the
/// listing that the tree gives, the walk finishes after one listing for the
/// root and one for each directory below it, however many more its caller
/// is ready to give, and has then found exactly the files of the tree, in
/// depth-first order.
pub proof fn lemma_walk_finds_the_tree(tree: Listings, root: Seq<char>, depth: nat, spare: nat)
    requires
        tree_ends(tree, root, tree(root), depth),
    ensures
        walked(
            WalkState::start(root),
            tree,
            1 + tree_directories(tree, root, tree(root), depth) + spare,
        ).finished(),
        walked(
            WalkState::start(root),
            tree,
            1 + tree_directories(tree, root, tree(root), depth) + spare,
        ).files == tree_files(tree, root, tree(root), depth),
{
    let w = WalkState::start(root);
    let depths = seq![depth];
    assert(w.stack.drop_last() =~= Seq::<Item>::empty());
    assert(depths.drop_last() =~= Seq::<nat>::empty());
    assert(stack_directories(tree, w.stack, depths) == 1 + tree_directories(
        tree,
        root,
        tree(root),
        depth,
    )) by {
        assert(stack_directories(tree, w.stack.drop_last(), depths.drop_last()) == 0);
    }
    assert(stack_files(tree, w.stack, depths) =~= tree_files(tree, root, tree(root), depth)) by {
        assert(stack_files(tree, w.stack.drop_last(), depths.drop_last()) =~= Seq::<
            Seq<char>,
        >::empty());
    }
    lemma_walk_empties_stack(w, tree, depths, spare);
    assert(w.files + stack_files(tree, w.stack, depths) =~= tree_files(
        tree,
        root,
        tree(root),
        depth,
    ));
}

} // verus!
