//! The tree walker: one depth-first pass over an in-memory snapshot of a
//! directory tree, filtering entries through a composed rule, driving
//! per-depth indentation state and counting what it kept.
//!
//! The walker records every call it would make on a rendering sink as an
//! event; an unverified front end takes the snapshot and replays the events
//! as output lines.

use crate::bytes::{copy_bytes, join_path, lemma_deep_view_push, spec_join};
use crate::rule::{spec_ignored, Rule};
use vstd::prelude::*;

verus! {

/// One node of a directory-tree snapshot: a name plus, for a directory, the
/// child nodes in the enumeration order the filesystem gave.
pub enum FsNode {
    File { name: Vec<u8> },
    Dir { name: Vec<u8>, children: Vec<FsNode> },
}

/// The name of a node.
pub open spec fn node_name(n: FsNode) -> Seq<u8> {
    match n {
        FsNode::File { name } => name@,
        FsNode::Dir { name, children } => name@,
    }
}

/// Whether a node is a directory.
pub open spec fn node_is_dir(n: FsNode) -> bool {
    match n {
        FsNode::File { name } => false,
        FsNode::Dir { name, children } => true,
    }
}

/// The children of a node; a file has none.
pub open spec fn node_children(n: FsNode) -> Seq<FsNode> {
    match n {
        FsNode::File { name } => Seq::empty(),
        FsNode::Dir { name, children } => children@,
    }
}

/// The number of nodes of a subtree, the node itself included.
pub open spec fn node_size(n: FsNode) -> int
    decreases n, 0int,
{
    match n {
        FsNode::File { name } => 1,
        FsNode::Dir { name, children } => 1 + size_from(children@, 0),
    }
}

/// The number of nodes of the subtrees rooted at `cs[i..]`.
pub open spec fn size_from(cs: Seq<FsNode>, i: int) -> int
    decreases cs, cs.len() - i,
{
    if i < 0 || i >= cs.len() {
        0
    } else {
        node_size(cs[i]) + size_from(cs, i + 1)
    }
}

proof fn lemma_node_size_pos(n: FsNode)
    ensures
        node_size(n) >= 1,
    decreases n, 0int,
{
    match n {
        FsNode::File { name } => {
        },
        FsNode::Dir { name, children } => {
            lemma_size_from_nonneg(children@, 0);
        },
    }
}

proof fn lemma_size_from_nonneg(cs: Seq<FsNode>, i: int)
    ensures
        size_from(cs, i) >= 0,
    decreases cs, cs.len() - i,
{
    if 0 <= i < cs.len() {
        lemma_node_size_pos(cs[i]);
        lemma_size_from_nonneg(cs, i + 1);
    }
}

proof fn lemma_size_from_antitone(cs: Seq<FsNode>, i: int, k: int)
    requires
        0 <= i <= k,
    ensures
        size_from(cs, k) <= size_from(cs, i),
    decreases k - i,
{
    if i < k {
        if i < cs.len() {
            lemma_node_size_pos(cs[i]);
            lemma_size_from_antitone(cs, i + 1, k);
        } else {
            lemma_size_from_nonneg(cs, i);
            lemma_size_from_nonneg(cs, k);
        }
    }
}

proof fn lemma_size_element(cs: Seq<FsNode>, i: int, k: int)
    requires
        0 <= i <= k < cs.len(),
    ensures
        node_size(cs[k]) <= size_from(cs, i),
    decreases k - i,
{
    if i == k {
        lemma_size_from_nonneg(cs, i + 1);
    } else {
        lemma_node_size_pos(cs[i]);
        lemma_size_element(cs, i + 1, k);
    }
}

/// The positions, from `i` on, of the children that pass the rule filter:
/// those whose joined path the rule does not ignore.
pub open spec fn match_idxs_from(rule: Rule, dir: Seq<u8>, cs: Seq<FsNode>, i: int) -> Seq<int>
    decreases cs.len() - i,
{
    if i < 0 || i >= cs.len() {
        Seq::empty()
    } else if !spec_ignored(rule, spec_join(dir, node_name(cs[i])), node_is_dir(cs[i])) {
        seq![i] + match_idxs_from(rule, dir, cs, i + 1)
    } else {
        match_idxs_from(rule, dir, cs, i + 1)
    }
}

/// The filtered positions are in range, strictly increasing, and each one
/// passes the filter.
pub proof fn lemma_match_idxs_props(rule: Rule, dir: Seq<u8>, cs: Seq<FsNode>, i: int)
    ensures
        forall|k: int|
            0 <= k < match_idxs_from(rule, dir, cs, i).len() ==> i <= #[trigger] match_idxs_from(
                rule,
                dir,
                cs,
                i,
            )[k] < cs.len(),
        forall|k: int|
            0 <= k < match_idxs_from(rule, dir, cs, i).len() - 1 ==> #[trigger] match_idxs_from(
                rule,
                dir,
                cs,
                i,
            )[k] < match_idxs_from(rule, dir, cs, i)[k + 1],
        forall|k: int|
            0 <= k < match_idxs_from(rule, dir, cs, i).len() ==> !spec_ignored(
                rule,
                spec_join(dir, node_name(cs[#[trigger] match_idxs_from(rule, dir, cs, i)[k]])),
                node_is_dir(cs[match_idxs_from(rule, dir, cs, i)[k]]),
            ),
    decreases cs.len() - i,
{
    if 0 <= i < cs.len() {
        lemma_match_idxs_props(rule, dir, cs, i + 1);
        let idxs = match_idxs_from(rule, dir, cs, i);
        let rest = match_idxs_from(rule, dir, cs, i + 1);
        if !spec_ignored(rule, spec_join(dir, node_name(cs[i])), node_is_dir(cs[i])) {
            assert(idxs[0] == i);
            assert(forall|k: int| 1 <= k < idxs.len() ==> idxs[k] == rest[k - 1]);
        }
    }
}

/// One recorded call on the rendering sink, at the specification level.
pub enum GEvent {
    File { name: Seq<u8>, depth: int, is_last: bool },
    AddIndent { level: int },
    RemoveIndent { level: int },
    Summary { n_dirs: int, n_files: int },
}

/// One renderable unit of traversal output: the display name, the depth
/// (root is 0) and whether this entry is the last sibling at its depth.
#[derive(Debug, PartialEq, Eq)]
pub struct Entry {
    pub file_name: Vec<u8>,
    pub depth: usize,
    pub is_last: bool,
}

/// One recorded call on the rendering sink.
#[derive(Debug, PartialEq, Eq)]
pub enum UiEvent {
    File(Entry),
    AddIndent(usize),
    RemoveIndent(usize),
    Summary(usize, usize),
}

impl DeepView for UiEvent {
    type V = GEvent;

    open spec fn deep_view(&self) -> GEvent {
        match self {
            UiEvent::File(e) => GEvent::File {
                name: e.file_name@,
                depth: e.depth as int,
                is_last: e.is_last,
            },
            UiEvent::AddIndent(d) => GEvent::AddIndent { level: *d as int },
            UiEvent::RemoveIndent(d) => GEvent::RemoveIndent { level: *d as int },
            UiEvent::Summary(a, b) => GEvent::Summary { n_dirs: *a as int, n_files: *b as int },
        }
    }
}

/// What one walker call does: the rendering calls it makes, in order, and
/// the directory and file counts it accumulates.
pub struct WalkOut {
    pub events: Seq<GEvent>,
    pub n_dirs: int,
    pub n_files: int,
}

/// The outcome of walking one node at the given depth: nothing for a file;
/// for a directory, an opened indentation level, the filtered children in
/// order, and an unconditionally closed level.
pub open spec fn walk_out(rule: Rule, node: FsNode, path: Seq<u8>, depth: int) -> WalkOut
    decreases node, 0int,
{
    match node {
        FsNode::File { name } => WalkOut { events: Seq::empty(), n_dirs: 0, n_files: 0 },
        FsNode::Dir { name, children } => {
            let idxs = match_idxs_from(rule, path, children@, 0);
            let sub = children_out(rule, children@, path, depth, idxs, 0);
            WalkOut {
                events: seq![GEvent::AddIndent { level: depth - 1 }] + sub.events + seq![
                    GEvent::RemoveIndent { level: depth },
                ],
                n_dirs: sub.n_dirs,
                n_files: sub.n_files,
            }
        },
    }
}

/// The outcome of visiting the filtered children at positions `idxs[j..]`:
/// each is emitted as an entry and counted; a directory is walked one level
/// deeper, and a last directory closes the parent's indentation level first.
pub open spec fn children_out(
    rule: Rule,
    cs: Seq<FsNode>,
    dir: Seq<u8>,
    depth: int,
    idxs: Seq<int>,
    j: int,
) -> WalkOut
    decreases cs, idxs.len() - j,
{
    if j < 0 || j >= idxs.len() || idxs[j] < 0 || idxs[j] >= cs.len() {
        WalkOut { events: Seq::empty(), n_dirs: 0, n_files: 0 }
    } else {
        let c = cs[idxs[j]];
        let p = spec_join(dir, node_name(c));
        let is_last = j == idxs.len() - 1;
        let entry = GEvent::File { name: node_name(c), depth: depth, is_last: is_last };
        let rest = children_out(rule, cs, dir, depth, idxs, j + 1);
        if node_is_dir(c) {
            let w = walk_out(rule, c, p, depth + 1);
            WalkOut {
                events: (if is_last {
                    seq![GEvent::RemoveIndent { level: depth - 1 }]
                } else {
                    Seq::empty()
                }) + seq![entry] + w.events + rest.events,
                n_dirs: 1 + w.n_dirs + rest.n_dirs,
                n_files: w.n_files + rest.n_files,
            }
        } else {
            WalkOut {
                events: seq![entry] + rest.events,
                n_dirs: rest.n_dirs,
                n_files: 1 + rest.n_files,
            }
        }
    }
}

proof fn lemma_walk_out_bounds(rule: Rule, node: FsNode, path: Seq<u8>, depth: int)
    ensures
        0 <= walk_out(rule, node, path, depth).n_dirs,
        0 <= walk_out(rule, node, path, depth).n_files,
        walk_out(rule, node, path, depth).n_dirs + walk_out(rule, node, path, depth).n_files
            <= node_size(node) - 1,
    decreases node, 0int,
{
    match node {
        FsNode::File { name } => {
        },
        FsNode::Dir { name, children } => {
            let cs = children@;
            let idxs = match_idxs_from(rule, path, cs, 0);
            lemma_match_idxs_props(rule, path, cs, 0);
            lemma_children_out_bounds(rule, cs, path, depth, idxs, 0);
            lemma_size_from_nonneg(cs, 0);
            if 0 < idxs.len() {
                lemma_size_from_antitone(cs, 0, idxs[0]);
            }
        },
    }
}

proof fn lemma_children_out_bounds(
    rule: Rule,
    cs: Seq<FsNode>,
    dir: Seq<u8>,
    depth: int,
    idxs: Seq<int>,
    j: int,
)
    requires
        forall|k: int| 0 <= k < idxs.len() ==> 0 <= #[trigger] idxs[k] < cs.len(),
        forall|k: int| 0 <= k < idxs.len() - 1 ==> #[trigger] idxs[k] < idxs[k + 1],
    ensures
        0 <= children_out(rule, cs, dir, depth, idxs, j).n_dirs,
        0 <= children_out(rule, cs, dir, depth, idxs, j).n_files,
        0 <= j < idxs.len() ==> children_out(rule, cs, dir, depth, idxs, j).n_dirs + children_out(
            rule,
            cs,
            dir,
            depth,
            idxs,
            j,
        ).n_files <= size_from(cs, idxs[j]),
        !(0 <= j < idxs.len()) ==> children_out(rule, cs, dir, depth, idxs, j).n_dirs == 0
            && children_out(rule, cs, dir, depth, idxs, j).n_files == 0,
    decreases cs, idxs.len() - j,
{
    if 0 <= j < idxs.len() {
        let c = cs[idxs[j]];
        let p = spec_join(dir, node_name(c));
        lemma_children_out_bounds(rule, cs, dir, depth, idxs, j + 1);
        lemma_node_size_pos(c);
        lemma_size_from_nonneg(cs, idxs[j] + 1);
        if node_is_dir(c) {
            lemma_walk_out_bounds(rule, c, p, depth + 1);
        }
        if j + 1 < idxs.len() {
            lemma_size_from_antitone(cs, idxs[j] + 1, idxs[j + 1]);
        }
    }
}

impl FsNode {
    /// The name of this node.
    pub fn name(&self) -> (r: &Vec<u8>)
        ensures
            r@ == node_name(*self),
    {
        match self {
            FsNode::File { name } => name,
            FsNode::Dir { name, children } => name,
        }
    }

    /// Whether this node is a directory.
    pub fn is_dir(&self) -> (r: bool)
        ensures
            r == node_is_dir(*self),
    {
        match self {
            FsNode::File { name } => false,
            FsNode::Dir { name, children } => true,
        }
    }
}

/// The positions of a filtered index vector, as mathematical integers.
pub open spec fn as_ints(s: Seq<usize>) -> Seq<int> {
    Seq::new(s.len(), |k: int| s[k] as int)
}

/// The children a directory listing keeps once filtered: those whose joined
/// path the rule does not ignore, in enumeration order.
pub open spec fn kept(rule: Rule, dir: Seq<u8>, cs: Seq<FsNode>) -> Seq<FsNode>
    decreases cs.len(),
{
    if cs.len() == 0 {
        Seq::empty()
    } else {
        let rest = kept(rule, dir, cs.drop_first());
        if !spec_ignored(rule, spec_join(dir, node_name(cs[0])), node_is_dir(cs[0])) {
            seq![cs[0]] + rest
        } else {
            rest
        }
    }
}

proof fn lemma_kept_all_pass(rule: Rule, dir: Seq<u8>, cs: Seq<FsNode>)
    ensures
        forall|k: int|
            0 <= k < kept(rule, dir, cs).len() ==> !spec_ignored(
                rule,
                spec_join(dir, node_name(#[trigger] kept(rule, dir, cs)[k])),
                node_is_dir(kept(rule, dir, cs)[k]),
            ),
    decreases cs.len(),
{
    if cs.len() > 0 {
        lemma_kept_all_pass(rule, dir, cs.drop_first());
        let rest = kept(rule, dir, cs.drop_first());
        if !spec_ignored(rule, spec_join(dir, node_name(cs[0])), node_is_dir(cs[0])) {
            assert(kept(rule, dir, cs)[0] == cs[0]);
            assert(forall|k: int|
                1 <= k < kept(rule, dir, cs).len() ==> kept(rule, dir, cs)[k] == rest[k - 1]);
        }
    }
}

proof fn lemma_kept_of_passing(rule: Rule, dir: Seq<u8>, cs: Seq<FsNode>)
    requires
        forall|k: int|
            0 <= k < cs.len() ==> !spec_ignored(
                rule,
                spec_join(dir, node_name(#[trigger] cs[k])),
                node_is_dir(cs[k]),
            ),
    ensures
        kept(rule, dir, cs) == cs,
    decreases cs.len(),
{
    if cs.len() > 0 {
        assert(forall|k: int|
            0 <= k < cs.drop_first().len() ==> #[trigger] cs.drop_first()[k] == cs[k + 1]);
        lemma_kept_of_passing(rule, dir, cs.drop_first());
        assert(seq![cs[0]] + cs.drop_first() =~= cs);
    }
}

/// Filtering is a pure function of path and rule: a second filter pass over
/// an already filtered listing keeps it unchanged.
pub proof fn lemma_filter_idempotent(rule: Rule, dir: Seq<u8>, cs: Seq<FsNode>)
    ensures
        kept(rule, dir, kept(rule, dir, cs)) == kept(rule, dir, cs),
{
    lemma_kept_all_pass(rule, dir, cs);
    lemma_kept_of_passing(rule, dir, kept(rule, dir, cs));
}

/// The kept children are exactly the children at the filtered positions.
pub proof fn lemma_kept_matches_idxs(rule: Rule, dir: Seq<u8>, cs: Seq<FsNode>, i: int)
    requires
        0 <= i <= cs.len(),
    ensures
        kept(rule, dir, cs.skip(i)).len() == match_idxs_from(rule, dir, cs, i).len(),
        forall|k: int|
            0 <= k < kept(rule, dir, cs.skip(i)).len() ==> 0 <= #[trigger] match_idxs_from(
                rule,
                dir,
                cs,
                i,
            )[k] < cs.len() && kept(rule, dir, cs.skip(i))[k] == cs[match_idxs_from(
                rule,
                dir,
                cs,
                i,
            )[k]],
    decreases cs.len() - i,
{
    let s = cs.skip(i);
    if i < cs.len() {
        assert(s[0] == cs[i]);
        assert(s.drop_first() =~= cs.skip(i + 1));
        lemma_kept_matches_idxs(rule, dir, cs, i + 1);
        let rest_k = kept(rule, dir, cs.skip(i + 1));
        let rest_i = match_idxs_from(rule, dir, cs, i + 1);
        if !spec_ignored(rule, spec_join(dir, node_name(cs[i])), node_is_dir(cs[i])) {
            assert(kept(rule, dir, s)[0] == cs[i]);
            assert(match_idxs_from(rule, dir, cs, i)[0] == i);
            assert(forall|k: int|
                1 <= k < kept(rule, dir, s).len() ==> #[trigger] kept(rule, dir, s)[k] == rest_k[k
                    - 1]);
            assert(forall|k: int|
                1 <= k < match_idxs_from(rule, dir, cs, i).len() ==> #[trigger] match_idxs_from(
                    rule,
                    dir,
                    cs,
                    i,
                )[k] == rest_i[k - 1]);
        }
    } else {
        assert(s.len() == 0);
    }
}

/// How many of the given events close the given indentation level.
pub open spec fn count_removes(es: Seq<GEvent>, level: int) -> int
    decreases es.len(),
{
    if es.len() == 0 {
        0
    } else {
        (if es[0] == (GEvent::RemoveIndent { level }) {
            1int
        } else {
            0int
        }) + count_removes(es.drop_first(), level)
    }
}

proof fn lemma_count_removes_concat(a: Seq<GEvent>, b: Seq<GEvent>, level: int)
    ensures
        count_removes(a + b, level) == count_removes(a, level) + count_removes(b, level),
    decreases a.len(),
{
    if a.len() == 0 {
        assert(a + b =~= b);
    } else {
        assert((a + b)[0] == a[0]);
        assert((a + b).drop_first() =~= a.drop_first() + b);
        lemma_count_removes_concat(a.drop_first(), b, level);
    }
}

/// Whether the last kept child of a directory node is itself a directory:
/// exactly then does the walker close the parent's indentation level early.
pub open spec fn last_kept_is_dir(rule: Rule, node: FsNode, path: Seq<u8>) -> bool {
    let cs = node_children(node);
    let idxs = match_idxs_from(rule, path, cs, 0);
    idxs.len() > 0 && 0 <= idxs.last() < cs.len() && node_is_dir(cs[idxs.last()])
}

proof fn lemma_walk_out_removes(rule: Rule, node: FsNode, path: Seq<u8>, depth: int, level: int)
    requires
        level < depth,
    ensures
        count_removes(walk_out(rule, node, path, depth).events, level) == if node_is_dir(node)
            && level == depth - 1 && last_kept_is_dir(rule, node, path) {
            1int
        } else {
            0int
        },
    decreases node, 0int,
{
    match node {
        FsNode::File { name } => {
        },
        FsNode::Dir { name, children } => {
            let cs = children@;
            let idxs = match_idxs_from(rule, path, cs, 0);
            let sub = children_out(rule, cs, path, depth, idxs, 0);
            lemma_match_idxs_props(rule, path, cs, 0);
            lemma_children_out_removes(rule, cs, path, depth, idxs, 0, level);
            let a = seq![GEvent::AddIndent { level: depth - 1 }];
            let b = seq![GEvent::RemoveIndent { level: depth }];
            lemma_count_removes_concat(a, sub.events, level);
            lemma_count_removes_concat(a + sub.events, b, level);
            assert(count_removes(a, level) == 0) by {
                assert(count_removes(Seq::<GEvent>::empty(), level) == 0);
                assert(a.drop_first() =~= Seq::<GEvent>::empty());
            }
            assert(count_removes(b, level) == 0) by {
                assert(count_removes(Seq::<GEvent>::empty(), level) == 0);
                assert(b.drop_first() =~= Seq::<GEvent>::empty());
                assert(b[0] != (GEvent::RemoveIndent { level }));
            }
            assert(walk_out(rule, node, path, depth).events == (a + sub.events) + b) by {
                assert(a + sub.events + b =~= (a + sub.events) + b);
            }
        },
    }
}

proof fn lemma_children_out_removes(
    rule: Rule,
    cs: Seq<FsNode>,
    dir: Seq<u8>,
    depth: int,
    idxs: Seq<int>,
    j: int,
    level: int,
)
    requires
        level < depth,
        forall|k: int| 0 <= k < idxs.len() ==> 0 <= #[trigger] idxs[k] < cs.len(),
    ensures
        count_removes(children_out(rule, cs, dir, depth, idxs, j).events, level) == if 0 <= j
            < idxs.len() && level == depth - 1 && node_is_dir(cs[idxs.last()]) {
            1int
        } else {
            0int
        },
    decreases cs, idxs.len() - j,
{
    if 0 <= j < idxs.len() {
        let c = cs[idxs[j]];
        let p = spec_join(dir, node_name(c));
        let is_last = j == idxs.len() - 1;
        let entry = seq![GEvent::File { name: node_name(c), depth: depth, is_last: is_last }];
        let rest = children_out(rule, cs, dir, depth, idxs, j + 1);
        lemma_children_out_removes(rule, cs, dir, depth, idxs, j + 1, level);
        assert(count_removes(entry, level) == 0) by {
            assert(count_removes(Seq::<GEvent>::empty(), level) == 0);
            assert(entry.drop_first() =~= Seq::<GEvent>::empty());
        }
        if node_is_dir(c) {
            let w = walk_out(rule, c, p, depth + 1);
            lemma_walk_out_removes(rule, c, p, depth + 1, level);
            assert(count_removes(w.events, level) == 0);
            let early: Seq<GEvent> = if is_last {
                seq![GEvent::RemoveIndent { level: depth - 1 }]
            } else {
                Seq::empty()
            };
            assert(count_removes(early, level) == if is_last && level == depth - 1 {
                1int
            } else {
                0int
            }) by {
                assert(count_removes(Seq::<GEvent>::empty(), level) == 0);
                if is_last {
                    assert(early.drop_first() =~= Seq::<GEvent>::empty());
                }
            }
            lemma_count_removes_concat(early, entry, level);
            lemma_count_removes_concat(early + entry, w.events, level);
            lemma_count_removes_concat((early + entry) + w.events, rest.events, level);
            assert(children_out(rule, cs, dir, depth, idxs, j).events == ((early + entry)
                + w.events) + rest.events) by {
                assert(early + entry + w.events + rest.events =~= ((early + entry) + w.events)
                    + rest.events);
            }
        } else {
            lemma_count_removes_concat(entry, rest.events, level);
        }
    }
}

/// Indentation protocol: walking a directory first opens the level above
/// its depth, closes the level of its own depth last, and closes the level
/// above exactly once before returning when its last kept child is a
/// directory — and not at all otherwise, when that close is left to the
/// caller.
pub proof fn lemma_indent_protocol(rule: Rule, node: FsNode, path: Seq<u8>, depth: int)
    requires
        node_is_dir(node),
    ensures
        walk_out(rule, node, path, depth).events.len() >= 2,
        walk_out(rule, node, path, depth).events.first() == (GEvent::AddIndent {
            level: depth - 1,
        }),
        walk_out(rule, node, path, depth).events.last() == (GEvent::RemoveIndent { level: depth }),
        count_removes(walk_out(rule, node, path, depth).events, depth - 1) == if last_kept_is_dir(
            rule,
            node,
            path,
        ) {
            1int
        } else {
            0int
        },
{
    lemma_walk_out_removes(rule, node, path, depth, depth - 1);
    match node {
        FsNode::File { name } => {
        },
        FsNode::Dir { name, children } => {
            let idxs = match_idxs_from(rule, path, children@, 0);
            let sub = children_out(rule, children@, path, depth, idxs, 0);
            let es = walk_out(rule, node, path, depth).events;
            assert(es == seq![GEvent::AddIndent { level: depth - 1 }] + sub.events + seq![
                GEvent::RemoveIndent { level: depth },
            ]);
            assert(es.first() == (GEvent::AddIndent { level: depth - 1 }));
            assert(es.last() == (GEvent::RemoveIndent { level: depth }));
        },
    }
}

/// The walker: one composed rule, one snapshot of the directory tree to
/// walk, and the rendering calls recorded so far.
pub struct Tree {
    pub rule: Rule,
    pub fs: FsNode,
    pub ui: Vec<UiEvent>,
}

impl Tree {
    /// Builds a walker from a composed rule and a snapshot, with no
    /// rendering calls recorded yet.
    pub fn new(rule: Rule, fs: FsNode) -> (t: Tree)
        ensures
            t.rule == rule,
            t.fs == fs,
            t.ui@ == Seq::<UiEvent>::empty(),
    {
        Tree { rule, fs, ui: Vec::new() }
    }

    /// Filters one directory listing: the positions of the children whose
    /// joined path the rule does not ignore, in enumeration order.
    pub fn list_dir_matches(rule: &Rule, dir: &Vec<u8>, children: &Vec<FsNode>) -> (r: Vec<usize>)
        ensures
            as_ints(r@) == match_idxs_from(*rule, dir@, children@, 0),
    {
        let mut r: Vec<usize> = Vec::new();
        let mut i: usize = 0;
        proof {
            assert(as_ints(r@) =~= Seq::<int>::empty());
            assert(as_ints(r@) + match_idxs_from(*rule, dir@, children@, 0) =~= match_idxs_from(
                *rule,
                dir@,
                children@,
                0,
            ));
        }
        while i < children.len()
            invariant
                i <= children.len(),
                match_idxs_from(*rule, dir@, children@, 0) == as_ints(r@) + match_idxs_from(
                    *rule,
                    dir@,
                    children@,
                    i as int,
                ),
            decreases children.len() - i,
        {
            let child = &children[i];
            let p = join_path(dir, child.name());
            let d = child.is_dir();
            let ghost prev = r@;
            if !rule.is_ignored(&p, d) {
                r.push(i);
                proof {
                    assert(as_ints(r@) =~= as_ints(prev).push(i as int));
                    assert(match_idxs_from(*rule, dir@, children@, i as int) == seq![i as int]
                        + match_idxs_from(*rule, dir@, children@, i as int + 1));
                    assert(as_ints(prev) + (seq![i as int] + match_idxs_from(
                        *rule,
                        dir@,
                        children@,
                        i as int + 1,
                    )) =~= as_ints(r@) + match_idxs_from(*rule, dir@, children@, i as int + 1));
                }
            } else {
                proof {
                    assert(match_idxs_from(*rule, dir@, children@, i as int) == match_idxs_from(
                        *rule,
                        dir@,
                        children@,
                        i as int + 1,
                    ));
                }
            }
            i = i + 1;
        }
        proof {
            assert(match_idxs_from(*rule, dir@, children@, i as int) =~= Seq::<int>::empty());
            assert(as_ints(r@) + Seq::<int>::empty() =~= as_ints(r@));
        }
        r
    }

    /// Walks one directory node: opens the indentation level above, emits
    /// and counts every filtered child in order, recurses into child
    /// directories, closes the indentation level of this depth, and returns
    /// the directory and file counts. A node that is not a directory
    /// contributes nothing.
    pub fn walk_nested(
        rule: &Rule,
        node: &FsNode,
        path: &Vec<u8>,
        depth: usize,
        ui: &mut Vec<UiEvent>,
    ) -> (r: (usize, usize))
        requires
            1 <= depth,
            depth + node_size(*node) <= usize::MAX,
        ensures
            r.0 == walk_out(*rule, *node, path@, depth as int).n_dirs,
            r.1 == walk_out(*rule, *node, path@, depth as int).n_files,
            final(ui).deep_view() == old(ui).deep_view() + walk_out(
                *rule,
                *node,
                path@,
                depth as int,
            ).events,
        decreases *node,
    {
        match node {
            FsNode::File { name } => {
                proof {
                    assert(ui.deep_view() + Seq::<GEvent>::empty() =~= ui.deep_view());
                }
                (0, 0)
            },
            FsNode::Dir { name, children } => {
                let ghost cs = children@;
                let ghost idxs = match_idxs_from(*rule, path@, cs, 0);
                let ghost base = ui.deep_view();
                let ghost head = seq![GEvent::AddIndent { level: depth as int - 1 }];
                proof {
                    lemma_match_idxs_props(*rule, path@, cs, 0);
                    lemma_children_out_bounds(*rule, cs, path@, depth as int, idxs, 0);
                    lemma_size_from_nonneg(cs, 0);
                }
                let ghost ev = *ui;
                ui.push(UiEvent::AddIndent(depth - 1));
                proof {
                    lemma_deep_view_push(ev, *ui, UiEvent::AddIndent((depth - 1) as usize));
                    assert(ui.deep_view() =~= base + head);
                }
                let matches = Tree::list_dir_matches(rule, path, children);
                let mut n_dirs: usize = 0;
                let mut n_files: usize = 0;
                let mut j: usize = 0;
                proof {
                    assert((base + head) + children_out(
                        *rule,
                        cs,
                        path@,
                        depth as int,
                        idxs,
                        0,
                    ).events =~= base + head + children_out(
                        *rule,
                        cs,
                        path@,
                        depth as int,
                        idxs,
                        0,
                    ).events);
                }
                while j < matches.len()
                    invariant
                        j <= matches.len(),
                        1 <= depth,
                        depth + node_size(*node) <= usize::MAX,
                        *node == (FsNode::Dir { name: *name, children: *children }),
                        cs == children@,
                        idxs == match_idxs_from(*rule, path@, cs, 0),
                        as_ints(matches@) == idxs,
                        n_dirs as int == children_out(*rule, cs, path@, depth as int, idxs, 0).n_dirs
                            - children_out(*rule, cs, path@, depth as int, idxs, j as int).n_dirs,
                        n_files as int == children_out(
                            *rule,
                            cs,
                            path@,
                            depth as int,
                            idxs,
                            0,
                        ).n_files - children_out(
                            *rule,
                            cs,
                            path@,
                            depth as int,
                            idxs,
                            j as int,
                        ).n_files,
                        ui.deep_view() + children_out(
                            *rule,
                            cs,
                            path@,
                            depth as int,
                            idxs,
                            j as int,
                        ).events == base + head + children_out(
                            *rule,
                            cs,
                            path@,
                            depth as int,
                            idxs,
                            0,
                        ).events,
                    decreases matches.len() - j,
                {
                    proof {
                        lemma_match_idxs_props(*rule, path@, cs, 0);
                        lemma_children_out_bounds(*rule, cs, path@, depth as int, idxs, 0);
                        lemma_children_out_bounds(*rule, cs, path@, depth as int, idxs, j as int);
                        lemma_children_out_bounds(
                            *rule,
                            cs,
                            path@,
                            depth as int,
                            idxs,
                            j as int + 1,
                        );
                        assert(as_ints(matches@)[j as int] == matches@[j as int] as int);
                        assert(node_size(*node) == 1 + size_from(cs, 0));
                        lemma_size_from_nonneg(cs, 0);
                        if idxs.len() > 0 {
                            lemma_size_from_antitone(cs, 0, idxs[0]);
                        }
                    }
                    let idx = matches[j];
                    proof {
                        assert(idxs[j as int] == idx as int);
                        assert(0 <= (idx as int) && (idx as int) < cs.len());
                        lemma_size_element(cs, 0, idx as int);
                    }
                    let child = &children[idx];
                    let child_path = join_path(path, child.name());
                    let is_last = j == matches.len() - 1;
                    let ghost cj = children_out(*rule, cs, path@, depth as int, idxs, j as int);
                    let ghost cj1 = children_out(
                        *rule,
                        cs,
                        path@,
                        depth as int,
                        idxs,
                        j as int + 1,
                    );
                    let ghost entry_g = GEvent::File {
                        name: node_name(cs[idx as int]),
                        depth: depth as int,
                        is_last: is_last,
                    };
                    if child.is_dir() {
                        let ghost w = walk_out(
                            *rule,
                            cs[idx as int],
                            spec_join(path@, node_name(cs[idx as int])),
                            depth as int + 1,
                        );
                        proof {
                            lemma_walk_out_bounds(
                                *rule,
                                cs[idx as int],
                                spec_join(path@, node_name(cs[idx as int])),
                                depth as int + 1,
                            );
                            assert(cj.events == (if is_last {
                                seq![GEvent::RemoveIndent { level: depth as int - 1 }]
                            } else {
                                Seq::<GEvent>::empty()
                            }) + seq![entry_g] + w.events + cj1.events);
                        }
                        if is_last {
                            let ghost ev2 = *ui;
                            ui.push(UiEvent::RemoveIndent(depth - 1));
                            proof {
                                lemma_deep_view_push(
                                    ev2,
                                    *ui,
                                    UiEvent::RemoveIndent((depth - 1) as usize),
                                );
                            }
                        }
                        n_dirs = n_dirs + 1;
                        let file_name = copy_bytes(child.name());
                        let ghost ev3 = *ui;
                        ui.push(
                            UiEvent::File(Entry { file_name, depth, is_last }),
                        );
                        proof {
                            lemma_deep_view_push(ev3, *ui, ui@[ui@.len() - 1]);
                            assert(ui@[ui@.len() - 1].deep_view() == entry_g);
                        }
                        let nested = Tree::walk_nested(rule, child, &child_path, depth + 1, ui);
                        n_dirs = n_dirs + nested.0;
                        n_files = n_files + nested.1;
                        proof {
                            assert(ui.deep_view() + cj1.events =~= base + head + children_out(
                                *rule,
                                cs,
                                path@,
                                depth as int,
                                idxs,
                                0,
                            ).events);
                        }
                    } else {
                        proof {
                            assert(cj.events == seq![entry_g] + cj1.events);
                        }
                        n_files = n_files + 1;
                        let file_name = copy_bytes(child.name());
                        let ghost ev3 = *ui;
                        ui.push(
                            UiEvent::File(Entry { file_name, depth, is_last }),
                        );
                        proof {
                            lemma_deep_view_push(ev3, *ui, ui@[ui@.len() - 1]);
                            assert(ui@[ui@.len() - 1].deep_view() == entry_g);
                            assert(ui.deep_view() + cj1.events =~= base + head + children_out(
                                *rule,
                                cs,
                                path@,
                                depth as int,
                                idxs,
                                0,
                            ).events);
                        }
                    }
                    j = j + 1;
                }
                proof {
                    lemma_children_out_bounds(*rule, cs, path@, depth as int, idxs, j as int);
                    assert(children_out(
                        *rule,
                        cs,
                        path@,
                        depth as int,
                        idxs,
                        j as int,
                    ).events =~= Seq::<GEvent>::empty());
                    assert(ui.deep_view() + Seq::<GEvent>::empty() =~= ui.deep_view());
                }
                let ghost ev4 = *ui;
                ui.push(UiEvent::RemoveIndent(depth));
                proof {
                    lemma_deep_view_push(ev4, *ui, UiEvent::RemoveIndent(depth));
                    let w = walk_out(*rule, *node, path@, depth as int);
                    assert(w.events == head + children_out(
                        *rule,
                        cs,
                        path@,
                        depth as int,
                        idxs,
                        0,
                    ).events + seq![GEvent::RemoveIndent { level: depth as int }]);
                    assert(ui.deep_view() =~= base + w.events);
                }
                (n_dirs, n_files)
            },
        }
    }

    /// Walks the whole snapshot: emits the root itself, walks its children
    /// from depth 1, emits the summary of the accumulated counts, and
    /// returns them.
    pub fn walk(&mut self) -> (r: (usize, usize))
        requires
            1 + node_size(old(self).fs) <= usize::MAX,
        ensures
            final(self).rule == old(self).rule,
            final(self).fs == old(self).fs,
            r.0 == walk_out(old(self).rule, old(self).fs, node_name(old(self).fs), 1).n_dirs,
            r.1 == walk_out(old(self).rule, old(self).fs, node_name(old(self).fs), 1).n_files,
            final(self).ui.deep_view() == old(self).ui.deep_view() + seq![
                GEvent::File { name: node_name(old(self).fs), depth: 0, is_last: false },
            ] + walk_out(old(self).rule, old(self).fs, node_name(old(self).fs), 1).events + seq![
                GEvent::Summary {
                    n_dirs: walk_out(old(self).rule, old(self).fs, node_name(old(self).fs), 1).n_dirs,
                    n_files: walk_out(
                        old(self).rule,
                        old(self).fs,
                        node_name(old(self).fs),
                        1,
                    ).n_files,
                },
            ],
    {
        let ghost base = self.ui.deep_view();
        let ghost w = walk_out(self.rule, self.fs, node_name(self.fs), 1);
        let root_name = copy_bytes(self.fs.name());
        let path = copy_bytes(self.fs.name());
        let ghost ev = self.ui;
        self.ui.push(UiEvent::File(Entry { file_name: root_name, depth: 0, is_last: false }));
        proof {
            lemma_deep_view_push(ev, self.ui, self.ui@[self.ui@.len() - 1]);
            assert(self.ui@[self.ui@.len() - 1].deep_view() == GEvent::File {
                name: node_name(self.fs),
                depth: 0,
                is_last: false,
            });
        }
        let counts = Tree::walk_nested(&self.rule, &self.fs, &path, 1, &mut self.ui);
        let ghost ev2 = self.ui;
        self.ui.push(UiEvent::Summary(counts.0, counts.1));
        proof {
            lemma_deep_view_push(ev2, self.ui, self.ui@[self.ui@.len() - 1]);
            assert(self.ui@[self.ui@.len() - 1].deep_view() == GEvent::Summary {
                n_dirs: w.n_dirs,
                n_files: w.n_files,
            });
            assert(self.ui.deep_view() =~= base + seq![
                GEvent::File { name: node_name(self.fs), depth: 0, is_last: false },
            ] + w.events + seq![GEvent::Summary { n_dirs: w.n_dirs, n_files: w.n_files }]);
        }
        counts
    }
}

} // verus!
