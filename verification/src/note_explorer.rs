//! The note explorer: the sorted list of notes and the folder/note tree
//! built from their relative paths, with a per-folder expand/collapse flag
//! that survives rebuilds.
//!
//! The tree is rebuilt from scratch on every change of the note list; the
//! only state carried across rebuilds is the expand flag, keyed by folder
//! path and collapsed by default. At every level of the built tree folders
//! stand before notes and each group is ordered by name.

use vstd::prelude::*;
use vstd::seq_lib::group_to_multiset_ensures;
use crate::flag_map::FlagMap;
use crate::notebook::NoteMetadata;
use crate::text::spec_str_le;
use crate::text::spec_str_lt;
use crate::text::str_eq;
use crate::text::str_lt;
use crate::text::lemma_str_lt_trichotomy;
use crate::text::lemma_str_lt_trans;

verus! {

/// One node of the folder/note tree.
#[derive(Debug)]
pub enum NodeOwned {
    /// A folder: its children, and whether it is drawn expanded.
    Folder { name: String, children: Vec<NodeOwned>, is_expanded: bool, path: String },
    /// A note: `path` is its full relative path and `metadata` its record.
    NoteDir { name: String, metadata: NoteMetadata, path: String },
}

/// Whether a node is a folder.
pub open spec fn is_folder_node(n: NodeOwned) -> bool {
    n is Folder
}

/// The display name of a node.
pub open spec fn node_name(n: NodeOwned) -> Seq<char> {
    match n {
        NodeOwned::Folder { name, .. } => name@,
        NodeOwned::NoteDir { name, .. } => name@,
    }
}

/// One level of the tree is ordered: folders before notes, folder names
/// strictly increasing (a level never holds two folders of one name),
/// and note names nondecreasing.
pub open spec fn level_sorted(nodes: Seq<NodeOwned>) -> bool {
    forall|i: int, j: int|
        0 <= i < j < nodes.len() ==> ((is_folder_node(#[trigger] nodes[j]) ==> is_folder_node(
            #[trigger] nodes[i],
        )) && (is_folder_node(nodes[i]) && is_folder_node(nodes[j]) ==> spec_str_lt(
            node_name(nodes[i]),
            node_name(nodes[j]),
        )) && (!is_folder_node(nodes[i]) && !is_folder_node(nodes[j]) ==> spec_str_le(
            node_name(nodes[i]),
            node_name(nodes[j]),
        )))
}

/// A well-built tree under the folder chain `pre` (the segments of the
/// enclosing folders, root = empty), against the flag map it was built
/// with and the set of note records it was built from: every level is
/// ordered; every folder's stored `path` is the chain joined with its
/// own name, its flag is exactly the map's for that path (collapsed when
/// never seen), and it holds at least one note below it; every note leaf
/// carries a record from the input, under that record's own `rel_path`,
/// whose segments are exactly the chain extended by the leaf's name.
pub open spec fn tree_ok(
    nodes: Seq<NodeOwned>,
    pre: Seq<Seq<char>>,
    fm: FlagMap,
    allowed: Set<crate::notebook::NoteView>,
) -> bool {
    level_sorted(nodes) && nodes_ok_from(nodes, 0, pre, fm, allowed)
}

/// Every node of the level from position `i` on satisfies [`node_ok`].
pub open spec fn nodes_ok_from(
    nodes: Seq<NodeOwned>,
    i: int,
    pre: Seq<Seq<char>>,
    fm: FlagMap,
    allowed: Set<crate::notebook::NoteView>,
) -> bool
    decreases nodes, nodes.len() - i,
{
    i >= nodes.len() || (0 <= i && node_ok(nodes[i], pre, fm, allowed) && nodes_ok_from(
        nodes,
        i + 1,
        pre,
        fm,
        allowed,
    ))
}

/// See [`tree_ok`]: the per-node half of the property, applied down the
/// whole subtree of the node.
pub open spec fn node_ok(
    n: NodeOwned,
    pre: Seq<Seq<char>>,
    fm: FlagMap,
    allowed: Set<crate::notebook::NoteView>,
) -> bool
    decreases n, 0int,
{
    match n {
        NodeOwned::Folder { name, children, is_expanded, path } => {
            &&& seg_wf(name@)
            &&& path@ == spec_join(pre.push(name@))
            &&& is_expanded == fm.flag_of(path@)
            &&& level_sorted(children@)
            &&& leaf_count_from(children@, 0) >= 1
            &&& nodes_ok_from(children@, 0, pre.push(name@), fm, allowed)
        },
        NodeOwned::NoteDir { name, metadata, path } => {
            &&& seg_wf(name@)
            &&& path@ == metadata@.rel_path
            &&& spec_segments(metadata@.rel_path) == pre.push(name@)
            &&& allowed.contains(metadata@)
        },
    }
}

/// Folds per-node facts into [`nodes_ok_from`].
proof fn lemma_nodes_ok_intro(
    nodes: Seq<NodeOwned>,
    i: int,
    pre: Seq<Seq<char>>,
    fm: FlagMap,
    allowed: Set<crate::notebook::NoteView>,
)
    requires
        0 <= i,
        forall|k: int| i <= k < nodes.len() ==> #[trigger] node_ok(nodes[k], pre, fm, allowed),
    ensures
        nodes_ok_from(nodes, i, pre, fm, allowed),
    decreases nodes.len() - i,
{
    if i < nodes.len() {
        lemma_nodes_ok_intro(nodes, i + 1, pre, fm, allowed);
        assert(node_ok(nodes[i], pre, fm, allowed));
        assert(nodes_ok_from(nodes, i + 1, pre, fm, allowed));
        assert(nodes_ok_from(nodes, i, pre, fm, allowed));
    } else {
        assert(nodes_ok_from(nodes, i, pre, fm, allowed));
    }
}

/// The set of record values in a note list.
pub open spec fn note_meta_set(notes: Seq<NoteMetadata>) -> Set<crate::notebook::NoteView> {
    Set::new(|v: crate::notebook::NoteView| exists|i: int| 0 <= i < notes.len() && notes[i]@ == v)
}

/// The note list is ordered by relative path.
pub open spec fn notes_sorted(s: Seq<NoteMetadata>) -> bool {
    forall|i: int, j: int|
        0 <= i < j < s.len() ==> spec_str_le(
            (#[trigger] s[i])@.rel_path,
            (#[trigger] s[j])@.rel_path,
        )
}

/// Position `j` of `note` cuts off a folder prefix: a separator that is
/// not doubled and does not merely close a leading `"."`.
pub open spec fn folder_prefix_at(note: Seq<char>, j: int) -> bool {
    &&& 0 < j < note.len()
    &&& note[j] == '/'
    &&& note[j - 1] != '/'
    &&& !(j == 1 && note[0] == '.')
}

/// Whether `p` is one of the folder paths implied by the note list: a
/// prefix of some note's relative path cut at a separator.
pub open spec fn spec_is_implied_folder(notes: Seq<NoteMetadata>, p: Seq<char>) -> bool {
    exists|a: int, b: int|
        0 <= a < notes.len() && #[trigger] folder_prefix_at(notes[a]@.rel_path, b) && p
            == notes[a]@.rel_path.take(b)
}

/// Whether `p` is an ancestor folder of the path `note`.
pub open spec fn is_ancestor_of(note: Seq<char>, p: Seq<char>) -> bool {
    exists|j: int| #[trigger] folder_prefix_at(note, j) && p == note.take(j)
}

spec fn implied_folder_upto(notes: Seq<NoteMetadata>, i: int, j: int, p: Seq<char>) -> bool {
    exists|a: int, b: int|
        0 <= a < notes.len() && #[trigger] folder_prefix_at(notes[a]@.rel_path, b) && p
            == notes[a]@.rel_path.take(b) && (a < i || (a == i && b < j))
}

struct TreeItem {
    segs: Vec<String>,
    pos: usize,
    meta: NoteMetadata,
}

spec fn item_rem(it: TreeItem) -> int {
    it.segs@.len() - it.pos
}

spec fn item_name(it: TreeItem) -> Seq<char> {
    it.segs@[it.pos as int]@
}

spec fn item_ok(
    it: TreeItem,
    depth: int,
    pre: Seq<Seq<char>>,
    allowed: Set<crate::notebook::NoteView>,
) -> bool {
    &&& it.pos < it.segs@.len()
    &&& item_rem(it) <= depth
    &&& allowed.contains(it.meta@)
    &&& it.segs.deep_view() == spec_segments(it.meta@.rel_path)
    &&& it.segs.deep_view().take(it.pos as int) == pre
    &&& forall|k: int|
        0 <= k < it.segs.deep_view().len() ==> seg_wf(#[trigger] it.segs.deep_view()[k])
}

spec fn group_ok(
    g: (String, Vec<TreeItem>),
    depth: int,
    pre: Seq<Seq<char>>,
    allowed: Set<crate::notebook::NoteView>,
) -> bool {
    &&& g.1@.len() >= 1
    &&& seg_wf(g.0@)
    &&& forall|k: int|
        0 <= k < g.1@.len() ==> item_ok(#[trigger] g.1@[k], depth, pre.push(g.0@), allowed)
}

/// The number of note leaves among the nodes from position `i` on.
pub open spec fn leaf_count_from(nodes: Seq<NodeOwned>, i: int) -> int
    decreases nodes, nodes.len() - i,
{
    if i < 0 || i >= nodes.len() {
        0
    } else {
        node_leaf_count(nodes[i]) + leaf_count_from(nodes, i + 1)
    }
}

/// The number of note leaves in a node's whole subtree.
pub open spec fn node_leaf_count(n: NodeOwned) -> int
    decreases n, 0int,
{
    match n {
        NodeOwned::Folder { children, .. } => leaf_count_from(children@, 0),
        NodeOwned::NoteDir { .. } => 1,
    }
}

proof fn lemma_leaf_count_push(nodes: Seq<NodeOwned>, n: NodeOwned, i: int)
    requires
        0 <= i <= nodes.len(),
    ensures
        leaf_count_from(nodes.push(n), i) == leaf_count_from(nodes, i) + node_leaf_count(n),
    decreases nodes.len() - i,
{
    if i == nodes.len() {
        assert(nodes.push(n)[i] == n);
        assert(leaf_count_from(nodes.push(n), i + 1) == 0);
        assert(leaf_count_from(nodes, i) == 0);
        assert(leaf_count_from(nodes.push(n), i) == node_leaf_count(n) + leaf_count_from(
            nodes.push(n),
            i + 1,
        ));
    } else {
        assert(nodes.push(n)[i] == nodes[i]);
        lemma_leaf_count_push(nodes, n, i + 1);
        assert(leaf_count_from(nodes.push(n), i) == node_leaf_count(nodes[i]) + leaf_count_from(
            nodes.push(n),
            i + 1,
        ));
        assert(leaf_count_from(nodes, i) == node_leaf_count(nodes[i]) + leaf_count_from(
            nodes,
            i + 1,
        ));
    }
}

spec fn group_items_from(gs: Seq<(String, Vec<TreeItem>)>, i: int) -> int
    decreases gs.len() - i,
{
    if i < 0 || i >= gs.len() {
        0
    } else {
        gs[i].1@.len() + group_items_from(gs, i + 1)
    }
}

proof fn lemma_group_items_push(gs: Seq<(String, Vec<TreeItem>)>, g: (String, Vec<TreeItem>), i: int)
    requires
        0 <= i <= gs.len(),
    ensures
        group_items_from(gs.push(g), i) == group_items_from(gs, i) + g.1@.len(),
    decreases gs.len() - i,
{
    if i == gs.len() {
        assert(gs.push(g)[i] == g);
        assert(group_items_from(gs.push(g), i + 1) == 0);
        assert(group_items_from(gs, i) == 0);
    } else {
        assert(gs.push(g)[i] == gs[i]);
        lemma_group_items_push(gs, g, i + 1);
    }
}

proof fn lemma_group_items_update(
    gs: Seq<(String, Vec<TreeItem>)>,
    j: int,
    g: (String, Vec<TreeItem>),
    i: int,
)
    requires
        0 <= i <= gs.len(),
        0 <= j < gs.len(),
    ensures
        group_items_from(gs.update(j, g), i) == group_items_from(gs, i) + (if i <= j {
            g.1@.len() - gs[j].1@.len()
        } else {
            0
        }),
    decreases gs.len() - i,
{
    if i < gs.len() {
        lemma_group_items_update(gs, j, g, i + 1);
        if i == j {
            assert(gs.update(j, g)[i] == g);
        } else {
            assert(gs.update(j, g)[i] == gs[i]);
        }
    }
}

proof fn lemma_group_items_suffix_shift(gs: Seq<(String, Vec<TreeItem>)>, j: int, i: int)
    requires
        0 <= j < gs.len(),
        j <= i <= gs.len() - 1,
    ensures
        group_items_from(gs.remove(j), i) == group_items_from(gs, i + 1),
    decreases gs.len() - i,
{
    if i < gs.len() - 1 {
        assert(gs.remove(j)[i] == gs[i + 1]);
        lemma_group_items_suffix_shift(gs, j, i + 1);
    } else {
        assert(group_items_from(gs.remove(j), i) == 0);
        assert(group_items_from(gs, i + 1) == 0);
    }
}

proof fn lemma_group_items_remove(gs: Seq<(String, Vec<TreeItem>)>, j: int, i: int)
    requires
        0 <= i <= j < gs.len(),
    ensures
        group_items_from(gs.remove(j), i) == group_items_from(gs, i) - gs[j].1@.len(),
    decreases j - i,
{
    if i == j {
        lemma_group_items_suffix_shift(gs, j, j);
        assert(group_items_from(gs, j) == gs[j].1@.len() + group_items_from(gs, j + 1));
    } else {
        assert(gs.remove(j)[i] == gs[i]);
        lemma_group_items_remove(gs, j, i + 1);
    }
}

/// The records at the note leaves, in tree order, from position `i` on.
pub open spec fn leaf_views_from(nodes: Seq<NodeOwned>, i: int) -> Seq<crate::notebook::NoteView>
    decreases nodes, nodes.len() - i,
{
    if i < 0 || i >= nodes.len() {
        Seq::empty()
    } else {
        node_leaf_views(nodes[i]) + leaf_views_from(nodes, i + 1)
    }
}

/// The records at the note leaves of a node's subtree, in tree order.
pub open spec fn node_leaf_views(n: NodeOwned) -> Seq<crate::notebook::NoteView>
    decreases n, 0int,
{
    match n {
        NodeOwned::Folder { children, .. } => leaf_views_from(children@, 0),
        NodeOwned::NoteDir { metadata, .. } => seq![metadata@],
    }
}

proof fn lemma_leaf_views_push(nodes: Seq<NodeOwned>, n: NodeOwned, i: int)
    requires
        0 <= i <= nodes.len(),
    ensures
        leaf_views_from(nodes.push(n), i) == leaf_views_from(nodes, i) + node_leaf_views(n),
    decreases nodes.len() - i,
{
    if i == nodes.len() {
        assert(nodes.push(n)[i] == n);
        assert(leaf_views_from(nodes.push(n), i + 1) =~= Seq::<crate::notebook::NoteView>::empty());
        assert(leaf_views_from(nodes, i) =~= Seq::<crate::notebook::NoteView>::empty());
        assert(leaf_views_from(nodes.push(n), i) =~= leaf_views_from(nodes, i)
            + node_leaf_views(n));
    } else {
        assert(nodes.push(n)[i] == nodes[i]);
        lemma_leaf_views_push(nodes, n, i + 1);
        assert(leaf_views_from(nodes.push(n), i) =~= leaf_views_from(nodes, i)
            + node_leaf_views(n));
    }
}

/// The record values an item list carries, in order.
spec fn item_views(s: Seq<TreeItem>) -> Seq<crate::notebook::NoteView> {
    Seq::new(s.len(), |k: int| s[k].meta@)
}

/// The records carried by the groups from position `i` on, as a bag.
spec fn group_views_ms(gs: Seq<(String, Vec<TreeItem>)>, i: int) -> vstd::multiset::Multiset<
    crate::notebook::NoteView,
>
    decreases gs.len() - i,
{
    if i < 0 || i >= gs.len() {
        vstd::multiset::Multiset::empty()
    } else {
        item_views(gs[i].1@).to_multiset().add(group_views_ms(gs, i + 1))
    }
}

/// Adding the same bag to both sides is injective.
proof fn lemma_ms_cancel(
    a: vstd::multiset::Multiset<crate::notebook::NoteView>,
    b: vstd::multiset::Multiset<crate::notebook::NoteView>,
    c: vstd::multiset::Multiset<crate::notebook::NoteView>,
)
    requires
        a.add(c) == b.add(c),
    ensures
        a == b,
{
    broadcast use vstd::multiset::group_multiset_axioms;

    assert forall|e: crate::notebook::NoteView| #[trigger] a.count(e) == b.count(e) by {
        assert(a.add(c).count(e) == a.count(e) + c.count(e));
        assert(b.add(c).count(e) == b.count(e) + c.count(e));
    }
    assert(a =~= b);
}

proof fn lemma_group_views_push(gs: Seq<(String, Vec<TreeItem>)>, g: (String, Vec<TreeItem>), i: int)
    requires
        0 <= i <= gs.len(),
    ensures
        group_views_ms(gs.push(g), i) =~= group_views_ms(gs, i).add(
            item_views(g.1@).to_multiset(),
        ),
    decreases gs.len() - i,
{
    broadcast use vstd::multiset::group_multiset_axioms;

    if i == gs.len() {
        assert(gs.push(g)[i] == g);
        assert(group_views_ms(gs.push(g), i + 1) =~= vstd::multiset::Multiset::empty());
        assert(group_views_ms(gs, i) =~= vstd::multiset::Multiset::empty());
    } else {
        assert(gs.push(g)[i] == gs[i]);
        lemma_group_views_push(gs, g, i + 1);
    }
}

proof fn lemma_group_views_update(
    gs: Seq<(String, Vec<TreeItem>)>,
    j: int,
    g: (String, Vec<TreeItem>),
    i: int,
)
    requires
        0 <= i <= gs.len(),
        0 <= j < gs.len(),
        i <= j,
    ensures
        group_views_ms(gs.update(j, g), i).add(item_views(gs[j].1@).to_multiset())
            =~= group_views_ms(gs, i).add(item_views(g.1@).to_multiset()),
    decreases gs.len() - i,
{
    broadcast use vstd::multiset::group_multiset_axioms;

    if i == j {
        assert(gs.update(j, g)[i] == g);
        lemma_group_views_same_suffix(gs, j, g, i + 1);
        assert(group_views_ms(gs.update(j, g), i) == item_views(g.1@).to_multiset().add(
            group_views_ms(gs.update(j, g), i + 1),
        ));
        assert(group_views_ms(gs, i) == item_views(gs[i].1@).to_multiset().add(
            group_views_ms(gs, i + 1),
        ));
        assert(group_views_ms(gs.update(j, g), i).add(item_views(gs[j].1@).to_multiset())
            =~= group_views_ms(gs, i).add(item_views(g.1@).to_multiset()));
    } else {
        assert(gs.update(j, g)[i] == gs[i]);
        lemma_group_views_update(gs, j, g, i + 1);
        let x = item_views(gs[i].1@).to_multiset();
        let ap = group_views_ms(gs.update(j, g), i + 1);
        let a = group_views_ms(gs, i + 1);
        let oldm = item_views(gs[j].1@).to_multiset();
        let newm = item_views(g.1@).to_multiset();
        assert(group_views_ms(gs.update(j, g), i) == x.add(ap));
        assert(group_views_ms(gs, i) == x.add(a));
        assert(x.add(ap).add(oldm) =~= x.add(ap.add(oldm)));
        assert(x.add(a).add(newm) =~= x.add(a.add(newm)));
        assert(group_views_ms(gs.update(j, g), i).add(item_views(gs[j].1@).to_multiset())
            =~= group_views_ms(gs, i).add(item_views(g.1@).to_multiset()));
    }
}

proof fn lemma_group_views_same_suffix(
    gs: Seq<(String, Vec<TreeItem>)>,
    j: int,
    g: (String, Vec<TreeItem>),
    i: int,
)
    requires
        0 <= j < gs.len(),
        j < i,
        i <= gs.len(),
    ensures
        group_views_ms(gs.update(j, g), i) =~= group_views_ms(gs, i),
    decreases gs.len() - i,
{
    broadcast use vstd::multiset::group_multiset_axioms;

    if i < gs.len() {
        assert(gs.update(j, g)[i] == gs[i]);
        lemma_group_views_same_suffix(gs, j, g, i + 1);
    }
}

proof fn lemma_group_views_remove_shift(gs: Seq<(String, Vec<TreeItem>)>, j: int, i: int)
    requires
        0 <= j < gs.len(),
        j <= i <= gs.len() - 1,
    ensures
        group_views_ms(gs.remove(j), i) =~= group_views_ms(gs, i + 1),
    decreases gs.len() - i,
{
    broadcast use vstd::multiset::group_multiset_axioms;

    if i < gs.len() - 1 {
        assert(gs.remove(j)[i] == gs[i + 1]);
        lemma_group_views_remove_shift(gs, j, i + 1);
    }
}

proof fn lemma_group_views_remove(gs: Seq<(String, Vec<TreeItem>)>, j: int, i: int)
    requires
        0 <= i <= j < gs.len(),
    ensures
        group_views_ms(gs.remove(j), i).add(item_views(gs[j].1@).to_multiset()) =~= group_views_ms(
            gs,
            i,
        ),
    decreases j - i,
{
    broadcast use vstd::multiset::group_multiset_axioms;

    if i == j {
        lemma_group_views_remove_shift(gs, j, j);
    } else {
        assert(gs.remove(j)[i] == gs[i]);
        lemma_group_views_remove(gs, j, i + 1);
    }
}

/// Whether the path holds at least one character that names something: a
/// character that is neither a separator nor a dot. Such a path always
/// yields at least one segment, hence one leaf in the tree.
pub open spec fn has_name_char(s: Seq<char>) -> bool {
    exists|i: int| 0 <= i < s.len() && s[i] != '/' && s[i] != '.'
}

/// A text free of separators.
pub open spec fn field_no_slash(f: Seq<char>) -> bool {
    forall|j: int| 0 <= j < f.len() ==> f[j] != '/'
}

/// A well-formed path segment: non-empty, free of separators, not `"."`.
pub open spec fn seg_wf(seg: Seq<char>) -> bool {
    seg.len() > 0 && field_no_slash(seg) && seg != seq!['.']
}

/// The fields of a path, cut at every separator, empty fields kept.
pub open spec fn raw_fields(s: Seq<char>) -> Seq<Seq<char>>
    decreases s.len(),
{
    if s.len() == 0 {
        seq![Seq::<char>::empty()]
    } else if s[0] == '/' {
        seq![Seq::<char>::empty()] + raw_fields(s.skip(1))
    } else {
        let r = raw_fields(s.skip(1));
        r.update(0, seq![s[0]] + r[0])
    }
}

/// Whether a field survives as a segment: non-empty and not `"."`.
pub open spec fn keep_field(f: Seq<char>) -> bool {
    f.len() > 0 && f != seq!['.']
}

/// The fields that survive as segments.
pub open spec fn kept_fields(fs: Seq<Seq<char>>) -> Seq<Seq<char>> {
    fs.filter(|f: Seq<char>| keep_field(f))
}

/// The segments of a path: its fields, dropping empty and `"."` fields.
pub open spec fn spec_segments(s: Seq<char>) -> Seq<Seq<char>> {
    kept_fields(raw_fields(s))
}

/// The path a chain of segments spells, joined by separators.
pub open spec fn spec_join(segs: Seq<Seq<char>>) -> Seq<char>
    decreases segs.len(),
{
    if segs.len() == 0 {
        Seq::empty()
    } else if segs.len() == 1 {
        segs[0]
    } else {
        segs[0] + seq!['/'] + spec_join(segs.skip(1))
    }
}

proof fn lemma_join_snoc(segs: Seq<Seq<char>>, x: Seq<char>)
    ensures
        spec_join(segs.push(x)) == if segs.len() == 0 {
            x
        } else {
            spec_join(segs) + seq!['/'] + x
        },
    decreases segs.len(),
{
    if segs.len() == 0 {
        assert(segs.push(x)[0] == x);
    } else if segs.len() == 1 {
        assert(segs.push(x)[0] == segs[0]);
        assert(segs.push(x).skip(1) =~= seq![x]);
        assert(spec_join(seq![x]) == x);
    } else {
        assert(segs.push(x)[0] == segs[0]);
        assert(segs.push(x).skip(1) =~= segs.skip(1).push(x));
        lemma_join_snoc(segs.skip(1), x);
        assert(spec_join(segs.push(x)) =~= spec_join(segs) + seq!['/'] + x);
    }
}

proof fn lemma_join_nonempty(segs: Seq<Seq<char>>)
    requires
        segs.len() > 0,
        seg_wf(segs[0]),
    ensures
        spec_join(segs).len() > 0,
{
}

proof fn lemma_raw_fields_len(s: Seq<char>)
    ensures
        raw_fields(s).len() >= 1,
    decreases s.len(),
{
    if s.len() > 0 {
        lemma_raw_fields_len(s.skip(1));
    }
}

proof fn lemma_raw_fields_no_slash(s: Seq<char>)
    ensures
        forall|k: int|
            0 <= k < raw_fields(s).len() ==> field_no_slash(#[trigger] raw_fields(s)[k]),
    decreases s.len(),
{
    if s.len() > 0 {
        lemma_raw_fields_no_slash(s.skip(1));
        lemma_raw_fields_len(s.skip(1));
        if s[0] != '/' {
            let r = raw_fields(s.skip(1));
            assert forall|k: int|
                0 <= k < raw_fields(s).len() implies field_no_slash(
                #[trigger] raw_fields(s)[k],
            ) by {
                if k == 0 {
                    assert(raw_fields(s)[0] == seq![s[0]] + r[0]);
                    assert(field_no_slash(r[0]));
                } else {
                    assert(raw_fields(s)[k] == r[k]);
                }
            }
        }
    }
}

/// A text without separators is a single field.
proof fn lemma_raw_fields_single(s: Seq<char>)
    requires
        field_no_slash(s),
    ensures
        raw_fields(s) == seq![s],
    decreases s.len(),
{
    if s.len() == 0 {
        assert(s =~= Seq::<char>::empty());
        assert(raw_fields(s) =~= seq![s]);
    } else {
        assert(s[0] != '/');
        assert(field_no_slash(s.skip(1)));
        lemma_raw_fields_single(s.skip(1));
        assert(seq![s[0]] + s.skip(1) =~= s);
        assert(raw_fields(s) =~= seq![s]);
    }
}

/// A separator after a separator-free run cuts off exactly that run.
proof fn lemma_raw_fields_break(cur: Seq<char>, rest: Seq<char>)
    requires
        field_no_slash(cur),
    ensures
        raw_fields(cur + seq!['/'] + rest) == seq![cur] + raw_fields(rest),
    decreases cur.len(),
{
    let s = cur + seq!['/'] + rest;
    if cur.len() == 0 {
        assert(s[0] == '/');
        assert(s.skip(1) =~= rest);
        assert(cur =~= Seq::<char>::empty());
        assert(raw_fields(s) =~= seq![cur] + raw_fields(rest));
    } else {
        assert(s[0] == cur[0]);
        assert(cur[0] != '/');
        assert(s.skip(1) =~= cur.skip(1) + seq!['/'] + rest);
        assert(field_no_slash(cur.skip(1)));
        lemma_raw_fields_break(cur.skip(1), rest);
        let r = raw_fields(s.skip(1));
        assert(r == seq![cur.skip(1)] + raw_fields(rest));
        lemma_raw_fields_len(rest);
        assert(r[0] == cur.skip(1));
        assert(seq![s[0]] + cur.skip(1) =~= cur);
        assert(raw_fields(s) =~= seq![cur] + raw_fields(rest));
    }
}

/// Filtering a single field keeps or drops it whole.
proof fn lemma_filter_single(f: Seq<char>)
    ensures
        kept_fields(seq![f]) == if keep_field(f) {
            seq![f]
        } else {
            Seq::<Seq<char>>::empty()
        },
{
    reveal(Seq::filter);
    assert(seq![f].drop_last() =~= Seq::<Seq<char>>::empty());
    assert(seq![f].last() == f);
    assert(Seq::<Seq<char>>::empty().filter(|x: Seq<char>| keep_field(x))
        =~= Seq::<Seq<char>>::empty());
    if keep_field(f) {
        assert(seq![f].filter(|x: Seq<char>| keep_field(x)) =~= seq![f]);
    }
}

/// Every segment of a path is well formed.
pub proof fn lemma_segments_wf(s: Seq<char>)
    ensures
        forall|k: int|
            0 <= k < spec_segments(s).len() ==> seg_wf(#[trigger] spec_segments(s)[k]),
{
    lemma_raw_fields_no_slash(s);
    lemma_filter_wf(raw_fields(s));
}

proof fn lemma_filter_wf(fs: Seq<Seq<char>>)
    requires
        forall|k: int| 0 <= k < fs.len() ==> field_no_slash(#[trigger] fs[k]),
    ensures
        forall|k: int|
            0 <= k < kept_fields(fs).len() ==> seg_wf(#[trigger] kept_fields(fs)[k]),
    decreases fs.len(),
{
    reveal(Seq::filter);
    if fs.len() > 0 {
        assert(forall|k: int|
            0 <= k < fs.drop_last().len() ==> field_no_slash(#[trigger] fs.drop_last()[k]));
        lemma_filter_wf(fs.drop_last());
        let sub = kept_fields(fs.drop_last());
        let out = kept_fields(fs);
        assert(fs.last() == fs[fs.len() - 1]);
        if keep_field(fs.last()) {
            assert(out == sub.push(fs.last()));
            assert forall|k: int| 0 <= k < out.len() implies seg_wf(#[trigger] out[k]) by {
                if k < sub.len() {
                    assert(out[k] == sub[k]);
                } else {
                    assert(out[k] == fs.last());
                    assert(field_no_slash(fs.last()));
                }
            }
        } else {
            assert(out == sub);
        }
    }
}

/// Splits a relative path into its segments, dropping empty and `"."`
/// segments. A path with any real name character yields at least one
/// segment.
fn split_segments(s: &str) -> (r: Vec<String>)
    ensures
        r.deep_view() == spec_segments(s@),
        has_name_char(s@) ==> r@.len() >= 1,
{
    let n = s.unicode_len();
    let mut segs: Vec<String> = Vec::new();
    let mut cur = String::new();
    let mut i: usize = 0;
    proof {
        assert(cur@ + s@.skip(0) =~= s@);
        assert(segs.deep_view() =~= Seq::<Seq<char>>::empty());
        assert(segs.deep_view() + spec_segments(cur@ + s@.skip(0)) =~= spec_segments(s@));
    }
    while i < n
        invariant
            n == s@.len(),
            i <= n,
            field_no_slash(cur@),
            segs.deep_view() + spec_segments(cur@ + s@.skip(i as int)) == spec_segments(s@),
            segs@.len() == segs.deep_view().len(),
            (exists|k: int| 0 <= k < i && s@[k] != '/' && s@[k] != '.') ==> segs@.len() >= 1 || (
            exists|k: int| 0 <= k < cur@.len() && cur@[k] != '.'),
        decreases n - i,
    {
        let ghost pre_cur = cur@;
        let ghost pre_segs = segs.deep_view();
        let ghost remaining = cur@ + s@.skip(i as int);
        let c = s.get_char(i);
        proof {
            assert(s@.skip(i as int) =~= seq![c] + s@.skip(i as int + 1));
        }
        if c == '/' {
            proof {
                assert(remaining =~= pre_cur + seq!['/'] + s@.skip(i as int + 1));
                lemma_raw_fields_break(pre_cur, s@.skip(i as int + 1));
                lemma_kept_fields_add(seq![pre_cur], raw_fields(s@.skip(i as int + 1)));
                lemma_filter_single(pre_cur);
                assert(spec_segments(remaining) == kept_fields(seq![pre_cur]) + spec_segments(
                    s@.skip(i as int + 1),
                ));
            }
            let keep = keep_current(cur.as_str());
            if keep {
                segs.push(cur);
                proof {
                    assert(segs.deep_view() =~= pre_segs.push(pre_cur));
                    assert(kept_fields(seq![pre_cur]) == seq![pre_cur]);
                    assert(segs.deep_view() + spec_segments(s@.skip(i as int + 1))
                        =~= pre_segs + spec_segments(remaining));
                }
            } else {
                proof {
                    // A dropped field was empty or a lone dot, so it held
                    // no name character and no segment.
                    assert(forall|k: int| 0 <= k < pre_cur.len() ==> pre_cur[k] == '.');
                    assert(kept_fields(seq![pre_cur]) =~= Seq::<Seq<char>>::empty());
                    assert(segs.deep_view() + spec_segments(s@.skip(i as int + 1))
                        =~= pre_segs + spec_segments(remaining));
                }
            }
            cur = String::new();
            proof {
                assert(cur@ + s@.skip(i as int + 1) =~= s@.skip(i as int + 1));
            }
        } else {
            crate::text::push_char(&mut cur, c);
            proof {
                if c != '.' {
                    assert(cur@[pre_cur.len() as int] != '.');
                }
                assert(forall|k: int| 0 <= k < pre_cur.len() ==> cur@[k] == pre_cur[k]);
                assert(cur@ + s@.skip(i as int + 1) =~= remaining);
            }
        }
        i = i + 1;
    }
    proof {
        assert(s@.skip(n as int) =~= Seq::<char>::empty());
        assert(cur@ + s@.skip(n as int) =~= cur@);
        lemma_raw_fields_single(cur@);
        lemma_filter_single(cur@);
        assert(spec_segments(cur@) == kept_fields(seq![cur@]));
    }
    let ghost pre_segs = segs.deep_view();
    let ghost pre_cur = cur@;
    let keep = keep_current(cur.as_str());
    if keep {
        segs.push(cur);
        proof {
            assert(segs.deep_view() =~= pre_segs.push(pre_cur));
            assert(segs.deep_view() =~= pre_segs + spec_segments(pre_cur));
        }
    } else {
        proof {
            assert(forall|k: int| 0 <= k < cur@.len() ==> cur@[k] == '.');
            assert(segs.deep_view() =~= pre_segs + spec_segments(pre_cur));
        }
    }
    proof {
        assert(segs.deep_view() == spec_segments(s@));
    }
    segs
}

/// Whether the text gathered since the last separator survives as a
/// segment.
fn keep_current(cur: &str) -> (r: bool)
    ensures
        r == keep_field(cur@),
{
    let n = cur.unicode_len();
    if n == 0 {
        false
    } else if n == 1 {
        proof {
            if cur@[0] == '.' {
                assert(cur@ =~= seq!['.']);
            } else {
                assert(cur@ != seq!['.']);
            }
        }
        cur.get_char(0) != '.'
    } else {
        proof {
            assert(cur@ != seq!['.']);
        }
        true
    }
}

/// Dropping fields distributes over joining field lists.
proof fn lemma_kept_fields_add(a: Seq<Seq<char>>, b: Seq<Seq<char>>)
    ensures
        kept_fields(a + b) == kept_fields(a) + kept_fields(b),
    decreases b.len(),
{
    reveal(Seq::filter);
    if b.len() == 0 {
        assert(a + b =~= a);
        assert(kept_fields(b) =~= Seq::<Seq<char>>::empty());
        assert(kept_fields(a) + kept_fields(b) =~= kept_fields(a));
    } else {
        lemma_kept_fields_add(a, b.drop_last());
        assert((a + b).drop_last() =~= a + b.drop_last());
        assert((a + b).len() > 0);
        assert((a + b).last() == b.last());
        if keep_field(b.last()) {
            assert(kept_fields(a + b) == kept_fields(a + b.drop_last()).push(b.last()));
            assert(kept_fields(b) == kept_fields(b.drop_last()).push(b.last()));
            assert(kept_fields(a + b) =~= kept_fields(a) + kept_fields(b));
        } else {
            assert(kept_fields(a + b) == kept_fields(a + b.drop_last()));
            assert(kept_fields(b) == kept_fields(b.drop_last()));
            assert(kept_fields(a + b) =~= kept_fields(a) + kept_fields(b));
        }
    }
}

/// Builds one level of the tree from items that all still have at least
/// one segment left, grouping by head segment and recursing.
fn build_level(
    items: Vec<TreeItem>,
    prefix: String,
    fm: &FlagMap,
    depth: usize,
    Ghost(allowed): Ghost<Set<crate::notebook::NoteView>>,
    Ghost(pre): Ghost<Seq<Seq<char>>>,
) -> (r: Vec<NodeOwned>)
    requires
        fm.wf(),
        prefix@ == spec_join(pre),
        forall|k: int| 0 <= k < pre.len() ==> seg_wf(#[trigger] pre[k]),
        forall|i: int|
            0 <= i < items@.len() ==> item_ok(#[trigger] items@[i], depth as int, pre, allowed),
    ensures
        tree_ok(r@, pre, *fm, allowed),
        leaf_count_from(r@, 0) == items@.len(),
        leaf_views_from(r@, 0).to_multiset() == item_views(items@).to_multiset(),
    decreases depth,
{
    let ghost dm = depth as int - 1;
    let ghost total = items@.len() as int;
    let ghost total_ms = item_views(items@).to_multiset();
    let mut groups: Vec<(String, Vec<TreeItem>)> = Vec::new();
    let mut leaf_items: Vec<TreeItem> = Vec::new();
    let mut rest = items;
    proof {
        broadcast use group_to_multiset_ensures;
        broadcast use vstd::multiset::group_multiset_axioms;

        assert(item_views(leaf_items@) =~= Seq::<crate::notebook::NoteView>::empty());
        assert(item_views(leaf_items@).to_multiset() =~= vstd::multiset::Multiset::empty());
        assert(item_views(rest@) == item_views(items@));
        assert(item_views(leaf_items@).to_multiset().add(group_views_ms(groups@, 0)).add(
            item_views(rest@).to_multiset(),
        ) =~= total_ms);
    }
    while rest.len() > 0
        invariant
            dm == depth as int - 1,
            leaf_items@.len() + group_items_from(groups@, 0) + rest@.len() == total,
            item_views(leaf_items@).to_multiset().add(group_views_ms(groups@, 0)).add(
                item_views(rest@).to_multiset(),
            ) == total_ms,
            forall|i: int|
                0 <= i < rest@.len() ==> item_ok(#[trigger] rest@[i], depth as int, pre, allowed),
            forall|g: int| 0 <= g < groups@.len() ==> group_ok(#[trigger] groups@[g], dm, pre, allowed),
            forall|g1: int, g2: int|
                0 <= g1 < g2 < groups@.len() ==> (#[trigger] groups@[g1]).0@ != (
                #[trigger] groups@[g2]).0@,
            forall|i: int|
                0 <= i < leaf_items@.len() ==> item_ok(
                    #[trigger] leaf_items@[i],
                    depth as int,
                    pre,
                    allowed,
                ) && item_rem(leaf_items@[i]) == 1,
        decreases rest.len(),
    {
        let ghost pre_rest = rest@;
        let ghost pre_leaves = leaf_items@;
        let it = rest.remove(0);
        let ghost mv = it.meta@;
        assert(item_ok(pre_rest[0], depth as int, pre, allowed));
        proof {
            broadcast use group_to_multiset_ensures;
            broadcast use vstd::multiset::group_multiset_axioms;

            assert(item_views(pre_rest) =~= seq![mv] + item_views(rest@));
            vstd::seq_lib::lemma_multiset_commutative(seq![mv], item_views(rest@));
            assert(item_views(pre_rest).to_multiset() == seq![mv].to_multiset().add(
                item_views(rest@).to_multiset(),
            ));
        }
        if it.segs.len() - it.pos == 1 {
            leaf_items.push(it);
            proof {
                broadcast use group_to_multiset_ensures;
                broadcast use vstd::multiset::group_multiset_axioms;

                let sing = seq![mv].to_multiset();
                let lm = item_views(pre_leaves).to_multiset();
                let g0 = group_views_ms(groups@, 0);
                let r2 = item_views(rest@).to_multiset();
                assert(item_views(leaf_items@) =~= item_views(pre_leaves) + seq![mv]);
                vstd::seq_lib::lemma_multiset_commutative(item_views(pre_leaves), seq![mv]);
                assert(item_views(leaf_items@).to_multiset() == lm.add(sing));
                assert(lm.add(sing).add(g0).add(r2) =~= lm.add(g0).add(sing.add(r2)));
                assert(item_views(leaf_items@).to_multiset().add(group_views_ms(groups@, 0)).add(
                    item_views(rest@).to_multiset(),
                ) =~= total_ms);
            }
        } else {
            let head = it.segs[it.pos].clone();
            let ghost hv = head@;
            let sub_item = TreeItem { segs: it.segs, pos: it.pos + 1, meta: it.meta };
            proof {
                let dv = sub_item.segs.deep_view();
                assert(hv == dv[sub_item.pos - 1]);
                assert(dv.take(sub_item.pos as int) =~= dv.take(sub_item.pos - 1).push(
                    dv[sub_item.pos - 1],
                ));
                assert(seg_wf(hv));
            }
            assert(item_ok(sub_item, dm, pre.push(hv), allowed));
            let mut g: usize = 0;
            let mut found: Option<usize> = None;
            while g < groups.len()
                invariant
                    g <= groups.len(),
                    match found {
                        Some(fi) => fi < g && groups@[fi as int].0@ == hv,
                        None => forall|k: int| 0 <= k < g ==> (#[trigger] groups@[k]).0@ != hv,
                    },
                    hv == head@,
                decreases groups.len() - g,
            {
                if found.is_none() && str_eq(groups[g].0.as_str(), head.as_str()) {
                    found = Some(g);
                }
                g = g + 1;
            }
            match found {
                Some(fi) => {
                    let ghost pre_groups = groups@;
                    let ghost fig = fi as int;
                    let mut pair = groups.remove(fi);
                    let ghost pre_pair_items = pair.1@;
                    pair.1.push(sub_item);
                    groups.insert(fi, pair);
                    proof {
                        broadcast use group_to_multiset_ensures;
                        broadcast use vstd::multiset::group_multiset_axioms;

                        assert(groups@ =~= pre_groups.update(fig, groups@[fig]));
                        lemma_group_items_update(pre_groups, fig, groups@[fig], 0);
                        lemma_group_views_update(pre_groups, fig, groups@[fig], 0);
                        assert(groups@[fig].1@.len() == pre_groups[fig].1@.len() + 1);
                        assert(groups@[fig].0@ == pre_groups[fig].0@);
                        assert(group_ok(pre_groups[fig], dm, pre, allowed));
                        assert forall|k: int|
                            0 <= k < groups@[fig].1@.len() implies item_ok(
                            #[trigger] groups@[fig].1@[k],
                            dm,
                            pre.push(groups@[fig].0@),
                            allowed,
                        ) by {
                            if k < pre_pair_items.len() {
                                assert(groups@[fig].1@[k] == pre_pair_items[k]);
                            } else {
                                assert(groups@[fig].1@[k] == sub_item);
                            }
                        }
                        assert forall|g1: int, g2: int|
                            0 <= g1 < g2 < groups@.len() implies (#[trigger] groups@[g1]).0@ != (
                        #[trigger] groups@[g2]).0@ by {
                            assert(groups@[g1].0@ == pre_groups[g1].0@);
                            assert(groups@[g2].0@ == pre_groups[g2].0@);
                        }
                        assert(groups@[fig] == pair);
                        assert(groups@[fig].1@ =~= pre_pair_items.push(sub_item));
                        assert(sub_item.meta@ == mv);
                        let sing = seq![mv].to_multiset();
                        let lm = item_views(leaf_items@).to_multiset();
                        let gold = group_views_ms(pre_groups, 0);
                        let gnew = group_views_ms(groups@, 0);
                        let oldm = item_views(pre_pair_items).to_multiset();
                        let newm = item_views(groups@[fig].1@).to_multiset();
                        let r2 = item_views(rest@).to_multiset();
                        assert(item_views(groups@[fig].1@) =~= item_views(pre_pair_items) + seq![
                            mv,
                        ]);
                        vstd::seq_lib::lemma_multiset_commutative(
                            item_views(pre_pair_items),
                            seq![mv],
                        );
                        assert(newm == oldm.add(sing));
                        assert(gnew.add(oldm) == gold.add(newm));
                        assert(gold.add(oldm.add(sing)) =~= gold.add(sing).add(oldm));
                        assert(gnew.add(oldm) == gold.add(sing).add(oldm));
                        lemma_ms_cancel(gnew, gold.add(sing), oldm);
                        assert(gnew == gold.add(sing));
                        assert(lm.add(gold.add(sing)).add(r2) =~= lm.add(gold).add(sing.add(r2)));
                        assert(item_views(leaf_items@).to_multiset().add(
                            group_views_ms(groups@, 0),
                        ).add(item_views(rest@).to_multiset()) =~= total_ms);
                    }
                },
                None => {
                    let ghost pre_groups = groups@;
                    let mut sub: Vec<TreeItem> = Vec::new();
                    sub.push(sub_item);
                    groups.push((head, sub));
                    proof {
                        broadcast use group_to_multiset_ensures;
                        broadcast use vstd::multiset::group_multiset_axioms;

                        assert(groups@ =~= pre_groups.push(groups@.last()));
                        lemma_group_items_push(pre_groups, groups@.last(), 0);
                        lemma_group_views_push(pre_groups, groups@.last(), 0);
                        assert(groups@.last().0@ == hv);
                        let sing = seq![mv].to_multiset();
                        let lm = item_views(leaf_items@).to_multiset();
                        let gold = group_views_ms(pre_groups, 0);
                        let gnew = group_views_ms(groups@, 0);
                        let r2 = item_views(rest@).to_multiset();
                        assert(item_views(groups@.last().1@) =~= seq![mv]);
                        assert(gnew == gold.add(sing));
                        assert(lm.add(gold.add(sing)).add(r2) =~= lm.add(gold).add(sing.add(r2)));
                        assert(item_views(leaf_items@).to_multiset().add(
                            group_views_ms(groups@, 0),
                        ).add(item_views(rest@).to_multiset()) =~= total_ms);
                    }
                },
            }
        }
    }
    let mut result: Vec<NodeOwned> = Vec::new();
    proof {
        broadcast use group_to_multiset_ensures;
        broadcast use vstd::multiset::group_multiset_axioms;

        assert(item_views(rest@) =~= Seq::<crate::notebook::NoteView>::empty());
        assert(item_views(rest@).to_multiset() =~= vstd::multiset::Multiset::empty());
        assert(leaf_views_from(result@, 0) =~= Seq::<crate::notebook::NoteView>::empty());
        assert(leaf_views_from(result@, 0).to_multiset() =~= vstd::multiset::Multiset::empty());
        assert(leaf_views_from(result@, 0).to_multiset().add(group_views_ms(groups@, 0)).add(
            item_views(leaf_items@).to_multiset(),
        ) =~= total_ms);
    }
    while groups.len() > 0
        invariant
            dm == depth as int - 1,
            prefix@ == spec_join(pre),
            forall|k: int| 0 <= k < pre.len() ==> seg_wf(#[trigger] pre[k]),
            leaf_count_from(result@, 0) + group_items_from(groups@, 0) + leaf_items@.len()
                == total,
            leaf_views_from(result@, 0).to_multiset().add(group_views_ms(groups@, 0)).add(
                item_views(leaf_items@).to_multiset(),
            ) == total_ms,
            fm.wf(),
            forall|g: int| 0 <= g < groups@.len() ==> group_ok(#[trigger] groups@[g], dm, pre, allowed),
            forall|g1: int, g2: int|
                0 <= g1 < g2 < groups@.len() ==> (#[trigger] groups@[g1]).0@ != (
                #[trigger] groups@[g2]).0@,
            forall|i: int|
                0 <= i < leaf_items@.len() ==> item_ok(
                    #[trigger] leaf_items@[i],
                    depth as int,
                    pre,
                    allowed,
                ) && item_rem(leaf_items@[i]) == 1,
            level_sorted(result@),
            forall|i: int| 0 <= i < result@.len() ==> is_folder_node(#[trigger] result@[i]),
            forall|i: int|
                0 <= i < result@.len() ==> #[trigger] node_ok(result@[i], pre, *fm, allowed),
            forall|i: int, g: int|
                0 <= i < result@.len() && 0 <= g < groups@.len() ==> spec_str_lt(
                    node_name(#[trigger] result@[i]),
                    (#[trigger] groups@[g]).0@,
                ),
        decreases groups.len(),
    {
        // Select the group with the least name, so folders come out sorted.
        let mut best: usize = 0;
        let mut j: usize = 1;
        while j < groups.len()
            invariant
                best < j <= groups.len(),
                groups.len() > 0,
                forall|k: int| 0 <= k < j ==> spec_str_le(groups@[best as int].0@, (#[trigger] groups@[k]).0@),
            decreases groups.len() - j,
        {
            if str_lt(groups[j].0.as_str(), groups[best].0.as_str()) {
                proof {
                    let ghost bj = j as int;
                    assert forall|k: int| 0 <= k < bj + 1 implies spec_str_le(
                        groups@[bj].0@,
                        (#[trigger] groups@[k]).0@,
                    ) by {
                        lemma_str_lt_trichotomy(groups@[bj].0@, groups@[best as int].0@);
                        if k < bj && groups@[best as int].0@ != groups@[k].0@ {
                            lemma_str_lt_trans(groups@[bj].0@, groups@[best as int].0@, groups@[k].0@);
                        }
                    }
                }
                best = j;
            } else {
                proof {
                    lemma_str_lt_trichotomy(groups@[j as int].0@, groups@[best as int].0@);
                }
            }
            j = j + 1;
        }
        let ghost pre_groups = groups@;
        let ghost bi = best as int;
        let pair = groups.remove(best);
        let (name, sub) = pair;
        proof {
            lemma_group_items_remove(pre_groups, bi, 0);
            lemma_group_views_remove(pre_groups, bi, 0);
        }
        assert(group_ok(pre_groups[bi], dm, pre, allowed));
        // Each sub-item lost one segment, so the level below needs one
        // less depth; a nonempty group witnesses that depth allows it.
        assert(item_ok(pre_groups[bi].1@[0], dm, pre.push(pre_groups[bi].0@), allowed));
        assert(item_rem(pre_groups[bi].1@[0]) >= 1);
        assert(dm >= 1);
        assert(depth >= 2);
        assert(sub@ == pre_groups[bi].1@);
        assert(name@ == pre_groups[bi].0@);
        assert(forall|k: int|
            0 <= k < sub@.len() ==> item_ok(
                #[trigger] sub@[k],
                (depth - 1) as int,
                pre.push(name@),
                allowed,
            ));
        let path = join_path(prefix.as_str(), name.as_str());
        proof {
            lemma_join_snoc(pre, name@);
            if pre.len() == 0 {
                assert(prefix@.len() == 0);
                assert(path@ == spec_join(pre.push(name@)));
            } else {
                lemma_join_nonempty(pre);
                assert(prefix@.len() > 0);
                assert(path@ == spec_join(pre.push(name@)));
            }
            assert(forall|k: int|
                0 <= k < pre.push(name@).len() ==> seg_wf(#[trigger] pre.push(name@)[k]));
        }
        let children = build_level(
            sub,
            path.clone(),
            fm,
            depth - 1,
            Ghost(allowed),
            Ghost(pre.push(name@)),
        );
        let ghost gch = children@;
        proof {
            assert(level_sorted(gch));
            assert(nodes_ok_from(gch, 0, pre.push(name@), *fm, allowed));
        }
        let expanded = fm.get(path.as_str());
        let node = NodeOwned::Folder { name, children, is_expanded: expanded, path };
        proof {
            broadcast use group_to_multiset_ensures;
            broadcast use vstd::multiset::group_multiset_axioms;

            assert(node->Folder_children@ == gch);
            assert(node_ok(node, pre, *fm, allowed));
            lemma_leaf_count_push(result@, node, 0);
            assert(node_leaf_count(node) == sub@.len());
            lemma_leaf_views_push(result@, node, 0);
            assert(node_leaf_views(node).to_multiset() == item_views(sub@).to_multiset());
            vstd::seq_lib::lemma_multiset_commutative(leaf_views_from(result@, 0), node_leaf_views(node));
            assert(leaf_views_from(result@.push(node), 0).to_multiset() =~= leaf_views_from(
                result@,
                0,
            ).to_multiset().add(node_leaf_views(node).to_multiset()));
            assert(leaf_views_from(result@.push(node), 0).to_multiset().add(
                group_views_ms(groups@, 0),
            ).add(item_views(leaf_items@).to_multiset()) =~= total_ms);
            assert(forall|g: int|
                0 <= g < groups@.len() ==> pre_groups.contains(#[trigger] groups@[g]));
            assert forall|g1: int, g2: int|
                0 <= g1 < g2 < groups@.len() implies (#[trigger] groups@[g1]).0@ != (
            #[trigger] groups@[g2]).0@ by {
                let o1 = if g1 < bi {
                    g1
                } else {
                    g1 + 1
                };
                let o2 = if g2 < bi {
                    g2
                } else {
                    g2 + 1
                };
                assert(groups@[g1] == pre_groups[o1]);
                assert(groups@[g2] == pre_groups[o2]);
            }
            assert forall|i: int, g: int|
                0 <= i < result@.len() + 1 && 0 <= g < groups@.len() implies spec_str_lt(
                    node_name(#[trigger] result@.push(node)[i]),
                    (#[trigger] groups@[g]).0@,
                ) by {
                let o = if g < bi {
                    g
                } else {
                    g + 1
                };
                assert(groups@[g] == pre_groups[o]);
                if i < result@.len() {
                    assert(spec_str_lt(node_name(result@[i]), pre_groups[o].0@));
                } else {
                    assert(spec_str_le(pre_groups[bi].0@, pre_groups[o].0@));
                    assert(pre_groups[bi].0@ != pre_groups[o].0@);
                }
            }
        }
        result.push(node);
    }
    proof {
        broadcast use vstd::multiset::group_multiset_axioms;

        assert(group_items_from(groups@, 0) == 0);
        assert(group_views_ms(groups@, 0) =~= vstd::multiset::Multiset::empty());
    }
    while leaf_items.len() > 0
        invariant
            leaf_count_from(result@, 0) + leaf_items@.len() == total,
            leaf_views_from(result@, 0).to_multiset().add(item_views(leaf_items@).to_multiset())
                == total_ms,
            fm.wf(),
            forall|i: int|
                0 <= i < leaf_items@.len() ==> item_ok(
                    #[trigger] leaf_items@[i],
                    depth as int,
                    pre,
                    allowed,
                ) && item_rem(leaf_items@[i]) == 1,
            level_sorted(result@),
            forall|i: int|
                0 <= i < result@.len() ==> #[trigger] node_ok(result@[i], pre, *fm, allowed),
            forall|i: int, k: int|
                0 <= i < result@.len() && !is_folder_node(#[trigger] result@[i]) && 0 <= k
                    < leaf_items@.len() ==> spec_str_le(
                    node_name(result@[i]),
                    item_name(#[trigger] leaf_items@[k]),
                ),
        decreases leaf_items.len(),
    {
        let mut best: usize = 0;
        let mut j: usize = 1;
        while j < leaf_items.len()
            invariant
                best < j <= leaf_items.len(),
                leaf_items.len() > 0,
                forall|i: int|
                    0 <= i < leaf_items@.len() ==> item_ok(
                        #[trigger] leaf_items@[i],
                        depth as int,
                        pre,
                        allowed,
                    ) && item_rem(leaf_items@[i]) == 1,
                forall|k: int|
                    0 <= k < j ==> spec_str_le(
                        item_name(leaf_items@[best as int]),
                        item_name(#[trigger] leaf_items@[k]),
                    ),
            decreases leaf_items.len() - j,
        {
            if str_lt(
                leaf_items[j].segs[leaf_items[j].pos].as_str(),
                leaf_items[best].segs[leaf_items[best].pos].as_str(),
            ) {
                proof {
                    let ghost bj = j as int;
                    assert forall|k: int| 0 <= k < bj + 1 implies spec_str_le(
                        item_name(leaf_items@[bj]),
                        item_name(#[trigger] leaf_items@[k]),
                    ) by {
                        lemma_str_lt_trichotomy(
                            item_name(leaf_items@[bj]),
                            item_name(leaf_items@[best as int]),
                        );
                        if k < bj && item_name(leaf_items@[best as int]) != item_name(
                            leaf_items@[k],
                        ) {
                            lemma_str_lt_trans(
                                item_name(leaf_items@[bj]),
                                item_name(leaf_items@[best as int]),
                                item_name(leaf_items@[k]),
                            );
                        }
                    }
                }
                best = j;
            } else {
                proof {
                    lemma_str_lt_trichotomy(
                        item_name(leaf_items@[j as int]),
                        item_name(leaf_items@[best as int]),
                    );
                }
            }
            j = j + 1;
        }
        let ghost pre_leaves = leaf_items@;
        let ghost bi = best as int;
        let it = leaf_items.remove(best);
        let ghost mv = it.meta@;
        let name = it.segs[it.pos].clone();
        let path = it.meta.rel_path.clone();
        let node = NodeOwned::NoteDir { name, metadata: it.meta, path };
        proof {
            broadcast use group_to_multiset_ensures;
            broadcast use vstd::multiset::group_multiset_axioms;

            lemma_leaf_count_push(result@, node, 0);
            assert(node_leaf_count(node) == 1);
            let dv = pre_leaves[bi].segs.deep_view();
            assert(name@ == dv[pre_leaves[bi].pos as int]);
            assert(dv =~= dv.take(pre_leaves[bi].pos as int).push(dv[pre_leaves[bi].pos as int]));
            assert(node_ok(node, pre, *fm, allowed));
            lemma_leaf_views_push(result@, node, 0);
            assert(node_leaf_views(node) == seq![mv]);
            vstd::seq_lib::lemma_multiset_commutative(leaf_views_from(result@, 0), seq![mv]);
            assert(seq![mv] =~= Seq::<crate::notebook::NoteView>::empty().push(mv));
            assert(leaf_views_from(result@.push(node), 0).to_multiset() =~= leaf_views_from(
                result@,
                0,
            ).to_multiset().insert(mv));
            assert(item_views(pre_leaves)[bi] == mv);
            assert(item_views(pre_leaves).contains(item_views(pre_leaves)[bi]));
            assert(item_views(leaf_items@) =~= item_views(pre_leaves).remove(bi));
            assert(item_views(leaf_items@).to_multiset() =~= item_views(
                pre_leaves,
            ).to_multiset().remove(mv));
            assert(leaf_views_from(result@.push(node), 0).to_multiset().add(
                item_views(leaf_items@).to_multiset(),
            ) =~= total_ms);
            assert(forall|k: int|
                0 <= k < leaf_items@.len() ==> pre_leaves.contains(#[trigger] leaf_items@[k]));
            assert forall|i: int, k: int|
                0 <= i < result@.len() + 1 && !is_folder_node(#[trigger] result@.push(node)[i]) && 0
                    <= k < leaf_items@.len() implies spec_str_le(
                    node_name(result@.push(node)[i]),
                    item_name(#[trigger] leaf_items@[k]),
                ) by {
                let w = choose|w: int| 0 <= w < pre_leaves.len() && pre_leaves[w] == leaf_items@[k];
                if i < result@.len() {
                    assert(spec_str_le(node_name(result@[i]), item_name(pre_leaves[w])));
                } else {
                    assert(spec_str_le(item_name(pre_leaves[bi]), item_name(pre_leaves[w])));
                }
            }
        }
        result.push(node);
    }
    proof {
        broadcast use vstd::multiset::group_multiset_axioms;

        lemma_nodes_ok_intro(result@, 0, pre, *fm, allowed);
        assert(tree_ok(result@, pre, *fm, allowed));
        assert(leaf_count_from(result@, 0) == total);
        assert(item_views(leaf_items@) =~= Seq::<crate::notebook::NoteView>::empty());
        assert(leaf_views_from(result@, 0).to_multiset() =~= total_ms);
    }
    result
}

/// Joins a folder prefix and a name with a separator; a root-level name
/// stands alone.
fn join_path(prefix: &str, name: &str) -> (r: String)
    ensures
        prefix@.len() == 0 ==> r@ == name@,
        prefix@.len() > 0 ==> r@ == prefix@ + seq!['/'] + name@,
{
    if prefix.unicode_len() == 0 {
        name.to_owned()
    } else {
        let r = prefix.to_owned().concat("/").concat(name);
        proof {
            reveal_strlit("/");
            assert("/"@ =~= seq!['/']);
        }
        r
    }
}

/// The explorer pane: the notes of the open notebook and the expand flag
/// of every folder the notes imply.
#[derive(Debug)]
pub struct NoteExplorer {
    pub notes: Vec<NoteMetadata>,
    pub notebook_path: String,
    pub expanded_folders: FlagMap,
}

impl NoteExplorer {
    /// An explorer for the given notebook root, with no notes loaded yet.
    pub fn new(notebook_path: String) -> (r: NoteExplorer)
        ensures
            r.notes@.len() == 0,
            r.notebook_path@ == notebook_path@,
            r.expanded_folders.wf(),
            forall|k: Seq<char>| !r.expanded_folders.has_flag(k),
    {
        NoteExplorer { notes: Vec::new(), notebook_path, expanded_folders: FlagMap::new() }
    }

    /// Builds the folder/note tree for a note list against a flag map.
    /// The result is pinned by [`tree_ok`] at the empty folder chain —
    /// every level ordered with folders first and folder names unique,
    /// every folder's path the join of its chain, its flag the map's for
    /// that path (collapsed by default), every leaf a given note whose
    /// path segments spell exactly the folder chain above it — together
    /// with the bag of leaf records: exactly the given notes, except
    /// those whose paths have no segments at all, which yield no leaf.
    pub fn build_owned_tree(notes: &Vec<NoteMetadata>, expanded_folders: &FlagMap) -> (r: Vec<
        NodeOwned,
    >)
        requires
            expanded_folders.wf(),
        ensures
            tree_ok(r@, Seq::empty(), *expanded_folders, note_meta_set(notes@)),
            leaf_views_from(r@, 0).to_multiset() == crate::notebook::notes_views(notes@).filter(
                |v: crate::notebook::NoteView| spec_segments(v.rel_path).len() > 0,
            ).to_multiset(),
            leaf_count_from(r@, 0) <= notes@.len(),
            (forall|i: int| 0 <= i < notes@.len() ==> has_name_char(#[trigger] notes@[i]@.rel_path))
                ==> leaf_count_from(r@, 0) == notes@.len(),
    {
        let ghost allowed = note_meta_set(notes@);
        let ghost nv = crate::notebook::notes_views(notes@);
        let ghost pred = |v: crate::notebook::NoteView| spec_segments(v.rel_path).len() > 0;
        let mut items: Vec<TreeItem> = Vec::new();
        let mut max_rem: usize = 0;
        let mut i: usize = 0;
        proof {
            reveal(Seq::filter);
            assert(nv.take(0) =~= Seq::<crate::notebook::NoteView>::empty());
            assert(item_views(items@) =~= nv.take(0).filter(pred));
        }
        while i < notes.len()
            invariant
                allowed == note_meta_set(notes@),
                nv == crate::notebook::notes_views(notes@),
                pred == (|v: crate::notebook::NoteView| spec_segments(v.rel_path).len() > 0),
                i <= notes.len(),
                items@.len() <= i,
                item_views(items@) == nv.take(i as int).filter(pred),
                (forall|k: int| 0 <= k < i ==> has_name_char(#[trigger] notes@[k]@.rel_path))
                    ==> items@.len() == i,
                forall|k: int|
                    0 <= k < items@.len() ==> item_ok(
                        #[trigger] items@[k],
                        max_rem as int,
                        Seq::empty(),
                        allowed,
                    ),
            decreases notes.len() - i,
        {
            let ghost pre_items = items@;
            let segs = split_segments(notes[i].rel_path.as_str());
            proof {
                reveal(Seq::filter);
                assert(nv.take(i as int + 1).drop_last() =~= nv.take(i as int));
                assert(nv.take(i as int + 1).last() == nv[i as int]);
                assert(nv[i as int] == notes@[i as int]@);
                assert(segs.deep_view() == spec_segments(notes@[i as int]@.rel_path));
            }
            if segs.len() > 0 {
                if segs.len() > max_rem {
                    max_rem = segs.len();
                }
                let meta = notes[i].duplicate();
                proof {
                    broadcast use vstd::set::group_set_axioms;

                    let gi = i as int;
                    assert(exists|k: int| 0 <= k < notes@.len() && notes@[k]@ == notes@[gi]@) by {
                        assert(0 <= gi < notes@.len() && notes@[gi]@ == notes@[gi]@);
                    }
                    assert(allowed.contains(notes@[gi]@));
                    lemma_segments_wf(notes@[gi]@.rel_path);
                }
                items.push(TreeItem { segs, pos: 0, meta });
                proof {
                    reveal(Seq::filter);
                    assert(items@.last().segs.deep_view().take(0) =~= Seq::<Seq<char>>::empty());
                    assert(item_ok(items@.last(), max_rem as int, Seq::empty(), allowed));
                    assert forall|k: int|
                        0 <= k < items@.len() implies item_ok(
                        #[trigger] items@[k],
                        max_rem as int,
                        Seq::empty(),
                        allowed,
                    ) by {
                        if k < pre_items.len() {
                            assert(items@[k] == pre_items[k]);
                        }
                    }
                    assert(pred(nv[i as int]));
                    assert(item_views(items@) =~= item_views(pre_items).push(nv[i as int]));
                    assert(item_views(items@) =~= nv.take(i as int + 1).filter(pred));
                }
            } else {
                proof {
                    reveal(Seq::filter);
                    assert(!has_name_char(notes@[i as int]@.rel_path));
                    assert(!pred(nv[i as int]));
                    assert(item_views(items@) =~= nv.take(i as int + 1).filter(pred));
                }
            }
            i = i + 1;
        }
        let prefix = String::new();
        proof {
            reveal(Seq::filter);
            assert(prefix@ =~= spec_join(Seq::empty()));
            assert(nv.take(notes@.len() as int) =~= nv);
            assert(item_views(items@) == nv.filter(pred));
        }
        let r = build_level(
            items,
            prefix,
            expanded_folders,
            max_rem,
            Ghost(allowed),
            Ghost(Seq::empty()),
        );
        proof {
            assert(leaf_views_from(r@, 0).to_multiset() == nv.filter(pred).to_multiset());
        }
        r
    }

    /// Takes a freshly loaded note list: stores it sorted by relative
    /// path, and rebuilds the expand flags — every folder the new list
    /// implies keeps its old flag (collapsed when it never had one), every
    /// other key is dropped, and the root key `""` is always kept.
    pub fn notes_loaded(&mut self, notes: Vec<NoteMetadata>)
        requires
            old(self).expanded_folders.wf(),
        ensures
            final(self).expanded_folders.wf(),
            final(self).notebook_path@ == old(self).notebook_path@,
            notes_sorted(final(self).notes@),
            final(self).notes@.to_multiset() == notes@.to_multiset(),
            forall|p: Seq<char>|
                final(self).expanded_folders.has_flag(p) == (spec_is_implied_folder(
                    final(self).notes@,
                    p,
                ) || p == Seq::<char>::empty()),
            forall|p: Seq<char>|
                final(self).expanded_folders.flag_of(p) == (final(self).expanded_folders.has_flag(
                    p,
                ) && old(self).expanded_folders.flag_of(p)),
    {
        let sorted = sort_notes(notes);
        let mut m = FlagMap::new();
        let mut i: usize = 0;
        while i < sorted.len()
            invariant
                i <= sorted.len(),
                m.wf(),
                self.expanded_folders.wf(),
                self.expanded_folders == old(self).expanded_folders,
                forall|p: Seq<char>| m.has_flag(p) == implied_folder_upto(sorted@, i as int, 0, p),
                forall|p: Seq<char>| m.flag_of(p) == (m.has_flag(p) && old(
                    self,
                ).expanded_folders.flag_of(p)),
            decreases sorted.len() - i,
        {
            let rel = sorted[i].rel_path.as_str();
            let n = rel.unicode_len();
            let mut j: usize = 0;
            while j < n
                invariant
                    i < sorted.len(),
                    n == rel@.len(),
                    rel@ == sorted@[i as int]@.rel_path,
                    j <= n,
                    m.wf(),
                    self.expanded_folders.wf(),
                    self.expanded_folders == old(self).expanded_folders,
                    forall|p: Seq<char>| m.has_flag(p) == implied_folder_upto(
                        sorted@,
                        i as int,
                        j as int,
                        p,
                    ),
                    forall|p: Seq<char>| m.flag_of(p) == (m.has_flag(p) && old(
                        self,
                    ).expanded_folders.flag_of(p)),
                decreases n - j,
            {
                let is_cut = if j == 0 || rel.get_char(j) != '/' {
                    false
                } else if rel.get_char(j - 1) == '/' {
                    false
                } else if j == 1 && rel.get_char(0) == '.' {
                    false
                } else {
                    true
                };
                if is_cut {
                    assert(folder_prefix_at(sorted@[i as int]@.rel_path, j as int));
                    let fp = rel.substring_char(0, j);
                    if !m.contains(fp) {
                        let v = self.expanded_folders.get(fp);
                        m.set(fp, v);
                    }
                    proof {
                        assert forall|p: Seq<char>| m.has_flag(p) == implied_folder_upto(
                            sorted@,
                            i as int,
                            j as int + 1,
                            p,
                        ) by {
                            if p == sorted@[i as int]@.rel_path.take(j as int) {
                                assert(implied_folder_upto(sorted@, i as int, j as int + 1, p));
                            }
                        }
                    }
                } else {
                    proof {
                        assert forall|p: Seq<char>| m.has_flag(p) == implied_folder_upto(
                            sorted@,
                            i as int,
                            j as int + 1,
                            p,
                        ) by {
                            if implied_folder_upto(sorted@, i as int, j as int + 1, p) {
                                let (a, b) = choose|a: int, b: int|
                                    0 <= a < sorted@.len() && #[trigger] folder_prefix_at(
                                        sorted@[a]@.rel_path,
                                        b,
                                    ) && p == sorted@[a]@.rel_path.take(b) && (a < i || (a == i && b
                                        < j + 1));
                                assert(!(a == i && b == j));
                                assert(implied_folder_upto(sorted@, i as int, j as int, p));
                            }
                        }
                    }
                }
                j = j + 1;
            }
            proof {
                assert forall|p: Seq<char>| m.has_flag(p) == implied_folder_upto(
                    sorted@,
                    i as int + 1,
                    0,
                    p,
                ) by {
                    if implied_folder_upto(sorted@, i as int + 1, 0, p) {
                        assert(implied_folder_upto(sorted@, i as int, n as int, p));
                    }
                    if implied_folder_upto(sorted@, i as int, n as int, p) {
                        assert(implied_folder_upto(sorted@, i as int + 1, 0, p));
                    }
                }
            }
            i = i + 1;
        }
        let root_flag = self.expanded_folders.get("");
        proof {
            reveal_strlit("");
            assert(""@ =~= Seq::<char>::empty());
        }
        m.set("", root_flag);
        self.notes = sorted;
        self.expanded_folders = m;
        proof {
            assert forall|p: Seq<char>| final(self).expanded_folders.has_flag(p) == (
            spec_is_implied_folder(final(self).notes@, p) || p == Seq::<char>::empty()) by {
                if p != Seq::<char>::empty() {
                    assert(implied_folder_upto(final(self).notes@, final(self).notes@.len() as int, 0, p)
                        == spec_is_implied_folder(final(self).notes@, p));
                }
            }
        }
    }

    /// Flips the expand flag of a folder; a folder path that is not in
    /// the map is left alone.
    pub fn toggle_folder(&mut self, folder_path: &str)
        requires
            old(self).expanded_folders.wf(),
        ensures
            final(self).expanded_folders.wf(),
            final(self).notes@ == old(self).notes@,
            final(self).notebook_path@ == old(self).notebook_path@,
            forall|k: Seq<char>| final(self).expanded_folders.has_flag(k) == old(
                self,
            ).expanded_folders.has_flag(k),
            old(self).expanded_folders.has_flag(folder_path@) ==> final(self).expanded_folders.flag_of(folder_path@) == !old(self).expanded_folders.flag_of(
                folder_path@,
            ),
            !old(self).expanded_folders.has_flag(folder_path@) ==> final(self).expanded_folders
                == old(self).expanded_folders,
            forall|k: Seq<char>| k != folder_path@ ==> final(self).expanded_folders.flag_of(k)
                == old(self).expanded_folders.flag_of(k),
    {
        self.expanded_folders.toggle(folder_path);
    }

    /// Collapses every folder, then expands exactly the ancestors of the
    /// given note path, so the note becomes visible and nothing else is
    /// left open.
    pub fn collapse_all_and_expand_to(&mut self, note_path: &str)
        requires
            old(self).expanded_folders.wf(),
        ensures
            final(self).expanded_folders.wf(),
            final(self).notes@ == old(self).notes@,
            final(self).notebook_path@ == old(self).notebook_path@,
            forall|p: Seq<char>| final(self).expanded_folders.flag_of(p) == is_ancestor_of(
                note_path@,
                p,
            ),
            forall|p: Seq<char>| final(self).expanded_folders.has_flag(p) == (old(
                self,
            ).expanded_folders.has_flag(p) || is_ancestor_of(note_path@, p)),
    {
        self.expanded_folders.set_all_false();
        let n = note_path.unicode_len();
        let mut j: usize = 0;
        while j < n
            invariant
                n == note_path@.len(),
                j <= n,
                self.expanded_folders.wf(),
                self.notes@ == old(self).notes@,
                self.notebook_path@ == old(self).notebook_path@,
                forall|p: Seq<char>| self.expanded_folders.flag_of(p) == (exists|b: int|
                    folder_prefix_at(note_path@, b) && b < j && p == note_path@.take(b)),
                forall|p: Seq<char>| self.expanded_folders.has_flag(p) == (old(
                    self,
                ).expanded_folders.has_flag(p) || (exists|b: int|
                    folder_prefix_at(note_path@, b) && b < j && p == note_path@.take(b))),
            decreases n - j,
        {
            let is_cut = if j == 0 || note_path.get_char(j) != '/' {
                false
            } else if note_path.get_char(j - 1) == '/' {
                false
            } else if j == 1 && note_path.get_char(0) == '.' {
                false
            } else {
                true
            };
            if is_cut {
                assert(folder_prefix_at(note_path@, j as int));
                let fp = note_path.substring_char(0, j);
                self.expanded_folders.set(fp, true);
                proof {
                    assert forall|p: Seq<char>| self.expanded_folders.flag_of(p) == (exists|b: int|
                        folder_prefix_at(note_path@, b) && b < j + 1 && p == note_path@.take(
                            b,
                        )) by {
                        if p == note_path@.take(j as int) {
                            assert(folder_prefix_at(note_path@, j as int) && (j as int) < j + 1 && p
                                == note_path@.take(j as int));
                        }
                    }
                }
            } else {
                proof {
                    assert forall|p: Seq<char>| self.expanded_folders.flag_of(p) == (exists|b: int|
                        folder_prefix_at(note_path@, b) && b < j + 1 && p == note_path@.take(
                            b,
                        )) by {
                        if exists|b: int|
                            folder_prefix_at(note_path@, b) && b < j + 1 && p == note_path@.take(
                                b,
                            ) {
                            let b = choose|b: int|
                                folder_prefix_at(note_path@, b) && b < j + 1 && p
                                    == note_path@.take(b);
                            assert(b != j);
                        }
                    }
                }
            }
            j = j + 1;
        }
        proof {
            assert forall|p: Seq<char>| final(self).expanded_folders.flag_of(p) == is_ancestor_of(
                note_path@,
                p,
            ) by {
                if is_ancestor_of(note_path@, p) {
                    let b = choose|b: int| folder_prefix_at(note_path@, b) && p == note_path@.take(b);
                    assert(b < n);
                }
            }
        }
    }
}

/// Sorts a note list by relative path.
fn sort_notes(notes: Vec<NoteMetadata>) -> (r: Vec<NoteMetadata>)
    ensures
        notes_sorted(r@),
        r@.to_multiset() == notes@.to_multiset(),
{
    broadcast use group_to_multiset_ensures;

    let mut out: Vec<NoteMetadata> = Vec::new();
    let mut rest = notes;
    let ghost all = rest@;
    proof {
        assert(out@.to_multiset().add(rest@.to_multiset()) =~= all.to_multiset());
    }
    while rest.len() > 0
        invariant
            notes_sorted(out@),
            out@.to_multiset().add(rest@.to_multiset()) == all.to_multiset(),
        decreases rest.len(),
    {
        let ghost pre_rest = rest@;
        let it = rest.remove(0);
        proof {
            vstd::seq_lib::to_multiset_remove(pre_rest, 0);
            vstd::seq_lib::to_multiset_contains(pre_rest, it);
            assert(pre_rest.contains(it)) by {
                assert(pre_rest[0] == it);
            }
        }
        let mut j: usize = 0;
        while j < out.len() && crate::text::str_le(out[j].rel_path.as_str(), it.rel_path.as_str())
            invariant
                j <= out.len(),
                notes_sorted(out@),
                forall|k: int| 0 <= k < j ==> spec_str_le(
                    (#[trigger] out@[k])@.rel_path,
                    it@.rel_path,
                ),
            decreases out.len() - j,
        {
            j = j + 1;
        }
        let ghost pre_out = out@;
        let ghost ji = j as int;
        proof {
            if ji < pre_out.len() {
                lemma_str_lt_trichotomy(pre_out[ji]@.rel_path, it@.rel_path);
            }
        }
        out.insert(j, it);
        proof {
            assert(out@ =~= pre_out.take(ji) + seq![it] + pre_out.skip(ji));
            assert forall|a: int, b: int| 0 <= a < b < out@.len() implies spec_str_le(
                (#[trigger] out@[a])@.rel_path,
                (#[trigger] out@[b])@.rel_path,
            ) by {
                let pa = if a < ji { pre_out[a] } else if a == ji { it } else { pre_out[a - 1] };
                let pb = if b < ji { pre_out[b] } else if b == ji { it } else { pre_out[b - 1] };
                assert(out@[a] == pa && out@[b] == pb);
                if a < ji && b == ji {
                    assert(spec_str_le(pre_out[a]@.rel_path, it@.rel_path));
                } else if a == ji && b > ji {
                    assert(spec_str_lt(it@.rel_path, pre_out[ji]@.rel_path));
                    if ji < b - 1 + 1 && ji < pre_out.len() && b - 1 > ji - 1 && b - 1 < pre_out.len()
                        && ji != b - 1 {
                        assert(spec_str_le(pre_out[ji]@.rel_path, pre_out[b - 1]@.rel_path));
                        crate::text::lemma_str_le_trans(
                            it@.rel_path,
                            pre_out[ji]@.rel_path,
                            pre_out[b - 1]@.rel_path,
                        );
                    }
                } else if a < ji && b > ji {
                    assert(spec_str_le(pre_out[a]@.rel_path, pre_out[b - 1]@.rel_path));
                }
            }
            broadcast use vstd::multiset::group_multiset_axioms;

            vstd::seq_lib::to_multiset_insert(pre_out, ji, it);
            assert(out@.to_multiset() == pre_out.to_multiset().insert(it));
            assert(rest@.to_multiset() == pre_rest.to_multiset().remove(it));
            assert(pre_rest.to_multiset().count(it) > 0);
            assert(out@.to_multiset().add(rest@.to_multiset()) =~= all.to_multiset());
        }
    }
    out
}

/// Carrying the expand flags across a reload keeps an expanded folder
/// expanded as long as the new notes still imply it, and a folder first
/// implied by the new notes starts collapsed: a freshly created folder
/// never opens itself, and an open one never snaps shut.
pub proof fn lemma_expand_state_survival(
    old_map: FlagMap,
    new_map: FlagMap,
    notes: Seq<NoteMetadata>,
    kept: Seq<char>,
    fresh: Seq<char>,
)
    requires
        forall|p: Seq<char>| new_map.has_flag(p) == (spec_is_implied_folder(notes, p) || p
            == Seq::<char>::empty()),
        forall|p: Seq<char>| new_map.flag_of(p) == (new_map.has_flag(p) && old_map.flag_of(p)),
        old_map.flag_of(kept),
        spec_is_implied_folder(notes, kept),
        !old_map.flag_of(fresh),
    ensures
        new_map.flag_of(kept),
        !new_map.flag_of(fresh),
{
}

} // verus!
