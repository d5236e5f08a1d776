//! The visual tree as a mathematical value: a sequence of keyed nodes in the
//! order in which they were first seen, the patches that change it, and what
//! makes such a sequence a well-formed tree.

use crate::keys::{job_key, label_key, pipeline_key, project_key, root_key, time_key};
use vstd::prelude::*;

verus! {

/// What a node shows inside itself.
pub enum ContentView {
    /// Nothing of its own: at most the nodes that hang under it.
    Empty,
    /// A heading line with this text.
    Heading(Seq<char>),
    /// This plain text.
    Text(Seq<char>),
    /// This marked-up fragment.
    Markup(Seq<char>),
}

/// One node of the visual tree.
pub struct NodeView {
    /// The key under which it is found.
    pub key: Seq<char>,
    /// The key of the node that it hangs under.
    pub parent: Seq<char>,
    /// Its style class.
    pub class: Seq<char>,
    /// Its rendered content.
    pub content: ContentView,
}

/// One change to the visual tree.
pub enum PatchView {
    /// A new node, hung under its parent as the last child.
    Create { node: NodeView },
    /// A new style class for the node with this key.
    SetClass { key: Seq<char>, class: Seq<char> },
    /// New content for the node with this key.
    SetContent { key: Seq<char>, content: ContentView },
}

/// Whether one of the first `end` nodes has this key.
pub open spec fn present_before(tree: Seq<NodeView>, key: Seq<char>, end: int) -> bool {
    exists|i: int| 0 <= i < end && i < tree.len() && (#[trigger] tree[i]).key == key
}

/// Whether the tree has a node with this key.
pub open spec fn present(tree: Seq<NodeView>, key: Seq<char>) -> bool {
    present_before(tree, key, tree.len() as int)
}

/// The place of a node with this key.
pub open spec fn position(tree: Seq<NodeView>, key: Seq<char>) -> int {
    choose|i: int| 0 <= i < tree.len() && (#[trigger] tree[i]).key == key
}

/// A node with this key. Where the keys are distinct it is the only one.
pub open spec fn node_of(tree: Seq<NodeView>, key: Seq<char>) -> NodeView {
    tree[position(tree, key)]
}

/// The tree with `node` added at the end, unless its key is taken.
pub open spec fn with_node(tree: Seq<NodeView>, node: NodeView) -> Seq<NodeView> {
    if present(tree, node.key) {
        tree
    } else {
        tree.push(node)
    }
}

/// The tree in which every node with this key has this class.
pub open spec fn with_class(tree: Seq<NodeView>, key: Seq<char>, class: Seq<char>) -> Seq<
    NodeView,
> {
    Seq::new(
        tree.len(),
        |i: int|
            if tree[i].key == key {
                NodeView { class: class, ..tree[i] }
            } else {
                tree[i]
            },
    )
}

/// The tree in which every node with this key has this content.
pub open spec fn with_content(
    tree: Seq<NodeView>,
    key: Seq<char>,
    content: ContentView,
) -> Seq<NodeView> {
    Seq::new(
        tree.len(),
        |i: int|
            if tree[i].key == key {
                NodeView { content: content, ..tree[i] }
            } else {
                tree[i]
            },
    )
}

/// The tree after one patch.
pub open spec fn apply(tree: Seq<NodeView>, patch: PatchView) -> Seq<NodeView> {
    match patch {
        PatchView::Create { node } => with_node(tree, node),
        PatchView::SetClass { key, class } => with_class(tree, key, class),
        PatchView::SetContent { key, content } => with_content(tree, key, content),
    }
}

/// The tree after a run of patches, the first of them applied first.
pub open spec fn apply_all(tree: Seq<NodeView>, patches: Seq<PatchView>) -> Seq<NodeView>
    decreases patches.len(),
{
    if patches.len() == 0 {
        tree
    } else {
        apply(apply_all(tree, patches.drop_last()), patches.last())
    }
}

/// No two nodes share a key.
pub open spec fn distinct_keys(tree: Seq<NodeView>) -> bool {
    forall|i: int, j: int|
        0 <= i < j < tree.len() ==> (#[trigger] tree[i]).key != (#[trigger] tree[j]).key
}

/// Every node hangs under the root container or under a node that was there
/// before it.
pub open spec fn anchored(tree: Seq<NodeView>) -> bool {
    forall|i: int|
        0 <= i < tree.len() ==> (#[trigger] tree[i]).parent == root_key() || present_before(
            tree,
            tree[i].parent,
            i,
        )
}

/// Every pipeline that has a node has its two regions.
pub open spec fn regions_present(tree: Seq<NodeView>) -> bool {
    forall|p: int, q: int|
        present(tree, #[trigger] pipeline_key(p, q)) ==> present(tree, label_key(p, q)) && present(
            tree,
            time_key(p, q),
        )
}

/// A region has a node only where its pipeline has one.
pub open spec fn regions_owned(tree: Seq<NodeView>) -> bool {
    &&& forall|p: int, q: int|
        present(tree, #[trigger] label_key(p, q)) ==> present(tree, pipeline_key(p, q))
    &&& forall|p: int, q: int|
        present(tree, #[trigger] time_key(p, q)) ==> present(tree, pipeline_key(p, q))
}

/// Whether a node with this key hangs where the key says: a project under
/// the root container, a pipeline under its project, a region or a job under
/// its pipeline. A key that spells out nothing hangs nowhere.
pub open spec fn placed(key: Seq<char>, parent: Seq<char>) -> bool {
    ||| exists|id: int| key == #[trigger] project_key(id) && parent == root_key()
    ||| exists|p: int, q: int| key == #[trigger] pipeline_key(p, q) && parent == project_key(p)
    ||| exists|p: int, q: int| key == #[trigger] label_key(p, q) && parent == pipeline_key(p, q)
    ||| exists|p: int, q: int| key == #[trigger] time_key(p, q) && parent == pipeline_key(p, q)
    ||| exists|p: int, q: int, name: Seq<char>|
        key == #[trigger] job_key(p, q, name) && parent == pipeline_key(p, q)
}

/// Every node is the node of a project, a pipeline, a region or a job, and
/// hangs where its key says.
pub open spec fn all_placed(tree: Seq<NodeView>) -> bool {
    forall|i: int| 0 <= i < tree.len() ==> placed((#[trigger] tree[i]).key, tree[i].parent)
}

/// What holds of the visual tree at all times.
pub open spec fn well_formed(tree: Seq<NodeView>) -> bool {
    &&& distinct_keys(tree)
    &&& anchored(tree)
    &&& regions_present(tree)
    &&& regions_owned(tree)
    &&& all_placed(tree)
}

/// Whether a key is the key of some pipeline.
pub open spec fn names_pipeline(key: Seq<char>) -> bool {
    exists|p: int, q: int| key == #[trigger] pipeline_key(p, q)
}

/// Whether a key is the key of a region of some pipeline.
pub open spec fn names_region(key: Seq<char>) -> bool {
    ||| exists|p: int, q: int| key == #[trigger] label_key(p, q)
    ||| exists|p: int, q: int| key == #[trigger] time_key(p, q)
}

/// A new class changes neither which keys there are nor where they stand,
/// and leaves a well-formed tree well-formed.
pub proof fn lemma_with_class(tree: Seq<NodeView>, key: Seq<char>, class: Seq<char>)
    ensures
        with_class(tree, key, class).len() == tree.len(),
        forall|k: Seq<char>, end: int| #[trigger]
            present_before(with_class(tree, key, class), k, end) == present_before(tree, k, end),
        forall|k: Seq<char>| #[trigger] present(with_class(tree, key, class), k) == present(tree, k),
        well_formed(tree) ==> well_formed(with_class(tree, key, class)),
        distinct_keys(tree) ==> distinct_keys(with_class(tree, key, class)),
{
    let after = with_class(tree, key, class);
    assert forall|k: Seq<char>, end: int| #[trigger]
        present_before(after, k, end) == present_before(tree, k, end) by {
        if present_before(after, k, end) {
            let i = choose|i: int| 0 <= i < end && i < after.len() && (#[trigger] after[i]).key == k;
            assert(tree[i].key == k);
        }
        if present_before(tree, k, end) {
            let i = choose|i: int| 0 <= i < end && i < tree.len() && (#[trigger] tree[i]).key == k;
            assert(after[i].key == k);
        }
    }
    if distinct_keys(tree) {
        assert forall|i: int, j: int| 0 <= i < j < after.len() implies (#[trigger] after[i]).key
            != (#[trigger] after[j]).key by {
            assert(tree[i].key != tree[j].key);
        }
    }
    if well_formed(tree) {
        assert forall|i: int| 0 <= i < after.len() implies (#[trigger] after[i]).parent
            == root_key() || present_before(after, after[i].parent, i) by {
            assert(tree[i].parent == root_key() || present_before(tree, tree[i].parent, i));
        }
        assert forall|i: int| 0 <= i < after.len() implies placed(
            (#[trigger] after[i]).key,
            after[i].parent,
        ) by {
            assert(placed(tree[i].key, tree[i].parent));
        }
    }
}

/// New content changes neither which keys there are nor where they stand,
/// and leaves a well-formed tree well-formed.
pub proof fn lemma_with_content(tree: Seq<NodeView>, key: Seq<char>, content: ContentView)
    ensures
        with_content(tree, key, content).len() == tree.len(),
        forall|k: Seq<char>, end: int| #[trigger]
            present_before(with_content(tree, key, content), k, end) == present_before(tree, k, end),
        forall|k: Seq<char>| #[trigger]
            present(with_content(tree, key, content), k) == present(tree, k),
        well_formed(tree) ==> well_formed(with_content(tree, key, content)),
        distinct_keys(tree) ==> distinct_keys(with_content(tree, key, content)),
{
    let after = with_content(tree, key, content);
    assert forall|k: Seq<char>, end: int| #[trigger]
        present_before(after, k, end) == present_before(tree, k, end) by {
        if present_before(after, k, end) {
            let i = choose|i: int| 0 <= i < end && i < after.len() && (#[trigger] after[i]).key == k;
            assert(tree[i].key == k);
        }
        if present_before(tree, k, end) {
            let i = choose|i: int| 0 <= i < end && i < tree.len() && (#[trigger] tree[i]).key == k;
            assert(after[i].key == k);
        }
    }
    if distinct_keys(tree) {
        assert forall|i: int, j: int| 0 <= i < j < after.len() implies (#[trigger] after[i]).key
            != (#[trigger] after[j]).key by {
            assert(tree[i].key != tree[j].key);
        }
    }
    if well_formed(tree) {
        assert forall|i: int| 0 <= i < after.len() implies (#[trigger] after[i]).parent
            == root_key() || present_before(after, after[i].parent, i) by {
            assert(tree[i].parent == root_key() || present_before(tree, tree[i].parent, i));
        }
        assert forall|i: int| 0 <= i < after.len() implies placed(
            (#[trigger] after[i]).key,
            after[i].parent,
        ) by {
            assert(placed(tree[i].key, tree[i].parent));
        }
    }
}

/// A tree with a node added has the keys that it had and the key of the node.
pub proof fn lemma_with_node_keys(tree: Seq<NodeView>, node: NodeView)
    ensures
        forall|k: Seq<char>| #[trigger]
            present(with_node(tree, node), k) == (present(tree, k) || k == node.key),
        forall|i: int| 0 <= i < tree.len() ==> #[trigger] with_node(tree, node)[i] == tree[i],
        present(tree, node.key) ==> with_node(tree, node) == tree,
        !present(tree, node.key) ==> with_node(tree, node).len() == tree.len() + 1 && with_node(
            tree,
            node,
        )[tree.len() as int] == node,
{
    let after = with_node(tree, node);
    assert forall|k: Seq<char>| #[trigger] present(after, k) == (present(tree, k) || k == node.key) by {
        if present(tree, k) {
            let i = choose|i: int| 0 <= i < tree.len() && (#[trigger] tree[i]).key == k;
            assert(after[i].key == k);
        }
        if k == node.key && !present(tree, k) {
            assert(after[tree.len() as int].key == k);
        }
        if present(after, k) && !present(tree, node.key) {
            let i = choose|i: int| 0 <= i < after.len() && (#[trigger] after[i]).key == k;
            if i < tree.len() {
                assert(tree[i].key == k);
            }
        }
    }
}

/// Adding a node under the root container, or under a node that is there,
/// keeps the keys distinct and every node anchored.
pub proof fn lemma_with_node_structure(tree: Seq<NodeView>, node: NodeView)
    requires
        distinct_keys(tree),
        anchored(tree),
        node.parent == root_key() || present(tree, node.parent),
    ensures
        distinct_keys(with_node(tree, node)),
        anchored(with_node(tree, node)),
{
    let after = with_node(tree, node);
    if !present(tree, node.key) {
        assert forall|i: int, j: int| 0 <= i < j < after.len() implies (#[trigger] after[i]).key
            != (#[trigger] after[j]).key by {
            if j < tree.len() {
                assert(tree[i].key != tree[j].key);
            } else {
                assert(tree[i].key != node.key);
            }
        }
        assert forall|i: int| 0 <= i < after.len() implies (#[trigger] after[i]).parent
            == root_key() || present_before(after, after[i].parent, i) by {
            if i < tree.len() {
                if tree[i].parent != root_key() {
                    let j = choose|j: int|
                        0 <= j < i && j < tree.len() && (#[trigger] tree[j]).key == tree[i].parent;
                    assert(after[j].key == after[i].parent);
                }
            } else {
                if node.parent != root_key() {
                    let j = choose|j: int|
                        0 <= j < tree.len() && (#[trigger] tree[j]).key == node.parent;
                    assert(after[j].key == node.parent);
                }
            }
        }
    }
}

/// Adding a node that hangs where its key says keeps every node so.
pub proof fn lemma_with_node_placed(tree: Seq<NodeView>, node: NodeView)
    requires
        all_placed(tree),
        placed(node.key, node.parent),
    ensures
        all_placed(with_node(tree, node)),
{
    let after = with_node(tree, node);
    assert forall|i: int| 0 <= i < after.len() implies placed(
        (#[trigger] after[i]).key,
        after[i].parent,
    ) by {
        if i < tree.len() {
            assert(placed(tree[i].key, tree[i].parent));
        }
    }
}

/// Adding a node under the root container, or under a node that is there,
/// leaves a well-formed tree well-formed, as long as the node is no pipeline
/// and no region: a pipeline and its regions come together.
pub proof fn lemma_with_node_well_formed(tree: Seq<NodeView>, node: NodeView)
    requires
        well_formed(tree),
        node.parent == root_key() || present(tree, node.parent),
        !names_pipeline(node.key),
        !names_region(node.key),
        placed(node.key, node.parent),
    ensures
        well_formed(with_node(tree, node)),
{
    let after = with_node(tree, node);
    lemma_with_node_keys(tree, node);
    lemma_with_node_structure(tree, node);
    lemma_with_node_placed(tree, node);
    assert forall|p: int, q: int| present(after, #[trigger] pipeline_key(p, q)) implies present(
        after,
        label_key(p, q),
    ) && present(after, time_key(p, q)) by {
        if !present(tree, pipeline_key(p, q)) {
            assert(node.key == pipeline_key(p, q));
            assert(names_pipeline(node.key));
        }
    }
    assert forall|p: int, q: int| present(after, #[trigger] label_key(p, q)) implies present(
        after,
        pipeline_key(p, q),
    ) by {
        if !present(tree, label_key(p, q)) {
            assert(node.key == label_key(p, q));
            assert(names_region(node.key));
        }
    }
    assert forall|p: int, q: int| present(after, #[trigger] time_key(p, q)) implies present(
        after,
        pipeline_key(p, q),
    ) by {
        if !present(tree, time_key(p, q)) {
            assert(node.key == time_key(p, q));
            assert(names_region(node.key));
        }
    }
}

/// Where the keys are distinct, the node with a key is found at the one place
/// where that key stands.
pub proof fn lemma_node_of(tree: Seq<NodeView>, key: Seq<char>, place: int)
    requires
        distinct_keys(tree),
        0 <= place < tree.len(),
        tree[place].key == key,
    ensures
        present(tree, key),
        position(tree, key) == place,
        node_of(tree, key) == tree[place],
{
    let found = position(tree, key);
    assert(0 <= found < tree.len() && tree[found].key == key);
    if found < place {
        assert(tree[found].key != tree[place].key);
    }
    if place < found {
        assert(tree[place].key != tree[found].key);
    }
}

/// What is read after a new class: the node with the key has the class and
/// is otherwise as it was, and every other node is as it was.
pub proof fn lemma_with_class_reads(
    tree: Seq<NodeView>,
    key: Seq<char>,
    class: Seq<char>,
    read: Seq<char>,
)
    requires
        distinct_keys(tree),
        present(tree, read),
    ensures
        node_of(with_class(tree, key, class), read) == if read == key {
            NodeView { class: class, ..node_of(tree, read) }
        } else {
            node_of(tree, read)
        },
{
    let after = with_class(tree, key, class);
    let place = position(tree, read);
    lemma_with_class(tree, key, class);
    assert(after[place].key == read);
    lemma_node_of(after, read, place);
}

/// What is read after new content: the node with the key has the content and
/// is otherwise as it was, and every other node is as it was.
pub proof fn lemma_with_content_reads(
    tree: Seq<NodeView>,
    key: Seq<char>,
    content: ContentView,
    read: Seq<char>,
)
    requires
        distinct_keys(tree),
        present(tree, read),
    ensures
        node_of(with_content(tree, key, content), read) == if read == key {
            NodeView { content: content, ..node_of(tree, read) }
        } else {
            node_of(tree, read)
        },
{
    let after = with_content(tree, key, content);
    let place = position(tree, read);
    lemma_with_content(tree, key, content);
    assert(after[place].key == read);
    lemma_node_of(after, read, place);
}

/// Adding a node keeps the keys distinct.
pub proof fn lemma_with_node_distinct(tree: Seq<NodeView>, node: NodeView)
    requires
        distinct_keys(tree),
    ensures
        distinct_keys(with_node(tree, node)),
{
    let after = with_node(tree, node);
    if !present(tree, node.key) {
        assert forall|i: int, j: int| 0 <= i < j < after.len() implies (#[trigger] after[i]).key
            != (#[trigger] after[j]).key by {
            if j < tree.len() {
                assert(tree[i].key != tree[j].key);
            } else {
                assert(tree[i].key != node.key);
            }
        }
    }
}

/// What is read after a node was added: the nodes that were there are as they
/// were, and the new node, if its key was free, is as it was given.
pub proof fn lemma_with_node_reads(tree: Seq<NodeView>, node: NodeView, read: Seq<char>)
    requires
        distinct_keys(tree),
        present(with_node(tree, node), read),
    ensures
        node_of(with_node(tree, node), read) == if present(tree, read) {
            node_of(tree, read)
        } else {
            node
        },
{
    let after = with_node(tree, node);
    lemma_with_node_keys(tree, node);
    lemma_with_node_distinct(tree, node);
    if !present(tree, node.key) {
        if present(tree, read) {
            let place = position(tree, read);
            assert(after[place].key == read);
            lemma_node_of(after, read, place);
        } else {
            lemma_node_of(after, read, tree.len() as int);
        }
    }
}

/// No node was taken away or moved between two trees: the nodes of the first
/// stand in the second at their places, under their keys, and every key that
/// had a node has one.
pub open spec fn nothing_lost(before: Seq<NodeView>, after: Seq<NodeView>) -> bool {
    &&& before.len() <= after.len()
    &&& forall|i: int| 0 <= i < before.len() ==> (#[trigger] after[i]).key == before[i].key
    &&& forall|key: Seq<char>| present(before, key) ==> #[trigger] present(after, key)
}

/// Where the nodes of a tree stand at their places under their keys in
/// another, nothing was lost between the two.
pub proof fn lemma_nothing_lost(before: Seq<NodeView>, after: Seq<NodeView>)
    requires
        before.len() <= after.len(),
        forall|i: int| 0 <= i < before.len() ==> (#[trigger] after[i]).key == before[i].key,
    ensures
        nothing_lost(before, after),
{
    assert forall|key: Seq<char>| present(before, key) implies #[trigger] present(after, key) by {
        let i = choose|i: int| 0 <= i < before.len() && (#[trigger] before[i]).key == key;
        assert(after[i].key == key);
    }
}

/// Where nothing was lost between a first tree and a second, nor between the
/// second and a third, nothing was lost between the first and the third.
pub proof fn lemma_nothing_lost_on(
    first: Seq<NodeView>,
    second: Seq<NodeView>,
    third: Seq<NodeView>,
)
    requires
        nothing_lost(first, second),
        nothing_lost(second, third),
    ensures
        nothing_lost(first, third),
{
    assert forall|i: int| 0 <= i < first.len() implies (#[trigger] third[i]).key
        == first[i].key by {
        assert(second[i].key == first[i].key);
    }
    lemma_nothing_lost(first, third);
}

/// The keys of a tree, in the order of its nodes.
pub open spec fn keys_of(tree: Seq<NodeView>) -> Seq<Seq<char>> {
    tree.map_values(|node: NodeView| node.key)
}

/// Where no two nodes share a key, there are as many nodes as there are
/// different keys.
pub proof fn lemma_as_many_nodes_as_keys(tree: Seq<NodeView>)
    requires
        distinct_keys(tree),
    ensures
        keys_of(tree).no_duplicates(),
        keys_of(tree).to_set().len() == tree.len(),
        forall|key: Seq<char>| keys_of(tree).to_set().contains(key) <==> present(tree, key),
{
    let keys = keys_of(tree);
    assert forall|i: int, j: int| 0 <= i < keys.len() && 0 <= j < keys.len() && i != j implies keys[i]
        != keys[j] by {
        if i < j {
            assert(tree[i].key != tree[j].key);
        } else {
            assert(tree[j].key != tree[i].key);
        }
    }
    keys.unique_seq_to_set();
    assert forall|key: Seq<char>| keys.to_set().contains(key) <==> present(tree, key) by {
        if keys.to_set().contains(key) {
            let i = choose|i: int| 0 <= i < keys.len() && keys[i] == key;
            assert(tree[i].key == key);
        }
        if present(tree, key) {
            let i = choose|i: int| 0 <= i < tree.len() && (#[trigger] tree[i]).key == key;
            assert(keys[i] == key);
        }
    }
}

} // verus!
