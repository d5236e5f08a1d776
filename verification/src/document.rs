//! The visual tree that the engine keeps, and the patches that it hands out.

use crate::tree::{
    distinct_keys, node_of, present, well_formed, with_class, with_content, with_node, ContentView,
    NodeView, PatchView,
};
use vstd::prelude::*;

verus! {

/// What a node shows inside itself.
#[derive(Debug, PartialEq, Eq)]
pub enum Content {
    /// Nothing of its own: at most the nodes that hang under it.
    Empty,
    /// A heading line with this text.
    Heading(String),
    /// This plain text.
    Text(String),
    /// This marked-up fragment.
    Markup(String),
}

impl View for Content {
    type V = ContentView;

    open spec fn view(&self) -> ContentView {
        match self {
            Content::Empty => ContentView::Empty,
            Content::Heading(text) => ContentView::Heading(text@),
            Content::Text(text) => ContentView::Text(text@),
            Content::Markup(text) => ContentView::Markup(text@),
        }
    }
}

impl Clone for Content {
    fn clone(&self) -> (copy: Content)
        ensures
            copy@ == self@,
    {
        match self {
            Content::Empty => Content::Empty,
            Content::Heading(text) => Content::Heading(text.clone()),
            Content::Text(text) => Content::Text(text.clone()),
            Content::Markup(text) => Content::Markup(text.clone()),
        }
    }
}

/// One node of the visual tree.
#[derive(Debug, PartialEq, Eq)]
pub struct VisualNode {
    /// The key under which it is found.
    pub key: String,
    /// The key of the node that it hangs under.
    pub parent: String,
    /// Its style class.
    pub class: String,
    /// Its rendered content.
    pub content: Content,
}

impl View for VisualNode {
    type V = NodeView;

    open spec fn view(&self) -> NodeView {
        NodeView {
            key: self.key@,
            parent: self.parent@,
            class: self.class@,
            content: self.content@,
        }
    }
}

impl Clone for VisualNode {
    fn clone(&self) -> (copy: VisualNode)
        ensures
            copy@ == self@,
    {
        VisualNode {
            key: self.key.clone(),
            parent: self.parent.clone(),
            class: self.class.clone(),
            content: self.content.clone(),
        }
    }
}

/// One change to the visual tree, to be carried out on the screen.
#[derive(Debug, PartialEq, Eq)]
pub enum Patch {
    /// A new node, hung under its parent as the last child.
    Create { node: VisualNode },
    /// A new style class for the node with this key.
    SetClass { key: String, class: String },
    /// New content for the node with this key.
    SetContent { key: String, content: Content },
}

impl View for Patch {
    type V = PatchView;

    open spec fn view(&self) -> PatchView {
        match self {
            Patch::Create { node } => PatchView::Create { node: node@ },
            Patch::SetClass { key, class } => PatchView::SetClass { key: key@, class: class@ },
            Patch::SetContent { key, content } => PatchView::SetContent {
                key: key@,
                content: content@,
            },
        }
    }
}

impl Clone for Patch {
    fn clone(&self) -> (copy: Patch)
        ensures
            copy@ == self@,
    {
        match self {
            Patch::Create { node } => Patch::Create { node: node.clone() },
            Patch::SetClass { key, class } => Patch::SetClass {
                key: key.clone(),
                class: class.clone(),
            },
            Patch::SetContent { key, content } => Patch::SetContent {
                key: key.clone(),
                content: content.clone(),
            },
        }
    }
}

/// The views of a run of nodes.
pub open spec fn node_views(nodes: Seq<VisualNode>) -> Seq<NodeView> {
    nodes.map_values(|node: VisualNode| node@)
}

/// The views of a run of patches.
pub open spec fn patch_views(patches: Seq<Patch>) -> Seq<PatchView> {
    patches.map_values(|patch: Patch| patch@)
}

/// The place of the first node with this key.
pub(crate) fn find(nodes: &Vec<VisualNode>, key: &String) -> (place: Option<usize>)
    ensures
        match place {
            Some(i) => i < nodes.len() && nodes[i as int].key@ == key@ && present(
                node_views(nodes@),
                key@,
            ),
            None => !present(node_views(nodes@), key@),
        },
{
    let mut i: usize = 0;
    while i < nodes.len()
        invariant
            i <= nodes.len(),
            forall|j: int| 0 <= j < i ==> nodes[j].key@ != key@,
        decreases nodes.len() - i,
    {
        if nodes[i].key == *key {
            assert(node_views(nodes@)[i as int].key == key@);
            return Some(i);
        }
        i += 1;
    }
    assert forall|j: int| 0 <= j < nodes.len() implies (#[trigger] node_views(nodes@)[j]).key
        != key@ by {
        assert(nodes[j].key@ != key@);
    }
    None
}

/// Adds `node` unless its key is taken, and notes the patch if it was added.
pub(crate) fn create(nodes: &mut Vec<VisualNode>, patches: &mut Vec<Patch>, node: VisualNode)
    ensures
        node_views(final(nodes)@) == with_node(node_views(old(nodes)@), node@),
        patch_views(final(patches)@) == if present(node_views(old(nodes)@), node@.key) {
            patch_views(old(patches)@)
        } else {
            patch_views(old(patches)@).push(PatchView::Create { node: node@ })
        },
{
    if find(nodes, &node.key).is_none() {
        let copy = node.clone();
        nodes.push(node);
        patches.push(Patch::Create { node: copy });
        assert(node_views(nodes@) =~= node_views(old(nodes)@).push(node@));
        assert(patch_views(patches@) =~= patch_views(old(patches)@).push(
            PatchView::Create { node: node@ },
        ));
    }
}

/// Gives the node with this key this class, and notes the patch.
pub(crate) fn set_class(
    nodes: &mut Vec<VisualNode>,
    patches: &mut Vec<Patch>,
    key: String,
    class: String,
)
    requires
        distinct_keys(node_views(old(nodes)@)),
    ensures
        node_views(final(nodes)@) == with_class(node_views(old(nodes)@), key@, class@),
        patch_views(final(patches)@) == patch_views(old(patches)@).push(
            PatchView::SetClass { key: key@, class: class@ },
        ),
{
    let ghost before = node_views(nodes@);
    match find(nodes, &key) {
        Some(i) => {
            nodes[i].class = class.clone();
            assert(node_views(nodes@) =~= with_class(before, key@, class@)) by {
                assert forall|j: int| 0 <= j < before.len() && j != i implies (
                #[trigger] before[j]).key != key@ by {
                    assert(before[i as int].key == key@);
                }
            }
        },
        None => {
            assert(before =~= with_class(before, key@, class@));
        },
    }
    patches.push(Patch::SetClass { key: key, class: class });
    assert(patch_views(patches@) =~= patch_views(old(patches)@).push(
        PatchView::SetClass { key: key@, class: class@ },
    ));
}

/// Gives the node with this key this content, and notes the patch.
pub(crate) fn set_content(
    nodes: &mut Vec<VisualNode>,
    patches: &mut Vec<Patch>,
    key: String,
    content: Content,
)
    requires
        distinct_keys(node_views(old(nodes)@)),
    ensures
        node_views(final(nodes)@) == with_content(node_views(old(nodes)@), key@, content@),
        patch_views(final(patches)@) == patch_views(old(patches)@).push(
            PatchView::SetContent { key: key@, content: content@ },
        ),
{
    let ghost before = node_views(nodes@);
    match find(nodes, &key) {
        Some(i) => {
            nodes[i].content = content.clone();
            assert(node_views(nodes@) =~= with_content(before, key@, content@)) by {
                assert forall|j: int| 0 <= j < before.len() && j != i implies (
                #[trigger] before[j]).key != key@ by {
                    assert(before[i as int].key == key@);
                }
            }
        },
        None => {
            assert(before =~= with_content(before, key@, content@));
        },
    }
    patches.push(Patch::SetContent { key: key, content: content });
    assert(patch_views(patches@) =~= patch_views(old(patches)@).push(
        PatchView::SetContent { key: key@, content: content@ },
    ));
}

/// The visual tree: the nodes that the engine has made, each under its key,
/// in the order in which they were first seen. Nodes are added and changed,
/// never taken away.
pub struct Document {
    nodes: Vec<VisualNode>,
}

impl View for Document {
    type V = Seq<NodeView>;

    closed spec fn view(&self) -> Seq<NodeView> {
        node_views(self.nodes@)
    }
}

impl Document {
    /// What holds of every document at all times: its tree is well-formed.
    #[verifier::type_invariant]
    pub open spec fn sound(&self) -> bool {
        well_formed(self@)
    }

    /// A tree without nodes.
    pub fn new() -> (document: Document)
        ensures
            document@ == Seq::<NodeView>::empty(),
            well_formed(document@),
    {
        let document = Document { nodes: Vec::new() };
        assert(document@ =~= Seq::<NodeView>::empty());
        document
    }

    /// The number of nodes.
    pub fn len(&self) -> (count: usize)
        ensures
            count == self@.len(),
            well_formed(self@),
    {
        proof {
            use_type_invariant(self);
        }
        self.nodes.len()
    }

    /// Whether there is a node with this key.
    pub fn contains(&self, key: &str) -> (found: bool)
        ensures
            found == present(self@, key@),
            well_formed(self@),
    {
        proof {
            use_type_invariant(self);
        }
        find(&self.nodes, &key.to_owned()).is_some()
    }

    /// A copy of the node with this key.
    pub fn get(&self, key: &str) -> (node: Option<VisualNode>)
        ensures
            match node {
                Some(node) => present(self@, key@) && node@ == node_of(self@, key@),
                None => !present(self@, key@),
            },
            well_formed(self@),
    {
        proof {
            use_type_invariant(self);
        }
        match find(&self.nodes, &key.to_owned()) {
            Some(i) => {
                assert(self@[i as int].key == key@);
                Some(self.nodes[i].clone())
            },
            None => None,
        }
    }

    /// The keys of the nodes, in the order in which the nodes were first seen.
    pub fn keys(&self) -> (keys: Vec<String>)
        ensures
            keys@.len() == self@.len(),
            forall|i: int| 0 <= i < keys@.len() ==> (#[trigger] keys@[i])@ == self@[i].key,
            well_formed(self@),
    {
        proof {
            use_type_invariant(self);
        }
        let mut keys: Vec<String> = Vec::new();
        let mut i: usize = 0;
        while i < self.nodes.len()
            invariant
                i <= self.nodes.len(),
                keys@.len() == i,
                forall|j: int| 0 <= j < i ==> (#[trigger] keys@[j])@ == self.nodes[j].key@,
            decreases self.nodes.len() - i,
        {
            keys.push(self.nodes[i].key.clone());
            i += 1;
        }
        keys
    }

    /// Hands the nodes out to be worked on, and leaves a tree without nodes.
    pub(crate) fn take(&mut self) -> (nodes: Vec<VisualNode>)
        ensures
            node_views(nodes@) == old(self)@,
            well_formed(old(self)@),
    {
        proof {
            use_type_invariant(&*self);
        }
        let mut nodes: Vec<VisualNode> = Vec::new();
        assert(node_views(nodes@) =~= Seq::<NodeView>::empty());
        core::mem::swap(&mut self.nodes, &mut nodes);
        nodes
    }

    /// Takes the nodes back.
    pub(crate) fn put(&mut self, nodes: Vec<VisualNode>)
        requires
            well_formed(node_views(nodes@)),
        ensures
            final(self)@ == node_views(nodes@),
    {
        self.nodes = nodes;
    }
}

} // verus!
