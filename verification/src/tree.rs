//! The document tree: an arena of nodes addressed by randomly generated
//! identifiers.  All relationships between nodes are expressed as
//! identifiers looked up in the arena, never as references.
//!
//! The well-formedness predicate [`NodeTree::wf`] captures the structural
//! invariants: one root, every other node has a parent that entered the
//! tree before it, and each parent's child list forms a consistent doubly
//! linked Previous/Next chain in insertion order.

use vstd::prelude::*;
use vstd::string::StringExecFns;
use crate::text::{dec_chars, dec_str, chars_to_string};

verus! {

/// A globally unique node identifier: the 128 bits of a randomly generated
/// version-4 UUID.
#[derive(Clone, Copy, Debug, Hash, PartialEq, Eq, Structural)]
pub struct NodeId(pub u128);

/// Relies on `uuid::Uuid::new_v4`: a freshly generated random identifier.
/// Nothing is promised of the value; the tree checks uniqueness on
/// insertion.
#[verifier::external_body]
pub fn fresh_node_id() -> NodeId {
    NodeId(uuid::Uuid::new_v4().as_u128())
}

/// The relationship kinds a node can record.
#[derive(Clone, Copy, Debug, Hash, PartialEq, Eq, Structural)]
pub enum NodeRelationship {
    Parent,
    Child,
    Previous,
    Next,
    Root,
    Source,
}

/// The three node variants of the tree.
#[derive(Clone, Copy, Debug, PartialEq, Eq, Structural)]
pub enum NodeType {
    Root,
    Intermediate,
    Leaf,
}

/// The relationships of one node, one slot per relationship kind.
#[derive(Clone, Debug)]
pub struct Relationships {
    pub parent: Option<NodeId>,
    pub children: Vec<NodeId>,
    pub previous: Option<NodeId>,
    pub next: Option<NodeId>,
    pub root: Option<NodeId>,
}

/// Metadata carried by every node.
#[derive(Clone, Debug)]
pub struct NodeMetadata {
    pub document_id: String,
    pub hierarchy: Vec<String>,
    pub node_type: NodeType,
    pub chunk_size: Option<usize>,
    pub file_name: Option<String>,
    pub image_alt: Option<String>,
    pub image_path: Option<String>,
    pub image_id: Option<String>,
}

/// The one root node of a document tree.
#[derive(Clone, Debug)]
pub struct RootNode {
    pub id: NodeId,
    pub document_id: String,
    pub relationships: Relationships,
    pub metadata: NodeMetadata,
}

/// A heading/section node.
#[derive(Clone, Debug)]
pub struct IntermediateNode {
    pub id: NodeId,
    pub title: Option<String>,
    pub relationships: Relationships,
    pub metadata: NodeMetadata,
}

/// A content leaf.  The embedding slot holds the bit patterns of the
/// vector components once the external embedding step fills it; the tree
/// itself never interprets them numerically.
#[derive(Clone, Debug)]
pub struct LeafNode {
    pub id: NodeId,
    pub text: String,
    pub embedding: Option<Vec<u32>>,
    pub relationships: Relationships,
    pub metadata: NodeMetadata,
}

/// A node of the document tree.
#[derive(Clone, Debug)]
pub enum Node {
    Root(RootNode),
    Intermediate(IntermediateNode),
    Leaf(LeafNode),
}

/// Structural errors of the tree API; all are caller-input errors.
#[derive(Clone, Copy, Debug, PartialEq, Eq, Structural)]
pub enum TreeError {
    /// The node carries no Parent relationship.
    MissingParent,
    /// The node's parent id is absent from the tree.
    ParentNotFound,
    /// The id does not resolve to a leaf node.
    LeafNotFound,
    /// The node's own id is already present in the tree.
    DuplicateId,
}

impl Node {
    /// The node's identifier.
    pub open spec fn spec_id(&self) -> NodeId {
        match self {
            Node::Root(n) => n.id,
            Node::Intermediate(n) => n.id,
            Node::Leaf(n) => n.id,
        }
    }

    /// The node's relationship record.
    pub open spec fn rels(&self) -> Relationships {
        match self {
            Node::Root(n) => n.relationships,
            Node::Intermediate(n) => n.relationships,
            Node::Leaf(n) => n.relationships,
        }
    }

    pub open spec fn spec_parent(&self) -> Option<NodeId> {
        self.rels().parent
    }

    pub open spec fn spec_children(&self) -> Seq<NodeId> {
        self.rels().children@
    }

    pub open spec fn spec_prev(&self) -> Option<NodeId> {
        self.rels().previous
    }

    pub open spec fn spec_next(&self) -> Option<NodeId> {
        self.rels().next
    }

    pub open spec fn spec_meta(&self) -> NodeMetadata {
        match self {
            Node::Root(n) => n.metadata,
            Node::Intermediate(n) => n.metadata,
            Node::Leaf(n) => n.metadata,
        }
    }

    /// The node's identifier.
    pub fn id(&self) -> (r: NodeId)
        ensures
            r == self.spec_id(),
    {
        match self {
            Node::Root(n) => n.id,
            Node::Intermediate(n) => n.id,
            Node::Leaf(n) => n.id,
        }
    }

    /// The title of an intermediate node, if it has one.
    pub fn title(&self) -> (r: Option<&String>)
        ensures
            match self {
                Node::Intermediate(inter) => match inter.title {
                    Some(t) => r matches Some(x) && *x == t,
                    None => r is None,
                },
                _ => r is None,
            },
    {
        match self {
            Node::Intermediate(inter) => inter.title.as_ref(),
            _ => None,
        }
    }

    fn relationships(&self) -> (r: &Relationships)
        ensures
            *r == self.rels(),
    {
        match self {
            Node::Root(n) => &n.relationships,
            Node::Intermediate(n) => &n.relationships,
            Node::Leaf(n) => &n.relationships,
        }
    }

    /// The parent id, if the node records one.
    pub fn parent_id(&self) -> (r: Option<NodeId>)
        ensures
            r == self.spec_parent(),
    {
        self.relationships().parent
    }

    /// The ordered child list.
    pub fn children(&self) -> (r: &Vec<NodeId>)
        ensures
            r@ == self.spec_children(),
    {
        &self.relationships().children
    }

    /// The previous sibling, if any.
    pub fn prev_id(&self) -> (r: Option<NodeId>)
        ensures
            r == self.spec_prev(),
    {
        self.relationships().previous
    }

    /// The next sibling, if any.
    pub fn next_id(&self) -> (r: Option<NodeId>)
        ensures
            r == self.spec_next(),
    {
        self.relationships().next
    }

    /// The node's metadata.
    pub fn metadata(&self) -> (r: &NodeMetadata)
        ensures
            *r == self.spec_meta(),
    {
        match self {
            Node::Root(n) => &n.metadata,
            Node::Intermediate(n) => &n.metadata,
            Node::Leaf(n) => &n.metadata,
        }
    }

    /// The leaf payload, when the node is a leaf.
    pub fn as_leaf(&self) -> (r: Option<&LeafNode>)
        ensures
            match self {
                Node::Leaf(leaf) => r matches Some(l) && *l == *leaf,
                _ => r is None,
            },
    {
        match self {
            Node::Leaf(n) => Some(n),
            _ => None,
        }
    }

    /// Whether the node is a leaf.
    pub fn is_leaf(&self) -> (r: bool)
        ensures
            r == (self matches Node::Leaf(_)),
    {
        matches!(self, Node::Leaf(_))
    }
}

/// The two nodes agree on everything outside the relationship record:
/// variant, identifier, payload and metadata.
pub open spec fn same_payload(a: Node, b: Node) -> bool {
    match (a, b) {
        (Node::Root(x), Node::Root(y)) => {
            x.id == y.id && x.document_id == y.document_id && x.metadata == y.metadata
        },
        (Node::Intermediate(x), Node::Intermediate(y)) => {
            x.id == y.id && x.title == y.title && x.metadata == y.metadata
        },
        (Node::Leaf(x), Node::Leaf(y)) => {
            x.id == y.id && x.text == y.text && x.embedding == y.embedding
                && x.metadata == y.metadata
        },
        _ => false,
    }
}

/// `b` is `a` with its child list replaced by `c` and nothing else
/// changed.
pub open spec fn updates_children(a: Node, b: Node, c: Seq<NodeId>) -> bool {
    &&& same_payload(a, b)
    &&& b.rels().parent == a.rels().parent
    &&& b.spec_children() == c
    &&& b.rels().previous == a.rels().previous
    &&& b.rels().next == a.rels().next
    &&& b.rels().root == a.rels().root
}

/// `b` is `a` with its Next slot replaced and nothing else changed.
pub open spec fn updates_next(a: Node, b: Node, nx: Option<NodeId>) -> bool {
    &&& same_payload(a, b)
    &&& b.rels().parent == a.rels().parent
    &&& b.spec_children() == a.spec_children()
    &&& b.rels().previous == a.rels().previous
    &&& b.rels().next == nx
    &&& b.rels().root == a.rels().root
}

/// `b` is `a` with its Previous slot replaced and nothing else changed.
pub open spec fn updates_prev(a: Node, b: Node, pv: Option<NodeId>) -> bool {
    &&& same_payload(a, b)
    &&& b.rels().parent == a.rels().parent
    &&& b.spec_children() == a.spec_children()
    &&& b.rels().previous == pv
    &&& b.rels().next == a.rels().next
    &&& b.rels().root == a.rels().root
}

impl Node {
    fn relationships_mut(&mut self) -> (r: &mut Relationships)
        ensures
            *r == old(self).rels(),
            same_payload(*old(self), *final(self)),
            final(self).rels() == *final(r),
    {
        match self {
            Node::Root(n) => &mut n.relationships,
            Node::Intermediate(n) => &mut n.relationships,
            Node::Leaf(n) => &mut n.relationships,
        }
    }

    /// Mutable access to the ordered child list.
    pub fn children_mut(&mut self) -> (r: &mut Vec<NodeId>)
        ensures
            *r == old(self).rels().children,
            updates_children(*old(self), *final(self), final(r)@),
    {
        let rels = self.relationships_mut();
        &mut rels.children
    }

    /// Record (or clear) the previous sibling.
    pub fn set_previous(&mut self, prev: Option<NodeId>)
        ensures
            updates_prev(*old(self), *final(self), prev),
    {
        let rels = self.relationships_mut();
        rels.previous = prev;
    }

    /// Record (or clear) the next sibling.
    pub fn set_next(&mut self, next: Option<NodeId>)
        ensures
            updates_next(*old(self), *final(self), next),
    {
        let rels = self.relationships_mut();
        rels.next = next;
    }

    /// Append an id to the ordered child list.
    pub fn push_child(&mut self, id: NodeId)
        ensures
            updates_children(*old(self), *final(self), old(self).spec_children().push(id)),
    {
        let rels = self.relationships_mut();
        rels.children.push(id);
    }
}

/// Everything `same_payload` preserves of a node's shape.
proof fn lemma_same_payload_basic(a: Node, b: Node)
    requires
        same_payload(a, b),
    ensures
        a.spec_id() == b.spec_id(),
        (a matches Node::Root(_)) <==> (b matches Node::Root(_)),
        (a matches Node::Intermediate(_)) <==> (b matches Node::Intermediate(_)),
        (a matches Node::Leaf(_)) <==> (b matches Node::Leaf(_)),
        a.spec_meta() == b.spec_meta(),
{
}

/// The synthetic hierarchy segment of a leaf: `chunk_<index>_<size>`.
pub open spec fn chunk_label(index: nat, size: nat) -> Seq<char> {
    "chunk_"@ + dec_str(index) + "_"@ + dec_str(size)
}

/// Render the `chunk_<index>_<size>` hierarchy segment.
pub fn chunk_label_string(index: u64, size: u64) -> (r: String)
    ensures
        r@ == chunk_label(index as nat, size as nat),
{
    let mut s: String = "chunk_".to_owned();
    s.append(chars_to_string(&dec_chars(index)).as_str());
    s.append("_");
    s.append(chars_to_string(&dec_chars(size)).as_str());
    s
}

/// An empty relationship record.
fn no_relationships() -> (r: Relationships)
    ensures
        r.parent is None,
        r.children@ =~= Seq::<NodeId>::empty(),
        r.previous is None,
        r.next is None,
        r.root is None,
{
    Relationships { parent: None, children: Vec::new(), previous: None, next: None, root: None }
}

impl Node {
    /// Create the root node of a new document tree.  Its id is freshly
    /// generated; its Root relationship points at itself.
    pub fn new_root(document_id: String, file_name: Option<String>) -> (r: Node)
        ensures
            r matches Node::Root(n) && {
                &&& n.document_id == document_id
                &&& n.relationships.parent is None
                &&& n.relationships.children@ =~= Seq::<NodeId>::empty()
                &&& n.relationships.previous is None
                &&& n.relationships.next is None
                &&& n.relationships.root == Some(n.id)
                &&& n.metadata.document_id == document_id
                &&& n.metadata.hierarchy.deep_view() =~= seq!["Root"@]
                &&& n.metadata.node_type == NodeType::Root
                &&& n.metadata.chunk_size is None
                &&& n.metadata.file_name == file_name
                &&& n.metadata.image_alt is None
                &&& n.metadata.image_path is None
                &&& n.metadata.image_id is None
            },
    {
        let id = fresh_node_id();
        let mut relationships = no_relationships();
        relationships.root = Some(id);
        let mut hierarchy: Vec<String> = Vec::new();
        hierarchy.push("Root".to_owned());
        let r = Node::Root(RootNode {
            id,
            document_id: document_id.clone(),
            relationships,
            metadata: NodeMetadata {
                document_id,
                hierarchy,
                node_type: NodeType::Root,
                chunk_size: None,
                file_name,
                image_alt: None,
                image_path: None,
                image_id: None,
            },
        });
        proof {
            assert(r->Root_0.metadata.hierarchy.deep_view() =~= seq!["Root"@]);
        }
        r
    }

    /// Create a heading node under `parent_id`, carrying its title and the
    /// full hierarchy path down to itself.
    pub fn new_intermediate(
        parent_id: NodeId,
        title: Option<String>,
        hierarchy: Vec<String>,
        document_id: String,
    ) -> (r: Node)
        ensures
            r matches Node::Intermediate(n) && {
                &&& n.title == title
                &&& n.relationships.parent == Some(parent_id)
                &&& n.relationships.children@ =~= Seq::<NodeId>::empty()
                &&& n.relationships.previous is None
                &&& n.relationships.next is None
                &&& n.relationships.root is None
                &&& n.metadata.document_id == document_id
                &&& n.metadata.hierarchy == hierarchy
                &&& n.metadata.node_type == NodeType::Intermediate
                &&& n.metadata.chunk_size is None
                &&& n.metadata.file_name is None
                &&& n.metadata.image_alt is None
                &&& n.metadata.image_path is None
                &&& n.metadata.image_id is None
            },
    {
        let id = fresh_node_id();
        let mut relationships = no_relationships();
        relationships.parent = Some(parent_id);
        Node::Intermediate(IntermediateNode {
            id,
            title,
            relationships,
            metadata: NodeMetadata {
                document_id,
                hierarchy,
                node_type: NodeType::Intermediate,
                chunk_size: None,
                file_name: None,
                image_alt: None,
                image_path: None,
                image_id: None,
            },
        })
    }

    /// Create a content leaf under `parent_id`.  The hierarchy is extended
    /// with the synthetic `chunk_<index>_<size>` segment; the embedding
    /// slot starts empty.
    pub fn new_leaf(
        parent_id: NodeId,
        text: String,
        chunk_size: usize,
        chunk_index: usize,
        hierarchy: Vec<String>,
        document_id: String,
        image_alt: Option<String>,
        image_path: Option<String>,
        image_id: Option<String>,
        file_name: Option<String>,
    ) -> (r: Node)
        requires
            chunk_size <= u64::MAX,
            chunk_index <= u64::MAX,
        ensures
            r matches Node::Leaf(n) && {
                &&& n.text == text
                &&& n.embedding is None
                &&& n.relationships.parent == Some(parent_id)
                &&& n.relationships.children@ =~= Seq::<NodeId>::empty()
                &&& n.relationships.previous is None
                &&& n.relationships.next is None
                &&& n.relationships.root is None
                &&& n.metadata.document_id == document_id
                &&& n.metadata.hierarchy.deep_view() =~= hierarchy.deep_view().push(
                    chunk_label(chunk_index as nat, chunk_size as nat),
                )
                &&& n.metadata.node_type == NodeType::Leaf
                &&& n.metadata.chunk_size == Some(chunk_size)
                &&& n.metadata.file_name == file_name
                &&& n.metadata.image_alt == image_alt
                &&& n.metadata.image_path == image_path
                &&& n.metadata.image_id == image_id
            },
    {
        let id = fresh_node_id();
        let mut relationships = no_relationships();
        relationships.parent = Some(parent_id);
        let mut hier = hierarchy;
        let ghost hier0 = hier.deep_view();
        hier.push(chunk_label_string(chunk_index as u64, chunk_size as u64));
        proof {
            assert(hier.deep_view() =~= hier0.push(
                chunk_label(chunk_index as nat, chunk_size as nat),
            ));
        }
        Node::Leaf(LeafNode {
            id,
            text,
            embedding: None,
            relationships,
            metadata: NodeMetadata {
                document_id,
                hierarchy: hier,
                node_type: NodeType::Leaf,
                chunk_size: Some(chunk_size),
                file_name,
                image_alt,
                image_path,
                image_id,
            },
        })
    }

    /// Create a content leaf whose one synthetic hierarchy segment is the
    /// given label (used for table and image leaves, whose segment is
    /// `table_<n>` or `img_<n>` rather than the chunk label).
    pub fn new_leaf_with_segment(
        parent_id: NodeId,
        text: String,
        chunk_size: usize,
        segment: String,
        hierarchy: Vec<String>,
        document_id: String,
        image_alt: Option<String>,
        image_path: Option<String>,
        image_id: Option<String>,
        file_name: Option<String>,
    ) -> (r: Node)
        ensures
            r matches Node::Leaf(n) && {
                &&& n.text == text
                &&& n.embedding is None
                &&& n.relationships.parent == Some(parent_id)
                &&& n.relationships.children@ =~= Seq::<NodeId>::empty()
                &&& n.relationships.previous is None
                &&& n.relationships.next is None
                &&& n.relationships.root is None
                &&& n.metadata.document_id == document_id
                &&& n.metadata.hierarchy.deep_view() =~= hierarchy.deep_view().push(segment@)
                &&& n.metadata.node_type == NodeType::Leaf
                &&& n.metadata.chunk_size == Some(chunk_size)
                &&& n.metadata.file_name == file_name
                &&& n.metadata.image_alt == image_alt
                &&& n.metadata.image_path == image_path
                &&& n.metadata.image_id == image_id
            },
    {
        let id = fresh_node_id();
        let mut relationships = no_relationships();
        relationships.parent = Some(parent_id);
        let mut hier = hierarchy;
        let ghost hier0 = hier.deep_view();
        let ghost segv = segment@;
        hier.push(segment);
        proof {
            assert(hier.deep_view() =~= hier0.push(segv));
        }
        Node::Leaf(LeafNode {
            id,
            text,
            embedding: None,
            relationships,
            metadata: NodeMetadata {
                document_id,
                hierarchy: hier,
                node_type: NodeType::Leaf,
                chunk_size: Some(chunk_size),
                file_name,
                image_alt,
                image_path,
                image_id,
            },
        })
    }
}

/// The document tree: an arena of nodes plus the id of its root.
pub struct NodeTree {
    nodes: Vec<Node>,
    root: NodeId,
}

impl NodeTree {
    /// The nodes of the tree, in insertion order.
    pub closed spec fn nodes_seq(&self) -> Seq<Node> {
        self.nodes@
    }

    /// The recorded root id.
    pub closed spec fn root_id_spec(&self) -> NodeId {
        self.root
    }

    /// Whether some node of the tree carries this id.
    pub open spec fn contains_id(&self, id: NodeId) -> bool {
        exists|i: int|
            0 <= i < self.nodes_seq().len() && (#[trigger] self.nodes_seq()[i]).spec_id() == id
    }

    /// The arena index of the node carrying this id (unique under `wf`).
    pub open spec fn index_of(&self, id: NodeId) -> int {
        choose|i: int|
            0 <= i < self.nodes_seq().len() && (#[trigger] self.nodes_seq()[i]).spec_id() == id
    }

    /// The node carrying this id.
    pub open spec fn node_of(&self, id: NodeId) -> Node {
        self.nodes_seq()[self.index_of(id)]
    }

    /// No two nodes share an id.
    pub open spec fn ids_unique(&self) -> bool {
        forall|i: int, j: int|
            0 <= i < j < self.nodes_seq().len() ==> (#[trigger] self.nodes_seq()[i]).spec_id()
                != (#[trigger] self.nodes_seq()[j]).spec_id()
    }

    /// The child list of the node at index `i` is consistent: every child
    /// is in the tree, points back at this parent, and the Previous/Next
    /// slots of consecutive children form a doubly linked chain in list
    /// order.
    pub open spec fn child_list_wf_at(&self, i: int) -> bool {
        let n = self.nodes_seq()[i];
        let c = n.spec_children();
        &&& forall|k: int|
            0 <= k < c.len() ==> {
                &&& self.contains_id(#[trigger] c[k])
                &&& self.node_of(c[k]).spec_parent() == Some(n.spec_id())
                &&& self.node_of(c[k]).spec_prev() == (if k == 0 {
                    Option::<NodeId>::None
                } else {
                    Some(c[k - 1])
                })
                &&& self.node_of(c[k]).spec_next() == (if k == c.len() - 1 {
                    Option::<NodeId>::None
                } else {
                    Some(c[k + 1])
                })
            }
        &&& forall|k: int, l: int| 0 <= k < l < c.len() ==> #[trigger] c[k] != #[trigger] c[l]
    }

    /// Structural well-formedness of the whole tree.
    pub open spec fn wf(&self) -> bool {
        &&& 1 <= self.nodes_seq().len()
        &&& self.nodes_seq()[0] matches Node::Root(_)
        &&& self.nodes_seq()[0].spec_id() == self.root_id_spec()
        &&& self.nodes_seq()[0].spec_parent() is None
        &&& self.ids_unique()
        &&& forall|i: int|
            1 <= i < self.nodes_seq().len() ==> !((#[trigger] self.nodes_seq()[i]) matches Node::Root(_))
        &&& forall|i: int|
            1 <= i < self.nodes_seq().len() ==> {
                &&& (#[trigger] self.nodes_seq()[i]).spec_parent() is Some
                &&& self.contains_id(self.nodes_seq()[i].spec_parent()->0)
                &&& self.index_of(self.nodes_seq()[i].spec_parent()->0) < i
            }
        &&& forall|i: int| 0 <= i < self.nodes_seq().len() ==> self.child_list_wf_at(i)
    }

    /// With unique ids, `index_of` inverts indexing.
    pub proof fn lemma_index_of(&self, i: int)
        requires
            self.ids_unique(),
            0 <= i < self.nodes_seq().len(),
        ensures
            self.contains_id(self.nodes_seq()[i].spec_id()),
            self.index_of(self.nodes_seq()[i].spec_id()) == i,
            self.node_of(self.nodes_seq()[i].spec_id()) == self.nodes_seq()[i],
    {
        let id = self.nodes_seq()[i].spec_id();
        assert(self.contains_id(id));
        let j = self.index_of(id);
        if j != i {
            assert(self.nodes_seq()[j].spec_id() == id);
            assert(false);
        }
    }

    /// Create a tree containing only the given root node.
    pub fn new(root: Node) -> (r: NodeTree)
        requires
            root matches Node::Root(_),
            root.spec_parent() is None,
            root.spec_children() =~= Seq::<NodeId>::empty(),
        ensures
            r.wf(),
            r.nodes_seq() =~= seq![root],
            r.root_id_spec() == root.spec_id(),
    {
        let root_id = root.id();
        let mut nodes: Vec<Node> = Vec::new();
        nodes.push(root);
        let r = NodeTree { nodes, root: root_id };
        proof {
            assert(r.nodes_seq() =~= seq![root]);
            assert forall|i: int| 0 <= i < r.nodes_seq().len() implies r.child_list_wf_at(i) by {
                assert(r.nodes_seq()[i].spec_children().len() == 0);
            }
        }
        r
    }

    /// The recorded root id.
    pub fn root_id(&self) -> (r: NodeId)
        ensures
            r == self.root_id_spec(),
    {
        self.root
    }

    /// How many nodes the tree holds.
    pub fn node_count(&self) -> (r: usize)
        ensures
            r == self.nodes_seq().len(),
    {
        self.nodes.len()
    }

    /// Find the arena index of a node by id.
    fn find_index(&self, id: NodeId) -> (r: Option<usize>)
        requires
            self.ids_unique(),
        ensures
            match r {
                Some(i) => self.contains_id(id) && i == self.index_of(id)
                    && self.nodes_seq()[i as int].spec_id() == id,
                None => !self.contains_id(id),
            },
    {
        let mut i: usize = 0;
        while i < self.nodes.len()
            invariant
                0 <= i <= self.nodes_seq().len(),
                self.ids_unique(),
                forall|j: int| 0 <= j < i ==> (#[trigger] self.nodes_seq()[j]).spec_id() != id,
            decreases self.nodes_seq().len() - i,
        {
            if self.nodes[i].id() == id {
                proof {
                    self.lemma_index_of(i as int);
                }
                return Some(i);
            }
            i += 1;
        }
        None
    }

    /// How `add_node` reshapes the arena on success: the parent's child
    /// list gains the new id at the end, the former last child (if any)
    /// gets its Next slot pointed at the new node, the new node gets its
    /// Previous slot pointed at that sibling, and everything else is
    /// unchanged.
    pub open spec fn spec_add_shape(&self, post: &NodeTree, node: Node) -> bool {
        node.spec_parent() matches Some(p) && {
            let pres = self.nodes_seq();
            let posts = post.nodes_seq();
            let pi = self.index_of(p);
            let c = pres[pi].spec_children();
            &&& self.contains_id(p)
            &&& posts.len() == pres.len() + 1
            &&& updates_children(pres[pi], posts[pi], c.push(node.spec_id()))
            &&& (c.len() == 0 ==> posts[pres.len() as int] == node && (forall|j: int|
                0 <= j < pres.len() && j != pi ==> posts[j] == #[trigger] pres[j]))
            &&& (c.len() > 0 ==> {
                let lci = self.index_of(c.last());
                &&& self.contains_id(c.last())
                &&& lci != pi
                &&& updates_next(pres[lci], posts[lci], Some(node.spec_id()))
                &&& updates_prev(node, posts[pres.len() as int], Some(c.last()))
                &&& (forall|j: int|
                    0 <= j < pres.len() && j != pi && j != lci ==> posts[j] == #[trigger] pres[j])
            })
        }
    }

    /// Adding a well-shaped fresh node as `spec_add_shape` describes
    /// preserves well-formedness.
    #[verifier::rlimit(100)]
    #[verifier::spinoff_prover]
    proof fn lemma_add_wf(pre: NodeTree, post: NodeTree, node: Node)
        requires
            pre.wf(),
            !(node matches Node::Root(_)),
            node.spec_children() =~= Seq::<NodeId>::empty(),
            node.spec_prev() is None,
            node.spec_next() is None,
            !pre.contains_id(node.spec_id()),
            pre.spec_add_shape(&post, node),
            post.root_id_spec() == pre.root_id_spec(),
        ensures
            post.wf(),
    {
        let pres = pre.nodes_seq();
        let posts = post.nodes_seq();
        let n = pres.len() as int;
        let p = node.spec_parent()->0;
        let pi = pre.index_of(p);
        let c = pres[pi].spec_children();
        assert(0 <= pi < n && pres[pi].spec_id() == p);
        let lci: int = if c.len() > 0 {
            pre.index_of(c.last())
        } else {
            -1
        };
        if c.len() > 0 {
            assert(0 <= lci < n && pres[lci].spec_id() == c.last());
        }

        // Field-level preservation across the reshaping.
        assert forall|j: int| 0 <= j < n implies {
            &&& (#[trigger] posts[j]).spec_id() == pres[j].spec_id()
            &&& posts[j].spec_parent() == pres[j].spec_parent()
            &&& posts[j].spec_prev() == pres[j].spec_prev()
            &&& ((posts[j] matches Node::Root(_)) <==> (pres[j] matches Node::Root(_)))
            &&& (j != pi ==> posts[j].spec_children() == pres[j].spec_children())
            &&& (j != lci ==> posts[j].spec_next() == pres[j].spec_next())
        } by {
            if j == pi {
                lemma_same_payload_basic(pres[j], posts[j]);
            } else if c.len() > 0 && j == lci {
                lemma_same_payload_basic(pres[j], posts[j]);
            }
        }
        assert(posts[pi].spec_children() == c.push(node.spec_id()));
        if c.len() > 0 {
            assert(posts[lci].spec_next() == Some(node.spec_id()));
            lemma_same_payload_basic(node, posts[n]);
            assert(posts[n].spec_prev() == Some(c.last()));
        } else {
            assert(posts[n] == node);
        }
        assert(posts[n].spec_id() == node.spec_id());
        assert(posts[n].spec_parent() == node.spec_parent());
        assert(posts[n].spec_children() == node.spec_children());
        assert(posts[n].spec_next() == node.spec_next());
        assert(!(posts[n] matches Node::Root(_))) by {
            if c.len() > 0 {
                lemma_same_payload_basic(node, posts[n]);
            }
        }

        // Unique ids in the new arena.
        assert forall|i: int, j: int| 0 <= i < j < posts.len() implies (#[trigger] posts[i]).spec_id()
            != (#[trigger] posts[j]).spec_id() by {
            if j < n {
                assert(pres[i].spec_id() != pres[j].spec_id());
            } else {
                if posts[i].spec_id() == posts[j].spec_id() {
                    assert(pres[i].spec_id() == node.spec_id());
                    assert(pre.contains_id(node.spec_id()));
                }
            }
        }
        assert(post.ids_unique());

        // Index lookup is stable for the old nodes and finds the new one.
        assert forall|id: NodeId| #[trigger] pre.contains_id(id) implies {
            &&& post.contains_id(id)
            &&& post.index_of(id) == pre.index_of(id)
            &&& post.node_of(id) == posts[pre.index_of(id)]
        } by {
            let i = pre.index_of(id);
            assert(0 <= i < n && pres[i].spec_id() == id);
            assert(posts[i].spec_id() == id);
            post.lemma_index_of(i);
        }
        post.lemma_index_of(n);
        assert(post.index_of(node.spec_id()) == n);
        assert(post.node_of(node.spec_id()) == posts[n]);

        // Root conjuncts.
        assert(posts[0] matches Node::Root(_));
        assert(posts[0].spec_id() == post.root_id_spec());
        assert(posts[0].spec_parent() is None);

        // Only the root is a Root variant; parents entered earlier.
        assert forall|i: int| 1 <= i < posts.len() implies !((#[trigger] posts[i]) matches Node::Root(_)) by {
        }
        assert forall|i: int| 1 <= i < posts.len() implies {
            &&& (#[trigger] posts[i]).spec_parent() is Some
            &&& post.contains_id(posts[i].spec_parent()->0)
            &&& post.index_of(posts[i].spec_parent()->0) < i
        } by {
            if i < n {
                assert(pre.contains_id(pres[i].spec_parent()->0));
            } else {
                assert(pre.contains_id(p));
            }
        }

        // A node never sits in the child list of a node with its own id,
        // and the children of distinct parents are disjoint; these shape
        // facts drive the chain preservation below.
        assert forall|i: int, k: int|
            #![trigger pres[i].spec_children()[k]]
            0 <= i < n && 0 <= k < pres[i].spec_children().len() implies {
                let x = pres[i].spec_children()[k];
                &&& pre.contains_id(x)
                &&& pre.index_of(x) != i
                &&& pres[pre.index_of(x)].spec_parent() == Some(pres[i].spec_id())
            } by {
            assert(pre.child_list_wf_at(i));
            let x = pres[i].spec_children()[k];
            assert(pre.contains_id(x) && pre.node_of(x).spec_parent() == Some(pres[i].spec_id()));
            let xi = pre.index_of(x);
            assert(0 <= xi < n && pres[xi].spec_id() == x);
            if xi == i {
                // then node i would be its own ancestor
                pre.lemma_index_of(i);
                assert(pres[i].spec_parent() == Some(pres[i].spec_id()));
                if i == 0 {
                    assert(pres[0].spec_parent() is None);
                } else {
                    assert(pre.index_of(pres[i].spec_parent()->0) < i);
                }
            }
        }

        // Child-list consistency of every node in the new arena.
        assert forall|i: int| 0 <= i < posts.len() implies post.child_list_wf_at(i) by {
            if i == n {
                assert(posts[i].spec_children().len() == 0);
            } else if i == pi {
                assert(pre.child_list_wf_at(i));
                let cc = posts[i].spec_children();
                assert(cc == c.push(node.spec_id()));
                assert forall|k: int| 0 <= k < cc.len() implies {
                    &&& post.contains_id(#[trigger] cc[k])
                    &&& post.node_of(cc[k]).spec_parent() == Some(posts[i].spec_id())
                    &&& post.node_of(cc[k]).spec_prev() == (if k == 0 {
                        Option::<NodeId>::None
                    } else {
                        Some(cc[k - 1])
                    })
                    &&& post.node_of(cc[k]).spec_next() == (if k == cc.len() - 1 {
                        Option::<NodeId>::None
                    } else {
                        Some(cc[k + 1])
                    })
                } by {
                    if k < c.len() {
                        let x = c[k];
                        assert(pre.contains_id(x));
                        let xi = pre.index_of(x);
                        assert(xi != pi);
                        assert(pre.node_of(x) == pres[xi]);
                        if k == c.len() - 1 && c.len() > 0 {
                            assert(xi == lci) by {
                                assert(pres[xi].spec_id() == x);
                                assert(pres[lci].spec_id() == c.last());
                            }
                            assert(post.node_of(x) == posts[lci]);
                            assert(post.node_of(x).spec_next() == Some(node.spec_id()));
                            assert(cc[k + 1] == node.spec_id());
                        } else {
                            // not the last child: its node kept its Next slot
                            assert(xi != lci) by {
                                if c.len() > 0 && xi == lci {
                                    assert(pres[xi].spec_id() == c.last());
                                    assert(c[k] == c.last());
                                }
                            }
                            assert(post.node_of(x) == posts[xi]);
                        }
                    } else {
                        // the new node at the end of the list
                        assert(cc[k] == node.spec_id());
                        assert(post.node_of(node.spec_id()) == posts[n]);
                        if c.len() > 0 {
                            assert(posts[n].spec_prev() == Some(c.last()));
                            assert(cc[k - 1] == c.last());
                        }
                    }
                }
                assert forall|k: int, l: int| 0 <= k < l < cc.len() implies #[trigger] cc[k]
                    != #[trigger] cc[l] by {
                    if l < c.len() {
                        assert(c[k] != c[l]);
                    } else {
                        if cc[k] == node.spec_id() {
                            assert(pre.contains_id(c[k]));
                        }
                    }
                }
            } else {
                assert(pre.child_list_wf_at(i));
                let cl = posts[i].spec_children();
                assert(cl == pres[i].spec_children());
                assert forall|k: int| 0 <= k < cl.len() implies {
                    &&& post.contains_id(#[trigger] cl[k])
                    &&& post.node_of(cl[k]).spec_parent() == Some(posts[i].spec_id())
                    &&& post.node_of(cl[k]).spec_prev() == (if k == 0 {
                        Option::<NodeId>::None
                    } else {
                        Some(cl[k - 1])
                    })
                    &&& post.node_of(cl[k]).spec_next() == (if k == cl.len() - 1 {
                        Option::<NodeId>::None
                    } else {
                        Some(cl[k + 1])
                    })
                } by {
                    let x = cl[k];
                    assert(pre.contains_id(x));
                    let xi = pre.index_of(x);
                    assert(pres[xi].spec_parent() == Some(pres[i].spec_id()));
                    assert(post.node_of(x) == posts[xi]);
                    assert(xi != lci) by {
                        if c.len() > 0 && xi == lci {
                            // the old last child's parent is the parent at pi
                            assert(pre.child_list_wf_at(pi));
                            assert(pre.contains_id(c.last()) && pre.node_of(c.last()).spec_parent()
                                == Some(pres[pi].spec_id()));
                            assert(pre.node_of(c.last()) == pres[lci]);
                            assert(pres[i].spec_id() == pres[pi].spec_id());
                        }
                    }
                    // whether or not xi == pi, parent/prev/next of the child
                    // are unchanged
                }
            }
        }
        assert(post.wf());
    }

    /// Insert a node.  The node must be freshly constructed: not a root,
    /// no children, no siblings yet.  Fails when it carries no Parent
    /// relationship, when the parent id is absent, or when its own id is
    /// already taken; on success it is appended to its parent's child list
    /// and wired into the sibling chain.  The duplicate-id rejection is
    /// what keeps ids unique under random generation: overwriting the
    /// existing node instead would corrupt its parent's child list.
    pub fn add_node(&mut self, node: Node) -> (r: Result<(), TreeError>)
        requires
            old(self).wf(),
            !(node matches Node::Root(_)),
            node.spec_children() =~= Seq::<NodeId>::empty(),
            node.spec_prev() is None,
            node.spec_next() is None,
        ensures
            final(self).wf(),
            final(self).root_id_spec() == old(self).root_id_spec(),
            r is Ok <==> (node.spec_parent() is Some && old(self).contains_id(
                node.spec_parent()->0,
            ) && !old(self).contains_id(node.spec_id())),
            match r {
                Ok(_) => old(self).spec_add_shape(&*final(self), node),
                Err(e) => {
                    &&& *final(self) == *old(self)
                    &&& (e == TreeError::MissingParent <==> node.spec_parent() is None)
                    &&& (e == TreeError::ParentNotFound <==> node.spec_parent() is Some
                        && !old(self).contains_id(node.spec_parent()->0))
                    &&& (e == TreeError::DuplicateId <==> node.spec_parent() is Some
                        && old(self).contains_id(node.spec_parent()->0)
                        && old(self).contains_id(node.spec_id()))
                    &&& e != TreeError::LeafNotFound
                },
            },
    {
        let ghost node0 = node;
        let mut node = node;
        let pid = match node.parent_id() {
            None => {
                return Err(TreeError::MissingParent);
            },
            Some(x) => x,
        };
        let pi = match self.find_index(pid) {
            None => {
                return Err(TreeError::ParentNotFound);
            },
            Some(i) => i,
        };
        let node_id = node.id();
        match self.find_index(node_id) {
            Some(_) => {
                return Err(TreeError::DuplicateId);
            },
            None => {},
        }
        let ghost pre = *self;
        proof {
            assert(pre.child_list_wf_at(pi as int));
        }
        let ghost c = pre.nodes_seq()[pi as int].spec_children();
        // remember the current last child, if any, before reshaping
        let mut lc_pair: Option<(NodeId, usize)> = None;
        let cs_len = self.nodes[pi].children().len();
        if cs_len > 0 {
            let lc = self.nodes[pi].children()[cs_len - 1];
            proof {
                assert(pre.contains_id(c[c.len() - 1]));
                assert(pre.node_of(c.last()).spec_parent() == Some(pre.nodes_seq()[pi as int].spec_id()));
            }
            let lci = match self.find_index(lc) {
                Some(i) => i,
                None => {
                    proof {
                        assert(false);
                    }
                    0
                },
            };
            proof {
                // the last child cannot sit at the parent's own index
                if lci == pi {
                    pre.lemma_index_of(pi as int);
                    assert(pre.nodes_seq()[pi as int].spec_parent() == Some(pid));
                    if pi == 0 {
                        assert(pre.nodes_seq()[0].spec_parent() is None);
                    } else {
                        assert(pre.index_of(pre.nodes_seq()[pi as int].spec_parent()->0) < pi);
                    }
                    assert(false);
                }
            }
            lc_pair = Some((lc, lci));
        }
        // 1. the parent gains the new child at the end of its list
        let pnode = &mut self.nodes[pi];
        pnode.push_child(node_id);
        // 2. wire Previous/Next between the former last child and the node
        match lc_pair {
            Some((lc, lci)) => {
                let snode = &mut self.nodes[lci];
                snode.set_next(Some(node_id));
                node.set_previous(Some(lc));
            },
            None => {},
        }
        // 3. the node itself enters the arena
        self.nodes.push(node);
        proof {
            assert(self.nodes_seq().len() == pre.nodes_seq().len() + 1);
            assert(pre.index_of(pid) == pi);
            assert(pre.spec_add_shape(&*self, node0));
            NodeTree::lemma_add_wf(pre, *self, node0);
        }
        Ok(())
    }

    /// Look a node up by id.
    pub fn get(&self, id: NodeId) -> (r: Option<&Node>)
        requires
            self.ids_unique(),
        ensures
            match r {
                Some(n) => self.contains_id(id) && *n == self.node_of(id),
                None => !self.contains_id(id),
            },
    {
        match self.find_index(id) {
            Some(i) => Some(&self.nodes[i]),
            None => None,
        }
    }

    /// All leaf nodes of the tree, in arena (insertion) order.
    pub fn leaf_nodes(&self) -> (r: Vec<&LeafNode>)
        ensures
            r@.len() == leaves_of(self.nodes_seq()).len(),
            forall|i: int| 0 <= i < r@.len() ==> *(#[trigger] r@[i]) == leaves_of(
                self.nodes_seq(),
            )[i],
    {
        let mut r: Vec<&LeafNode> = Vec::new();
        let mut i: usize = 0;
        while i < self.nodes.len()
            invariant
                0 <= i <= self.nodes_seq().len(),
                r@.len() == leaves_of(self.nodes_seq().take(i as int)).len(),
                forall|j: int| 0 <= j < r@.len() ==> *(#[trigger] r@[j]) == leaves_of(
                    self.nodes_seq().take(i as int),
                )[j],
            decreases self.nodes_seq().len() - i,
        {
            proof {
                assert(self.nodes_seq().take(i + 1).drop_last() =~= self.nodes_seq().take(i as int));
                assert(self.nodes_seq().take(i + 1).last() == self.nodes_seq()[i as int]);
            }
            match &self.nodes[i] {
                Node::Leaf(l) => {
                    r.push(l);
                },
                _ => {},
            }
            i += 1;
        }
        proof {
            assert(self.nodes_seq().take(self.nodes_seq().len() as int) =~= self.nodes_seq());
        }
        r
    }

    /// Replace the embedding slot of the leaf with this id.  Fails with
    /// `LeafNotFound` when the id does not resolve to a leaf.
    pub fn set_leaf_embedding(&mut self, leaf_id: NodeId, embedding: Vec<u32>) -> (r: Result<
        (),
        TreeError,
    >)
        requires
            old(self).wf(),
        ensures
            final(self).wf(),
            final(self).root_id_spec() == old(self).root_id_spec(),
            r is Ok <==> (old(self).contains_id(leaf_id) && old(self).node_of(leaf_id) matches Node::Leaf(_)),
            match r {
                Ok(_) => {
                    &&& final(self).nodes_seq().len() == old(self).nodes_seq().len()
                    &&& updates_embedding(
                        old(self).node_of(leaf_id),
                        final(self).nodes_seq()[old(self).index_of(leaf_id)],
                        embedding@,
                    )
                    &&& forall|j: int|
                        0 <= j < old(self).nodes_seq().len() && j != old(self).index_of(leaf_id)
                            ==> final(self).nodes_seq()[j] == #[trigger] old(self).nodes_seq()[j]
                },
                Err(e) => *final(self) == *old(self) && e == TreeError::LeafNotFound,
            },
    {
        let ghost pre = *self;
        let i = match self.find_index(leaf_id) {
            None => {
                return Err(TreeError::LeafNotFound);
            },
            Some(i) => i,
        };
        if !self.nodes[i].is_leaf() {
            return Err(TreeError::LeafNotFound);
        }
        let target = &mut self.nodes[i];
        match target {
            Node::Leaf(l) => {
                l.embedding = Some(embedding);
            },
            _ => {
                proof {
                    assert(false);
                }
            },
        }
        proof {
            NodeTree::lemma_update_keeps_wf(pre, *self, i as int);
        }
        Ok(())
    }

    /// A node's structural fields (everything `wf` reads) are unchanged.
    pub open spec fn same_structure(a: Node, b: Node) -> bool {
        &&& a.spec_id() == b.spec_id()
        &&& a.spec_parent() == b.spec_parent()
        &&& a.spec_children() == b.spec_children()
        &&& a.spec_prev() == b.spec_prev()
        &&& a.spec_next() == b.spec_next()
        &&& ((a matches Node::Root(_)) <==> (b matches Node::Root(_)))
    }

    /// Replacing one node by a structurally identical one preserves
    /// well-formedness.
    proof fn lemma_update_keeps_wf(pre: NodeTree, post: NodeTree, i: int)
        requires
            pre.wf(),
            0 <= i < pre.nodes_seq().len(),
            post.nodes_seq().len() == pre.nodes_seq().len(),
            post.root_id_spec() == pre.root_id_spec(),
            NodeTree::same_structure(pre.nodes_seq()[i], post.nodes_seq()[i]),
            forall|j: int|
                0 <= j < pre.nodes_seq().len() && j != i ==> post.nodes_seq()[j]
                    == #[trigger] pre.nodes_seq()[j],
        ensures
            post.wf(),
    {
        let pres = pre.nodes_seq();
        let posts = post.nodes_seq();
        let n = pres.len() as int;
        assert forall|j: int| 0 <= j < n implies NodeTree::same_structure(
            pres[j],
            #[trigger] posts[j],
        ) by {}
        assert(post.ids_unique());
        assert forall|id: NodeId| #[trigger] pre.contains_id(id) implies {
            &&& post.contains_id(id)
            &&& post.index_of(id) == pre.index_of(id)
        } by {
            let j = pre.index_of(id);
            assert(0 <= j < n && pres[j].spec_id() == id);
            assert(posts[j].spec_id() == id);
            post.lemma_index_of(j);
        }
        assert forall|id: NodeId| #[trigger] post.contains_id(id) implies pre.contains_id(id) by {
            let j = post.index_of(id);
            assert(posts[j].spec_id() == id);
            assert(pres[j].spec_id() == id);
        }
        assert forall|j: int| 0 <= j < n implies post.child_list_wf_at(j) by {
            assert(pre.child_list_wf_at(j));
            let c = posts[j].spec_children();
            assert(c == pres[j].spec_children());
            assert forall|k: int| 0 <= k < c.len() implies {
                &&& post.contains_id(#[trigger] c[k])
                &&& post.node_of(c[k]).spec_parent() == Some(posts[j].spec_id())
                &&& post.node_of(c[k]).spec_prev() == (if k == 0 {
                    Option::<NodeId>::None
                } else {
                    Some(c[k - 1])
                })
                &&& post.node_of(c[k]).spec_next() == (if k == c.len() - 1 {
                    Option::<NodeId>::None
                } else {
                    Some(c[k + 1])
                })
            } by {
                assert(pre.contains_id(c[k]));
                let xi = pre.index_of(c[k]);
                assert(pre.node_of(c[k]) == pres[xi]);
                assert(post.node_of(c[k]) == posts[xi]);
            }
        }
        assert(post.wf());
    }
}

/// The leaf payloads of an arena, in order.
pub open spec fn leaves_of(s: Seq<Node>) -> Seq<LeafNode>
    decreases s.len(),
{
    if s.len() == 0 {
        Seq::<LeafNode>::empty()
    } else {
        leaves_of(s.drop_last()) + (match s.last() {
            Node::Leaf(l) => seq![l],
            _ => Seq::<LeafNode>::empty(),
        })
    }
}

/// `b` is `a` (a leaf) with its embedding slot filled by `e` and nothing
/// else changed.
pub open spec fn updates_embedding(a: Node, b: Node, e: Seq<u32>) -> bool {
    match (a, b) {
        (Node::Leaf(x), Node::Leaf(y)) => {
            &&& x.id == y.id
            &&& x.text == y.text
            &&& y.embedding matches Some(v) && v@ == e
            &&& x.relationships == y.relationships
            &&& x.metadata == y.metadata
        },
        _ => false,
    }
}

/// The ancestor path of a node, root first, the node itself last,
/// following Parent links upward.
pub open spec fn spec_ancestors(t: &NodeTree, id: NodeId) -> Seq<Node>
    decreases t.index_of(id),
{
    let n = t.node_of(id);
    if n.spec_parent() is Some && t.contains_id(n.spec_parent()->0) && t.index_of(
        n.spec_parent()->0,
    ) < t.index_of(id) && 0 <= t.index_of(id) {
        spec_ancestors(t, n.spec_parent()->0).push(n)
    } else {
        seq![n]
    }
}

/// The ancestor path of every tree member starts at the root and ends at
/// the member itself.
pub proof fn lemma_ancestors_endpoints(t: &NodeTree, id: NodeId)
    requires
        t.wf(),
        t.contains_id(id),
    ensures
        spec_ancestors(t, id).len() >= 1,
        spec_ancestors(t, id).last() == t.node_of(id),
        spec_ancestors(t, id).first() == t.node_of(t.root_id_spec()),
    decreases t.index_of(id),
{
    let i = t.index_of(id);
    assert(0 <= i < t.nodes_seq().len() && t.nodes_seq()[i].spec_id() == id);
    let n = t.node_of(id);
    t.lemma_index_of(0);
    if i == 0 {
        assert(n.spec_parent() is None);
        assert(spec_ancestors(t, id) =~= seq![n]);
    } else {
        assert(n.spec_parent() is Some && t.contains_id(n.spec_parent()->0) && t.index_of(
            n.spec_parent()->0,
        ) < i);
        lemma_ancestors_endpoints(t, n.spec_parent()->0);
    }
}

impl NodeTree {
    /// Walk Parent links from `node_id` up to the root and return the
    /// path in root-to-node order.  An id absent from the tree yields the
    /// empty path.
    #[verifier::rlimit(100)]
    pub fn get_ancestors(&self, node_id: NodeId) -> (r: Vec<&Node>)
        requires
            self.wf(),
        ensures
            self.contains_id(node_id) ==> r@.len() == spec_ancestors(self, node_id).len()
                && (forall|i: int|
                0 <= i < r@.len() ==> *(#[trigger] r@[i]) == spec_ancestors(self, node_id)[i]),
            !self.contains_id(node_id) ==> r@.len() == 0,
    {
        let mut r: Vec<&Node> = Vec::new();
        let start = match self.find_index(node_id) {
            None => {
                return r;
            },
            Some(i) => i,
        };
        // walk upward, collecting arena indices in node-to-root order
        let mut idxs: Vec<usize> = Vec::new();
        let mut cur: usize = start;
        let ghost mut tail: Seq<Node> = Seq::empty();
        proof {
            self.lemma_index_of(start as int);
        }
        loop
            invariant
                self.wf(),
                cur < self.nodes_seq().len(),
                self.index_of(self.nodes_seq()[cur as int].spec_id()) == cur,
                spec_ancestors(self, node_id) =~= spec_ancestors(
                    self,
                    self.nodes_seq()[cur as int].spec_id(),
                ) + tail,
                tail.len() == idxs@.len(),
                forall|k: int|
                    0 <= k < idxs@.len() ==> (#[trigger] idxs@[k]) < self.nodes_seq().len()
                        && tail[tail.len() - 1 - k] == self.nodes_seq()[idxs@[k] as int],
            ensures
                cur < self.nodes_seq().len(),
                self.nodes_seq()[cur as int].spec_parent() is None,
                spec_ancestors(self, node_id) =~= spec_ancestors(
                    self,
                    self.nodes_seq()[cur as int].spec_id(),
                ) + tail,
                self.index_of(self.nodes_seq()[cur as int].spec_id()) == cur,
                tail.len() == idxs@.len(),
                forall|k: int|
                    0 <= k < idxs@.len() ==> (#[trigger] idxs@[k]) < self.nodes_seq().len()
                        && tail[tail.len() - 1 - k] == self.nodes_seq()[idxs@[k] as int],
            decreases cur,
        {
            let parent = self.nodes[cur].parent_id();
            match parent {
                None => {
                    break;
                },
                Some(p) => {
                    proof {
                        if cur == 0 {
                            assert(self.nodes_seq()[0].spec_parent() is None);
                        }
                        assert(self.contains_id(p) && self.index_of(p) < cur);
                    }
                    let pidx = match self.find_index(p) {
                        Some(j) => j,
                        None => {
                            proof {
                                assert(false);
                            }
                            0
                        },
                    };
                    idxs.push(cur);
                    proof {
                        let cid = self.nodes_seq()[cur as int].spec_id();
                        assert(spec_ancestors(self, cid) =~= spec_ancestors(self, p).push(
                            self.node_of(cid),
                        ));
                        assert(self.node_of(cid) == self.nodes_seq()[cur as int]);
                        tail = seq![self.nodes_seq()[cur as int]] + tail;
                        self.lemma_index_of(pidx as int);
                    }
                    cur = pidx;
                },
            }
        }
        // the walk stopped at the parentless node: the root
        proof {
            let cid = self.nodes_seq()[cur as int].spec_id();
            assert(spec_ancestors(self, cid) =~= seq![self.node_of(cid)]);
            assert(self.node_of(cid) == self.nodes_seq()[cur as int]);
        }
        // emit in root-to-node order
        r.push(&self.nodes[cur]);
        let mut k: usize = idxs.len();
        while k > 0
            invariant
                0 <= k <= idxs@.len(),
                r@.len() == 1 + (idxs@.len() - k),
                cur < self.nodes_seq().len(),
                tail.len() == idxs@.len(),
                spec_ancestors(self, node_id) =~= seq![self.nodes_seq()[cur as int]] + tail,
                forall|j: int|
                    0 <= j < idxs@.len() ==> (#[trigger] idxs@[j]) < self.nodes_seq().len()
                        && tail[tail.len() - 1 - j] == self.nodes_seq()[idxs@[j] as int],
                forall|i: int|
                    0 <= i < r@.len() ==> *(#[trigger] r@[i]) == spec_ancestors(self, node_id)[i],
            decreases k,
        {
            k -= 1;
            r.push(&self.nodes[idxs[k]]);
            proof {
                let i = r@.len() - 1;
                assert(spec_ancestors(self, node_id)[i] == tail[i - 1]);
                assert(tail[tail.len() - 1 - (k as int)] == self.nodes_seq()[idxs@[k as int] as int]);
            }
        }
        r
    }
}

/// The node reached from `id` after `k` steps along Next links (staying
/// put when a Next slot is empty).
pub open spec fn follow_next(t: &NodeTree, id: NodeId, k: nat) -> NodeId
    decreases k,
{
    if k == 0 {
        id
    } else {
        match t.node_of(id).spec_next() {
            Some(nx) => follow_next(t, nx, (k - 1) as nat),
            None => id,
        }
    }
}

/// The node reached from `id` after `k` steps along Previous links.
pub open spec fn follow_prev(t: &NodeTree, id: NodeId, k: nat) -> NodeId
    decreases k,
{
    if k == 0 {
        id
    } else {
        match t.node_of(id).spec_prev() {
            Some(pv) => follow_prev(t, pv, (k - 1) as nat),
            None => id,
        }
    }
}

/// In a well-formed tree, walking `k` Next steps from the `j`-th child of
/// a parent lands on the `j+k`-th child, and walking `k` Previous steps
/// from the `j`-th child lands on the `j-k`-th: the sibling links visit a
/// parent's children exactly in insertion order.
pub proof fn lemma_sibling_chain(t: &NodeTree, parent_id: NodeId, j: int, k: int)
    requires
        t.wf(),
        t.contains_id(parent_id),
        0 <= j,
        0 <= k,
        j + k < t.node_of(parent_id).spec_children().len(),
    ensures
        follow_next(t, t.node_of(parent_id).spec_children()[j], k as nat) == t.node_of(
            parent_id,
        ).spec_children()[j + k],
        follow_prev(t, t.node_of(parent_id).spec_children()[j + k], k as nat) == t.node_of(
            parent_id,
        ).spec_children()[j],
    decreases k,
{
    let pi = t.index_of(parent_id);
    assert(0 <= pi < t.nodes_seq().len() && t.nodes_seq()[pi].spec_id() == parent_id);
    assert(t.child_list_wf_at(pi));
    let c = t.node_of(parent_id).spec_children();
    if k > 0 {
        lemma_sibling_chain(t, parent_id, j, k - 1);
        lemma_sibling_chain(t, parent_id, j + 1, k - 1);
        assert(t.node_of(c[j]).spec_next() == Some(c[j + 1]));
        assert(t.node_of(c[j + k]).spec_prev() == Some(c[j + k - 1]));
    }
}

/// Walking Next from a parent's first child visits all of its children in
/// insertion order; walking Previous from the last child reverses it.
pub proof fn lemma_children_traversal(t: &NodeTree, parent_id: NodeId, k: int)
    requires
        t.wf(),
        t.contains_id(parent_id),
        0 <= k < t.node_of(parent_id).spec_children().len(),
    ensures
        follow_next(t, t.node_of(parent_id).spec_children()[0], k as nat) == t.node_of(
            parent_id,
        ).spec_children()[k],
        follow_prev(
            t,
            t.node_of(parent_id).spec_children().last(),
            k as nat,
        ) == t.node_of(parent_id).spec_children()[t.node_of(parent_id).spec_children().len() - 1
            - k],
{
    let c = t.node_of(parent_id).spec_children();
    lemma_sibling_chain(t, parent_id, 0, k);
    lemma_sibling_chain(t, parent_id, c.len() - 1 - k, k);
}

} // verus!

