use vstd::prelude::*;

verus! {

/// A bookmark-tree node. A node with a `url` is a bookmark leaf; a node
/// without one is a folder. Children are owned exclusively by their parent.
pub struct BookmarkNode {
    pub id: String,
    pub title: String,
    pub url: Option<String>,
    pub add_date: u64,
    pub last_modified: u64,
    pub icon: Option<String>,
    pub tags: Vec<String>,
    pub is_duplicate: bool,
    pub children: Vec<BookmarkNode>,
}

/// A read-only report of all nodes sharing one url.
pub struct DuplicateGroup {
    pub url: String,
    pub nodes: Vec<BookmarkNode>,
}

/// The mathematical value of a node: text fields as character sequences,
/// children as a sequence of views.
pub ghost struct NodeView {
    pub id: Seq<char>,
    pub title: Seq<char>,
    pub url: Option<Seq<char>>,
    pub add_date: u64,
    pub last_modified: u64,
    pub icon: Option<Seq<char>>,
    pub tags: Seq<Seq<char>>,
    pub is_duplicate: bool,
    pub children: Seq<NodeView>,
}

/// The mathematical value of a duplicate group.
pub ghost struct GroupView {
    pub url: Seq<char>,
    pub nodes: Seq<NodeView>,
}

pub open spec fn opt_view(o: Option<String>) -> Option<Seq<char>> {
    match o {
        Some(s) => Some(s@),
        None => None,
    }
}

pub open spec fn tags_view(tags: Seq<String>) -> Seq<Seq<char>> {
    tags.map_values(|t: String| t@)
}

pub open spec fn node_view(n: BookmarkNode) -> NodeView
    decreases n,
{
    NodeView {
        id: n.id@,
        title: n.title@,
        url: opt_view(n.url),
        add_date: n.add_date,
        last_modified: n.last_modified,
        icon: opt_view(n.icon),
        tags: tags_view(n.tags@),
        is_duplicate: n.is_duplicate,
        children: nodes_view(n.children@),
    }
}

pub open spec fn nodes_view(s: Seq<BookmarkNode>) -> Seq<NodeView>
    decreases s,
{
    if s.len() == 0 {
        Seq::empty()
    } else {
        seq![node_view(s[0])] + nodes_view(s.drop_first())
    }
}

pub proof fn lemma_nodes_view_len(s: Seq<BookmarkNode>)
    ensures
        nodes_view(s).len() == s.len(),
    decreases s,
{
    if s.len() != 0 {
        lemma_nodes_view_len(s.drop_first());
    }
}

pub proof fn lemma_nodes_view_index(s: Seq<BookmarkNode>, i: int)
    requires
        0 <= i < s.len(),
    ensures
        nodes_view(s).len() == s.len(),
        nodes_view(s)[i] == node_view(s[i]),
    decreases s,
{
    lemma_nodes_view_len(s);
    if i > 0 {
        lemma_nodes_view_index(s.drop_first(), i - 1);
        assert(s.drop_first()[i - 1] == s[i]);
    }
}

pub proof fn lemma_nodes_view_push(s: Seq<BookmarkNode>, n: BookmarkNode)
    ensures
        nodes_view(s.push(n)) == nodes_view(s).push(node_view(n)),
    decreases s,
{
    if s.len() == 0 {
        assert(s.push(n).drop_first() =~= Seq::<BookmarkNode>::empty());
        assert(s.push(n).len() == 1);
        assert(s.push(n)[0] == n);
        assert(nodes_view(s.push(n)) == seq![node_view(n)] + nodes_view(
            s.push(n).drop_first(),
        ));
        assert(nodes_view(s.push(n).drop_first()) == Seq::<NodeView>::empty());
        assert(nodes_view(s) == Seq::<NodeView>::empty());
        assert(nodes_view(s.push(n)) =~= nodes_view(s).push(node_view(n)));
    } else {
        lemma_nodes_view_push(s.drop_first(), n);
        assert(s.push(n).drop_first() =~= s.drop_first().push(n));
        assert(nodes_view(s.push(n).drop_first()) == nodes_view(s.drop_first()).push(
            node_view(n),
        ));
        assert(s.push(n)[0] == s[0]);
        assert(nodes_view(s.push(n)) == seq![node_view(s[0])] + nodes_view(s.drop_first()).push(
            node_view(n),
        ));
        assert(nodes_view(s) == seq![node_view(s[0])] + nodes_view(s.drop_first()));
        assert(nodes_view(s.push(n)) =~= nodes_view(s).push(node_view(n)));
    }
}

pub proof fn lemma_nodes_view_append(a: Seq<BookmarkNode>, b: Seq<BookmarkNode>)
    ensures
        nodes_view(a + b) == nodes_view(a) + nodes_view(b),
    decreases a,
{
    if a.len() == 0 {
        assert(a + b =~= b);
        assert(nodes_view(a) + nodes_view(b) =~= nodes_view(b));
    } else {
        lemma_nodes_view_append(a.drop_first(), b);
        assert((a + b)[0] == a[0]);
        assert((a + b).drop_first() =~= a.drop_first() + b);
        assert(nodes_view(a + b) == seq![node_view(a[0])] + (nodes_view(a.drop_first())
            + nodes_view(b)));
        assert(nodes_view(a + b) =~= nodes_view(a) + nodes_view(b));
    }
}

pub proof fn lemma_nodes_view_insert_front(s: Seq<BookmarkNode>, n: BookmarkNode)
    ensures
        nodes_view(s.insert(0, n)) == seq![node_view(n)] + nodes_view(s),
{
    let t = s.insert(0, n);
    assert(t[0] == n);
    assert(t.drop_first() =~= s);
}

pub open spec fn group_view(g: DuplicateGroup) -> GroupView {
    GroupView { url: g.url@, nodes: nodes_view(g.nodes@) }
}

impl View for BookmarkNode {
    type V = NodeView;

    open spec fn view(&self) -> NodeView {
        node_view(*self)
    }
}

impl View for DuplicateGroup {
    type V = GroupView;

    open spec fn view(&self) -> GroupView {
        group_view(*self)
    }
}

/// Number of nodes in a whole subtree, the root included.
pub open spec fn size_node(n: NodeView) -> nat
    decreases n,
{
    1 + size_nodes(n.children)
}

/// Number of nodes in a forest, all levels included.
pub open spec fn size_nodes(s: Seq<NodeView>) -> nat
    decreases s,
{
    if s.len() == 0 {
        0
    } else {
        size_node(s[0]) + size_nodes(s.drop_first())
    }
}

/// Pre-order linearization of one subtree.
pub open spec fn flatten_node(n: NodeView) -> Seq<NodeView>
    decreases n,
{
    seq![n] + flatten_nodes(n.children)
}

/// Pre-order linearization of a forest, folders included.
pub open spec fn flatten_nodes(s: Seq<NodeView>) -> Seq<NodeView>
    decreases s,
{
    if s.len() == 0 {
        Seq::empty()
    } else {
        flatten_node(s[0]) + flatten_nodes(s.drop_first())
    }
}

/// Some node in the forest carries this id.
pub open spec fn has_id_nodes(s: Seq<NodeView>, id: Seq<char>) -> bool
    decreases s,
{
    if s.len() == 0 {
        false
    } else {
        has_id_node(s[0], id) || has_id_nodes(s.drop_first(), id)
    }
}

pub open spec fn has_id_node(n: NodeView, id: Seq<char>) -> bool
    decreases n,
{
    n.id == id || has_id_nodes(n.children, id)
}

/// The data model's child rule: a node carrying a url is a bookmark leaf
/// and has no children, at every level of the forest.
pub open spec fn bookmarks_childless_nodes(s: Seq<NodeView>) -> bool
    decreases s, 1int,
{
    if s.len() == 0 {
        true
    } else {
        bookmarks_childless_node(s[0]) && bookmarks_childless_nodes(s.drop_first())
    }
}

pub open spec fn bookmarks_childless_node(n: NodeView) -> bool
    decreases n, 0int,
{
    (n.url is Some ==> n.children.len() == 0) && bookmarks_childless_nodes(n.children)
}

pub proof fn lemma_size_nodes_index(s: Seq<NodeView>, i: int)
    requires
        0 <= i < s.len(),
    ensures
        size_node(s[i]) <= size_nodes(s),
    decreases s,
{
    if i > 0 {
        lemma_size_nodes_index(s.drop_first(), i - 1);
        assert(s.drop_first()[i - 1] == s[i]);
    }
}

pub proof fn lemma_flatten_nodes_len(s: Seq<NodeView>)
    ensures
        flatten_nodes(s).len() == size_nodes(s),
    decreases s, 1int,
{
    if s.len() != 0 {
        lemma_flatten_node_len(s[0]);
        lemma_flatten_nodes_len(s.drop_first());
    }
}

pub proof fn lemma_flatten_node_len(n: NodeView)
    ensures
        flatten_node(n).len() == size_node(n),
    decreases n, 0int,
{
    lemma_flatten_nodes_len(n.children);
}

impl BookmarkNode {
    /// A fresh node: no icon, no tags, not a duplicate, no children,
    /// `last_modified` equal to `add_date`.
    pub fn new(id: String, title: String, url: Option<String>, add_date: u64) -> (r: Self)
        ensures
            r@ == (NodeView {
                id: id@,
                title: title@,
                url: opt_view(url),
                add_date: add_date,
                last_modified: add_date,
                icon: None,
                tags: Seq::<Seq<char>>::empty(),
                is_duplicate: false,
                children: Seq::<NodeView>::empty(),
            }),
    {
        let r = BookmarkNode {
            id,
            title,
            url,
            add_date,
            last_modified: add_date,
            icon: None,
            tags: Vec::new(),
            is_duplicate: false,
            children: Vec::new(),
        };
        proof {
            assert(tags_view(r.tags@) =~= Seq::<Seq<char>>::empty());
            assert(nodes_view(r.children@) =~= Seq::<NodeView>::empty());
        }
        r
    }

    /// A node is a folder exactly when it has no url.
    pub fn is_folder(&self) -> (r: bool)
        ensures
            r == (self@.url is None),
    {
        self.url.is_none()
    }
}

} // verus!
