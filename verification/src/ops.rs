use vstd::prelude::*;

verus! {

use crate::node::BookmarkNode;
use crate::node::NodeView;
use crate::node::node_view;
use crate::node::nodes_view;
use crate::node::opt_view;
use crate::node::tags_view;
use crate::node::size_node;
use crate::node::size_nodes;
use crate::node::flatten_node;
use crate::node::flatten_nodes;
use crate::node::lemma_size_nodes_index;
use crate::node::lemma_nodes_view_index;
use crate::node::lemma_nodes_view_len;
use crate::node::lemma_nodes_view_push;
use crate::node::lemma_nodes_view_insert_front;
use crate::strutil::str_eq;
use crate::strutil::mint_id;
use crate::strutil::spec_node_id;
use vstd::string::StrSliceExecFns;

/// The failures a structural edit can report: the edited node itself is
/// absent, or the destination parent of a move is absent.
#[derive(Clone, Copy, Debug, PartialEq, Eq, Structural)]
pub enum TreeError {
    NodeNotFound,
    ParentNotFound,
}

pub proof fn lemma_nodes_view_drop(s: Seq<BookmarkNode>)
    requires
        s.len() > 0,
    ensures
        nodes_view(s.drop_first()) == nodes_view(s).drop_first(),
{
    assert(nodes_view(s) == seq![node_view(s[0])] + nodes_view(s.drop_first()));
    assert(nodes_view(s).drop_first() =~= nodes_view(s.drop_first()));
}

/// Remove the first node carrying `id`, in pre-order, together with its
/// whole subtree; the second component is the removed subtree, if any.
pub open spec fn remove_in_nodes(s: Seq<NodeView>, id: Seq<char>) -> (Seq<NodeView>, Option<
    NodeView,
>)
    decreases s,
{
    if s.len() == 0 {
        (s, None)
    } else if s[0].id == id {
        (s.drop_first(), Some(s[0]))
    } else {
        let r0 = remove_in_node(s[0], id);
        if r0.1 is Some {
            (seq![r0.0] + s.drop_first(), r0.1)
        } else {
            let r = remove_in_nodes(s.drop_first(), id);
            (seq![s[0]] + r.0, r.1)
        }
    }
}

/// Remove the first node carrying `id` from the subtrees under `n`.
pub open spec fn remove_in_node(n: NodeView, id: Seq<char>) -> (NodeView, Option<NodeView>)
    decreases n,
{
    let r = remove_in_nodes(n.children, id);
    (NodeView { children: r.0, ..n }, r.1)
}

/// Append `c` as the last child of the first folder carrying `pid`; the
/// second component says whether such a parent was found. Only a folder
/// can take children: a bookmark carrying the id counts as absent, so
/// that no operation ever gives a url-bearing node a child.
pub open spec fn attach_in_nodes(s: Seq<NodeView>, pid: Seq<char>, c: NodeView) -> (Seq<NodeView>, bool)
    decreases s,
{
    if s.len() == 0 {
        (s, false)
    } else {
        let r0 = attach_in_node(s[0], pid, c);
        if r0.1 {
            (seq![r0.0] + s.drop_first(), true)
        } else {
            let r = attach_in_nodes(s.drop_first(), pid, c);
            (seq![s[0]] + r.0, r.1)
        }
    }
}

pub open spec fn attach_in_node(n: NodeView, pid: Seq<char>, c: NodeView) -> (NodeView, bool)
    decreases n,
{
    if n.id == pid && n.url is None {
        (NodeView { children: n.children.push(c), ..n }, true)
    } else {
        let r = attach_in_nodes(n.children, pid, c);
        (NodeView { children: r.0, ..n }, r.1)
    }
}

/// What deleting `id` leaves: the tree without that subtree when the id is
/// present, the tree unchanged otherwise.
pub open spec fn spec_delete(s: Seq<NodeView>, id: Seq<char>) -> (Seq<NodeView>, bool) {
    let r = remove_in_nodes(s, id);
    match r.1 {
        Some(_) => (r.0, true),
        None => (s, false),
    }
}

/// What adding a node yields: the node gets the minted id, is appended to
/// the children of the first folder carrying `pid`, or to the top level
/// when no such folder exists (a bookmark carrying the id counts as
/// absent: bookmarks never take children).
pub open spec fn spec_add(s: Seq<NodeView>, pid: Seq<char>, n: NodeView, now_ms: u64) -> Seq<
    NodeView,
> {
    let m = NodeView { id: spec_node_id(now_ms), ..n };
    let a = attach_in_nodes(s, pid, m);
    if a.1 {
        a.0
    } else {
        s.push(m)
    }
}

/// What moving `id` under `pid` yields, with the error reported, if any.
/// The sentinel parents `"root"` and the empty string mean the top level.
/// When the destination is absent — or is a bookmark, which never takes
/// children — the subtree is re-inserted at the top level and the
/// failure is still reported.
pub open spec fn spec_move(s: Seq<NodeView>, id: Seq<char>, pid: Seq<char>) -> (Seq<NodeView>, Option<
    TreeError,
>) {
    let r = remove_in_nodes(s, id);
    match r.1 {
        None => (s, Some(TreeError::NodeNotFound)),
        Some(n) => {
            if pid == "root"@ || pid.len() == 0 {
                (r.0.push(n), None)
            } else {
                let a = attach_in_nodes(r.0, pid, n);
                if a.1 {
                    (a.0, None)
                } else {
                    (r.0.push(n), Some(TreeError::ParentNotFound))
                }
            }
        },
    }
}

/// Detach the first node carrying `id`, in pre-order, with its subtree.
fn remove_node_first(nodes: &mut Vec<BookmarkNode>, id: &str) -> (r: Option<BookmarkNode>)
    ensures
        ({
            let rr = remove_in_nodes(nodes_view(old(nodes)@), id@);
            match r {
                Some(n) => rr.1 == Some(node_view(n)) && nodes_view(final(nodes)@) == rr.0,
                None => rr.1 is None && nodes_view(final(nodes)@) == nodes_view(old(nodes)@),
            }
        }),
    decreases size_nodes(nodes_view(old(nodes)@)),
{
    let ghost vs = nodes_view(old(nodes)@);
    if nodes.len() == 0 {
        return None;
    }
    proof {
        lemma_nodes_view_index(old(nodes)@, 0);
        lemma_nodes_view_drop(old(nodes)@);
        assert(vs == seq![vs[0]] + vs.drop_first());
    }
    let mut first = nodes.remove(0);
    proof {
        assert(nodes@ =~= old(nodes)@.drop_first());
    }
    if str_eq(first.id.as_str(), id) {
        return Some(first);
    }
    proof {
        assert(size_nodes(vs) == size_node(vs[0]) + size_nodes(vs.drop_first()));
        assert(size_node(vs[0]) == 1 + size_nodes(vs[0].children));
        assert(nodes_view(first.children@) == vs[0].children);
    }
    let r = remove_node_first(&mut first.children, id);
    match r {
        Some(n) => {
            proof {
                assert(node_view(first) == remove_in_node(vs[0], id@).0);
            }
            nodes.insert(0, first);
            proof {
                lemma_nodes_view_insert_front(old(nodes)@.drop_first(), first);
                assert(nodes_view(nodes@) =~= remove_in_nodes(vs, id@).0);
            }
            return Some(n);
        },
        None => {
            proof {
                assert(node_view(first) == vs[0]);
            }
            let r2 = remove_node_first(nodes, id);
            let ghost mid = nodes@;
            nodes.insert(0, first);
            proof {
                lemma_nodes_view_insert_front(mid, first);
            }
            match r2 {
                Some(n2) => {
                    proof {
                        assert(nodes_view(nodes@) =~= remove_in_nodes(vs, id@).0);
                    }
                    return Some(n2);
                },
                None => {
                    proof {
                        assert(nodes_view(nodes@) =~= vs);
                    }
                    return None;
                },
            }
        },
    }
}

/// Append `child` to the first folder carrying `pid`; hand the child back
/// when no such folder exists, the tree then unchanged. A bookmark never
/// takes children, so one carrying the id counts as absent.
fn attach_node(nodes: &mut Vec<BookmarkNode>, pid: &str, child: BookmarkNode) -> (r: Option<
    BookmarkNode,
>)
    ensures
        ({
            let a = attach_in_nodes(nodes_view(old(nodes)@), pid@, node_view(child));
            match r {
                None => a.1 && nodes_view(final(nodes)@) == a.0,
                Some(c) => !a.1 && nodes_view(final(nodes)@) == nodes_view(old(nodes)@)
                    && node_view(c) == node_view(child),
            }
        }),
    decreases size_nodes(nodes_view(old(nodes)@)),
{
    let ghost vs = nodes_view(old(nodes)@);
    let ghost cv = node_view(child);
    if nodes.len() == 0 {
        return Some(child);
    }
    proof {
        lemma_nodes_view_index(old(nodes)@, 0);
        lemma_nodes_view_drop(old(nodes)@);
        assert(vs == seq![vs[0]] + vs.drop_first());
    }
    let mut first = nodes.remove(0);
    proof {
        assert(nodes@ =~= old(nodes)@.drop_first());
    }
    if str_eq(first.id.as_str(), pid) && first.url.is_none() {
        proof {
            lemma_nodes_view_push(first.children@, child);
        }
        first.children.push(child);
        proof {
            assert(node_view(first) == attach_in_node(vs[0], pid@, cv).0);
        }
        nodes.insert(0, first);
        proof {
            lemma_nodes_view_insert_front(old(nodes)@.drop_first(), first);
            assert(nodes_view(nodes@) =~= attach_in_nodes(vs, pid@, cv).0);
        }
        return None;
    }
    proof {
        assert(size_nodes(vs) == size_node(vs[0]) + size_nodes(vs.drop_first()));
        assert(size_node(vs[0]) == 1 + size_nodes(vs[0].children));
        assert(nodes_view(first.children@) == vs[0].children);
    }
    let r = attach_node(&mut first.children, pid, child);
    match r {
        None => {
            proof {
                assert(node_view(first) == attach_in_node(vs[0], pid@, cv).0);
            }
            nodes.insert(0, first);
            proof {
                lemma_nodes_view_insert_front(old(nodes)@.drop_first(), first);
                assert(nodes_view(nodes@) =~= attach_in_nodes(vs, pid@, cv).0);
            }
            None
        },
        Some(c) => {
            proof {
                assert(node_view(first) == vs[0]);
                assert(!attach_in_node(vs[0], pid@, cv).1);
            }
            let r2 = attach_node(nodes, pid, c);
            let ghost mid = nodes@;
            nodes.insert(0, first);
            proof {
                lemma_nodes_view_insert_front(mid, first);
            }
            match r2 {
                None => {
                    proof {
                        assert(nodes_view(nodes@) =~= attach_in_nodes(vs, pid@, cv).0);
                    }
                    None
                },
                Some(c2) => {
                    proof {
                        assert(nodes_view(nodes@) =~= vs);
                    }
                    Some(c2)
                },
            }
        },
    }
}

/// Delete the node carrying `id` and its entire subtree. Unlike the
/// tolerant edits, an absent id is an error and the tree is unchanged.
pub fn delete_node(nodes: &mut Vec<BookmarkNode>, id: &str) -> (r: Result<(), TreeError>)
    ensures
        ({
            let d = spec_delete(nodes_view(old(nodes)@), id@);
            match r {
                Ok(()) => d.1 && nodes_view(final(nodes)@) == d.0,
                Err(e) => !d.1 && e == TreeError::NodeNotFound && nodes_view(final(nodes)@)
                    == nodes_view(old(nodes)@),
            }
        }),
{
    match remove_node_first(nodes, id) {
        Some(_) => Ok(()),
        None => Err(TreeError::NodeNotFound),
    }
}

/// Add `new_node` under the first folder carrying `parent_id`, or at the
/// top level when no such folder exists (a bookmark never takes
/// children). The node's id is minted from the current time, handed in
/// as milliseconds.
pub fn add_node(
    nodes: &mut Vec<BookmarkNode>,
    parent_id: &str,
    new_node: BookmarkNode,
    now_ms: u64,
)
    ensures
        nodes_view(final(nodes)@) == spec_add(
            nodes_view(old(nodes)@),
            parent_id@,
            node_view(new_node),
            now_ms,
        ),
{
    let mut n = new_node;
    n.id = mint_id(now_ms);
    proof {
        assert(node_view(n) == (NodeView { id: spec_node_id(now_ms), ..node_view(new_node) }));
    }
    match attach_node(nodes, parent_id, n) {
        None => {
        },
        Some(c) => {
            proof {
                lemma_nodes_view_push(nodes@, c);
            }
            nodes.push(c);
        },
    }
}

/// Move the subtree rooted at `id` to be the last child of `new_parent_id`.
/// `"root"` or an empty parent id means the top level. When the parent is
/// absent — or is a bookmark, which never takes children — the subtree is
/// kept at the top level and the error reported.
pub fn move_node(nodes: &mut Vec<BookmarkNode>, id: &str, new_parent_id: &str) -> (r: Result<
    (),
    TreeError,
>)
    ensures
        ({
            let m = spec_move(nodes_view(old(nodes)@), id@, new_parent_id@);
            nodes_view(final(nodes)@) == m.0 && r == (match m.1 {
                None => Ok::<(), TreeError>(()),
                Some(e) => Err(e),
            })
        }),
{
    let moved = match remove_node_first(nodes, id) {
        None => {
            return Err(TreeError::NodeNotFound);
        },
        Some(n) => n,
    };
    if str_eq(new_parent_id, "root") || new_parent_id.unicode_len() == 0 {
        proof {
            lemma_nodes_view_push(nodes@, moved);
        }
        nodes.push(moved);
        return Ok(());
    }
    match attach_node(nodes, new_parent_id, moved) {
        None => Ok(()),
        Some(c) => {
            proof {
                lemma_nodes_view_push(nodes@, c);
            }
            nodes.push(c);
            Err(TreeError::ParentNotFound)
        },
    }
}

/// The first node carrying `id`, in pre-order.
pub open spec fn find_in_nodes(s: Seq<NodeView>, id: Seq<char>) -> Option<NodeView>
    decreases s,
{
    if s.len() == 0 {
        None
    } else {
        match find_in_node(s[0], id) {
            Some(n) => Some(n),
            None => find_in_nodes(s.drop_first(), id),
        }
    }
}

pub open spec fn find_in_node(n: NodeView, id: Seq<char>) -> Option<NodeView>
    decreases n,
{
    if n.id == id {
        Some(n)
    } else {
        find_in_nodes(n.children, id)
    }
}

fn find_from<'a>(nodes: &'a Vec<BookmarkNode>, i: usize, id: &str) -> (r: Option<
    &'a BookmarkNode,
>)
    requires
        i <= nodes@.len(),
    ensures
        ({
            let f = find_in_nodes(
                nodes_view(nodes@).subrange(i as int, nodes@.len() as int),
                id@,
            );
            match r {
                Some(n) => f == Some(node_view(*n)),
                None => f is None,
            }
        }),
    decreases size_nodes(nodes_view(nodes@)), nodes@.len() - i,
{
    let ghost vs = nodes_view(nodes@);
    proof {
        lemma_nodes_view_len(nodes@);
    }
    if i == nodes.len() {
        proof {
            assert(vs.subrange(i as int, nodes@.len() as int) =~= Seq::<NodeView>::empty());
        }
        return None;
    }
    let ghost tail = vs.subrange(i as int, nodes@.len() as int);
    proof {
        lemma_nodes_view_index(nodes@, i as int);
        assert(tail[0] == vs[i as int]);
        assert(tail.drop_first() =~= vs.subrange(i as int + 1, nodes@.len() as int));
    }
    let n = &nodes[i];
    if str_eq(n.id.as_str(), id) {
        proof {
            assert(node_view(*n) == tail[0]);
            assert(tail[0].id == id@);
            assert(find_in_node(tail[0], id@) == Some(tail[0]));
            assert(find_in_nodes(tail, id@) == Some(tail[0]));
        }
        return Some(n);
    }
    proof {
        lemma_size_nodes_index(vs, i as int);
        assert(size_node(vs[i as int]) == 1 + size_nodes(vs[i as int].children));
        assert(nodes_view(n.children@) == vs[i as int].children);
    }
    let inner = find_node_by_id(&n.children, id);
    match inner {
        Some(f) => Some(f),
        None => find_from(nodes, i + 1, id),
    }
}

/// Pre-order depth-first lookup of a node by id; the first match wins.
pub fn find_node_by_id<'a>(nodes: &'a Vec<BookmarkNode>, id: &str) -> (r: Option<
    &'a BookmarkNode,
>)
    ensures
        ({
            let f = find_in_nodes(nodes_view(nodes@), id@);
            match r {
                Some(n) => f == Some(node_view(*n)),
                None => f is None,
            }
        }),
    decreases size_nodes(nodes_view(nodes@)), nodes@.len() + 1,
{
    let r = find_from(nodes, 0, id);
    proof {
        lemma_nodes_view_len(nodes@);
        assert(nodes_view(nodes@).subrange(0, nodes@.len() as int) =~= nodes_view(nodes@));
    }
    r
}

fn clone_opt_string(o: &Option<String>) -> (r: Option<String>)
    ensures
        opt_view(r) == opt_view(*o),
{
    match o {
        Some(s) => Some(s.clone()),
        None => None,
    }
}

fn clone_strings(v: &Vec<String>) -> (r: Vec<String>)
    ensures
        r@ == v@,
{
    let mut out: Vec<String> = Vec::new();
    let mut i: usize = 0;
    while i < v.len()
        invariant
            i <= v@.len(),
            out@ =~= v@.subrange(0, i as int),
        decreases v@.len() - i,
    {
        out.push(v[i].clone());
        i += 1;
    }
    proof {
        assert(v@.subrange(0, v@.len() as int) =~= v@);
    }
    out
}

/// A structurally fresh copy of a whole subtree, with the same view.
pub fn clone_node(n: &BookmarkNode) -> (r: BookmarkNode)
    ensures
        node_view(r) == node_view(*n),
    decreases size_node(node_view(*n)),
{
    let ghost cvs = nodes_view(n.children@);
    let mut children: Vec<BookmarkNode> = Vec::new();
    let mut i: usize = 0;
    while i < n.children.len()
        invariant
            i <= n.children@.len(),
            nodes_view(children@) == cvs.subrange(0, i as int),
            cvs == nodes_view(n.children@),
        decreases n.children@.len() - i,
    {
        proof {
            lemma_nodes_view_len(n.children@);
            lemma_nodes_view_index(n.children@, i as int);
            lemma_size_nodes_index(cvs, i as int);
            assert(size_node(node_view(*n)) == 1 + size_nodes(cvs));
        }
        let c = clone_node(&n.children[i]);
        proof {
            lemma_nodes_view_push(children@, c);
        }
        children.push(c);
        proof {
            assert(nodes_view(children@) =~= cvs.subrange(0, i as int + 1));
        }
        i += 1;
    }
    proof {
        lemma_nodes_view_len(n.children@);
        assert(cvs.subrange(0, n.children@.len() as int) =~= cvs);
    }
    let r = BookmarkNode {
        id: n.id.clone(),
        title: n.title.clone(),
        url: clone_opt_string(&n.url),
        add_date: n.add_date,
        last_modified: n.last_modified,
        icon: clone_opt_string(&n.icon),
        tags: clone_strings(&n.tags),
        is_duplicate: n.is_duplicate,
        children,
    };
    r
}

fn collect_from(nodes: &Vec<BookmarkNode>, i: usize, result: &mut Vec<BookmarkNode>)
    requires
        i <= nodes@.len(),
    ensures
        nodes_view(final(result)@) == nodes_view(old(result)@) + flatten_nodes(
            nodes_view(nodes@).subrange(i as int, nodes@.len() as int),
        ),
    decreases size_nodes(nodes_view(nodes@)), nodes@.len() - i,
{
    let ghost vs = nodes_view(nodes@);
    proof {
        lemma_nodes_view_len(nodes@);
    }
    if i == nodes.len() {
        proof {
            assert(vs.subrange(i as int, nodes@.len() as int) =~= Seq::<NodeView>::empty());
            assert(nodes_view(result@) =~= nodes_view(result@) + flatten_nodes(
                Seq::<NodeView>::empty(),
            ));
        }
        return ;
    }
    let ghost tail = vs.subrange(i as int, nodes@.len() as int);
    proof {
        lemma_nodes_view_index(nodes@, i as int);
        assert(tail[0] == vs[i as int]);
        assert(tail.drop_first() =~= vs.subrange(i as int + 1, nodes@.len() as int));
        lemma_size_nodes_index(vs, i as int);
        assert(size_node(vs[i as int]) == 1 + size_nodes(vs[i as int].children));
    }
    let c = clone_node(&nodes[i]);
    proof {
        lemma_nodes_view_push(result@, c);
    }
    result.push(c);
    let ghost mid1 = nodes_view(result@);
    proof {
        assert(nodes_view(nodes@[i as int].children@) == vs[i as int].children);
    }
    collect_all_nodes(&nodes[i].children, result);
    let ghost mid2 = nodes_view(result@);
    proof {
        assert(mid2 == mid1 + flatten_nodes(vs[i as int].children));
    }
    collect_from(nodes, i + 1, result);
    proof {
        assert(flatten_nodes(tail) == flatten_node(tail[0]) + flatten_nodes(tail.drop_first()));
        assert(flatten_node(vs[i as int]) == seq![vs[i as int]] + flatten_nodes(
            vs[i as int].children,
        ));
        assert(nodes_view(final(result)@) =~= nodes_view(old(result)@) + flatten_nodes(tail));
    }
}

/// Flatten the whole tree, folders included, in pre-order, appending a
/// fresh copy of every node to `result`.
pub fn collect_all_nodes(nodes: &Vec<BookmarkNode>, result: &mut Vec<BookmarkNode>)
    ensures
        nodes_view(final(result)@) == nodes_view(old(result)@) + flatten_nodes(
            nodes_view(nodes@),
        ),
    decreases size_nodes(nodes_view(nodes@)), nodes@.len() + 1,
{
    collect_from(nodes, 0, result);
    proof {
        lemma_nodes_view_len(nodes@);
        assert(nodes_view(nodes@).subrange(0, nodes@.len() as int) =~= nodes_view(nodes@));
    }
}

/// A tag is added only when not already present: set-like, idempotent.
pub open spec fn node_with_tag(n: NodeView, tag: Seq<char>) -> NodeView {
    if n.tags.contains(tag) {
        n
    } else {
        NodeView { tags: n.tags.push(tag), ..n }
    }
}

/// Every occurrence of the exact tag string is removed.
pub open spec fn node_without_tag(n: NodeView, tag: Seq<char>) -> NodeView {
    NodeView { tags: n.tags.filter(|t: Seq<char>| t != tag), ..n }
}

pub open spec fn add_tag_in_nodes(s: Seq<NodeView>, id: Seq<char>, tag: Seq<char>) -> (Seq<
    NodeView,
>, bool)
    decreases s,
{
    if s.len() == 0 {
        (s, false)
    } else {
        let r0 = add_tag_in_node(s[0], id, tag);
        if r0.1 {
            (seq![r0.0] + s.drop_first(), true)
        } else {
            let r = add_tag_in_nodes(s.drop_first(), id, tag);
            (seq![s[0]] + r.0, r.1)
        }
    }
}

pub open spec fn add_tag_in_node(n: NodeView, id: Seq<char>, tag: Seq<char>) -> (NodeView, bool)
    decreases n,
{
    if n.id == id {
        (node_with_tag(n, tag), true)
    } else {
        let r = add_tag_in_nodes(n.children, id, tag);
        (NodeView { children: r.0, ..n }, r.1)
    }
}

pub open spec fn remove_tag_in_nodes(s: Seq<NodeView>, id: Seq<char>, tag: Seq<char>) -> (Seq<
    NodeView,
>, bool)
    decreases s,
{
    if s.len() == 0 {
        (s, false)
    } else {
        let r0 = remove_tag_in_node(s[0], id, tag);
        if r0.1 {
            (seq![r0.0] + s.drop_first(), true)
        } else {
            let r = remove_tag_in_nodes(s.drop_first(), id, tag);
            (seq![s[0]] + r.0, r.1)
        }
    }
}

pub open spec fn remove_tag_in_node(n: NodeView, id: Seq<char>, tag: Seq<char>) -> (NodeView, bool)
    decreases n,
{
    if n.id == id {
        (node_without_tag(n, tag), true)
    } else {
        let r = remove_tag_in_nodes(n.children, id, tag);
        (NodeView { children: r.0, ..n }, r.1)
    }
}

pub proof fn lemma_add_tag_not_found_nodes(s: Seq<NodeView>, id: Seq<char>, tag: Seq<char>)
    ensures
        !add_tag_in_nodes(s, id, tag).1 ==> add_tag_in_nodes(s, id, tag).0 == s,
    decreases s,
{
    if s.len() != 0 {
        lemma_add_tag_not_found_node(s[0], id, tag);
        lemma_add_tag_not_found_nodes(s.drop_first(), id, tag);
        if !add_tag_in_nodes(s, id, tag).1 {
            assert(add_tag_in_nodes(s, id, tag).0 =~= s);
        }
    }
}

pub proof fn lemma_add_tag_not_found_node(n: NodeView, id: Seq<char>, tag: Seq<char>)
    ensures
        !add_tag_in_node(n, id, tag).1 ==> add_tag_in_node(n, id, tag).0 == n,
    decreases n,
{
    if n.id != id {
        lemma_add_tag_not_found_nodes(n.children, id, tag);
    }
}

pub proof fn lemma_remove_tag_not_found_nodes(s: Seq<NodeView>, id: Seq<char>, tag: Seq<char>)
    ensures
        !remove_tag_in_nodes(s, id, tag).1 ==> remove_tag_in_nodes(s, id, tag).0 == s,
    decreases s,
{
    if s.len() != 0 {
        lemma_remove_tag_not_found_node(s[0], id, tag);
        lemma_remove_tag_not_found_nodes(s.drop_first(), id, tag);
        if !remove_tag_in_nodes(s, id, tag).1 {
            assert(remove_tag_in_nodes(s, id, tag).0 =~= s);
        }
    }
}

pub proof fn lemma_remove_tag_not_found_node(n: NodeView, id: Seq<char>, tag: Seq<char>)
    ensures
        !remove_tag_in_node(n, id, tag).1 ==> remove_tag_in_node(n, id, tag).0 == n,
    decreases n,
{
    if n.id != id {
        lemma_remove_tag_not_found_nodes(n.children, id, tag);
    }
}

fn has_tag(tags: &Vec<String>, tag: &str) -> (r: bool)
    ensures
        r == tags_view(tags@).contains(tag@),
{
    let mut i: usize = 0;
    while i < tags.len()
        invariant
            i <= tags@.len(),
            forall|j: int| 0 <= j < i ==> tags_view(tags@)[j] != tag@,
        decreases tags@.len() - i,
    {
        if str_eq(tags[i].as_str(), tag) {
            proof {
                assert(tags_view(tags@)[i as int] == tag@);
            }
            return true;
        }
        i += 1;
    }
    proof {
        assert forall|j: int| 0 <= j < tags_view(tags@).len() implies tags_view(tags@)[j]
            != tag@ by {}
    }
    false
}

/// Add `tag` to the tag set of the first node carrying `id`; a no-op when
/// the id is absent or the tag already present.
pub fn add_tag(nodes: &mut Vec<BookmarkNode>, id: &str, tag: &str)
    ensures
        nodes_view(final(nodes)@) == add_tag_in_nodes(nodes_view(old(nodes)@), id@, tag@).0,
{
    add_tag_walk(nodes, id, tag);
}

fn add_tag_walk(nodes: &mut Vec<BookmarkNode>, id: &str, tag: &str) -> (found: bool)
    ensures
        ({
            let r = add_tag_in_nodes(nodes_view(old(nodes)@), id@, tag@);
            nodes_view(final(nodes)@) == r.0 && found == r.1
        }),
    decreases size_nodes(nodes_view(old(nodes)@)),
{
    let ghost vs = nodes_view(old(nodes)@);
    if nodes.len() == 0 {
        return false;
    }
    proof {
        lemma_nodes_view_index(old(nodes)@, 0);
        lemma_nodes_view_drop(old(nodes)@);
        assert(vs == seq![vs[0]] + vs.drop_first());
    }
    let mut first = nodes.remove(0);
    proof {
        assert(nodes@ =~= old(nodes)@.drop_first());
    }
    if str_eq(first.id.as_str(), id) {
        if !has_tag(&first.tags, tag) {
            first.tags.push(tag.to_owned());
            proof {
                assert(tags_view(first.tags@) =~= node_with_tag(vs[0], tag@).tags);
            }
        }
        proof {
            assert(node_view(first) == add_tag_in_node(vs[0], id@, tag@).0);
        }
        nodes.insert(0, first);
        proof {
            lemma_nodes_view_insert_front(old(nodes)@.drop_first(), first);
            assert(nodes_view(nodes@) =~= add_tag_in_nodes(vs, id@, tag@).0);
        }
        return true;
    }
    proof {
        assert(size_nodes(vs) == size_node(vs[0]) + size_nodes(vs.drop_first()));
        assert(size_node(vs[0]) == 1 + size_nodes(vs[0].children));
        assert(nodes_view(first.children@) == vs[0].children);
    }
    let found = add_tag_walk(&mut first.children, id, tag);
    if found {
        proof {
            assert(node_view(first) == add_tag_in_node(vs[0], id@, tag@).0);
        }
        nodes.insert(0, first);
        proof {
            lemma_nodes_view_insert_front(old(nodes)@.drop_first(), first);
            assert(nodes_view(nodes@) =~= add_tag_in_nodes(vs, id@, tag@).0);
        }
        true
    } else {
        proof {
            lemma_add_tag_not_found_nodes(vs[0].children, id@, tag@);
            assert(node_view(first) == vs[0]);
        }
        let found2 = add_tag_walk(nodes, id, tag);
        let ghost mid = nodes@;
        nodes.insert(0, first);
        proof {
            lemma_nodes_view_insert_front(mid, first);
            assert(nodes_view(nodes@) =~= add_tag_in_nodes(vs, id@, tag@).0);
        }
        found2
    }
}

fn retain_tags(tags: Vec<String>, tag: &str) -> (r: Vec<String>)
    ensures
        tags_view(r@) == tags_view(tags@).filter(|t: Seq<char>| t != tag@),
{
    let mut out: Vec<String> = Vec::new();
    let mut rest = tags;
    proof {
        reveal_with_fuel(Seq::<Seq<char>>::filter, 1);
        assert(tags_view(rest@).take(0) =~= Seq::<Seq<char>>::empty());
        assert(tags_view(out@) =~= tags_view(rest@).take(0).filter(|t: Seq<char>| t != tag@));
    }
    let n = rest.len();
    let mut i: usize = 0;
    while i < n
        invariant
            n == rest@.len(),
            i <= n,
            tags_view(out@) == tags_view(rest@).take(i as int).filter(
                |t: Seq<char>| t != tag@,
            ),
        decreases n - i,
    {
        let keep = !str_eq(rest[i].as_str(), tag);
        proof {
            reveal_with_fuel(Seq::<Seq<char>>::filter, 1);
            let pre = tags_view(rest@).take(i as int);
            let cur = tags_view(rest@).take(i as int + 1);
            assert(cur.drop_last() =~= pre);
            assert(cur.last() == tags_view(rest@)[i as int]);
        }
        if keep {
            let t = rest[i].clone();
            out.push(t);
            proof {
                assert(tags_view(out@) =~= tags_view(rest@).take(i as int + 1).filter(
                    |t: Seq<char>| t != tag@,
                ));
            }
        } else {
            proof {
                assert(tags_view(out@) =~= tags_view(rest@).take(i as int + 1).filter(
                    |t: Seq<char>| t != tag@,
                ));
            }
        }
        i += 1;
    }
    proof {
        assert(tags_view(rest@).take(n as int) =~= tags_view(rest@));
    }
    out
}

/// Remove all occurrences of `tag` from the first node carrying `id`; a
/// no-op when the id is absent.
pub fn remove_tag(nodes: &mut Vec<BookmarkNode>, id: &str, tag: &str)
    ensures
        nodes_view(final(nodes)@) == remove_tag_in_nodes(nodes_view(old(nodes)@), id@, tag@).0,
{
    remove_tag_walk(nodes, id, tag);
}

fn remove_tag_walk(nodes: &mut Vec<BookmarkNode>, id: &str, tag: &str) -> (found: bool)
    ensures
        ({
            let r = remove_tag_in_nodes(nodes_view(old(nodes)@), id@, tag@);
            nodes_view(final(nodes)@) == r.0 && found == r.1
        }),
    decreases size_nodes(nodes_view(old(nodes)@)),
{
    let ghost vs = nodes_view(old(nodes)@);
    if nodes.len() == 0 {
        return false;
    }
    proof {
        lemma_nodes_view_index(old(nodes)@, 0);
        lemma_nodes_view_drop(old(nodes)@);
        assert(vs == seq![vs[0]] + vs.drop_first());
    }
    let mut first = nodes.remove(0);
    proof {
        assert(nodes@ =~= old(nodes)@.drop_first());
    }
    if str_eq(first.id.as_str(), id) {
        let kept = retain_tags(first.tags, tag);
        first = BookmarkNode { tags: kept, ..first };
        proof {
            assert(node_view(first) == remove_tag_in_node(vs[0], id@, tag@).0);
        }
        nodes.insert(0, first);
        proof {
            lemma_nodes_view_insert_front(old(nodes)@.drop_first(), first);
            assert(nodes_view(nodes@) =~= remove_tag_in_nodes(vs, id@, tag@).0);
        }
        return true;
    }
    proof {
        assert(size_nodes(vs) == size_node(vs[0]) + size_nodes(vs.drop_first()));
        assert(size_node(vs[0]) == 1 + size_nodes(vs[0].children));
        assert(nodes_view(first.children@) == vs[0].children);
    }
    let found = remove_tag_walk(&mut first.children, id, tag);
    if found {
        proof {
            assert(node_view(first) == remove_tag_in_node(vs[0], id@, tag@).0);
        }
        nodes.insert(0, first);
        proof {
            lemma_nodes_view_insert_front(old(nodes)@.drop_first(), first);
            assert(nodes_view(nodes@) =~= remove_tag_in_nodes(vs, id@, tag@).0);
        }
        true
    } else {
        proof {
            lemma_remove_tag_not_found_nodes(vs[0].children, id@, tag@);
            assert(node_view(first) == vs[0]);
        }
        let found2 = remove_tag_walk(nodes, id, tag);
        let ghost mid = nodes@;
        nodes.insert(0, first);
        proof {
            lemma_nodes_view_insert_front(mid, first);
            assert(nodes_view(nodes@) =~= remove_tag_in_nodes(vs, id@, tag@).0);
        }
        found2
    }
}

/// A partial update: only the fields present are applied. A present-but-null
/// url or icon clears the field (turning a bookmark into a folder).
pub struct NodeUpdate {
    pub title: Option<String>,
    pub url: Option<Option<String>>,
    pub tags: Option<Vec<String>>,
    pub icon: Option<Option<String>>,
    pub is_duplicate: Option<bool>,
}

pub ghost struct UpdateView {
    pub title: Option<Seq<char>>,
    pub url: Option<Option<Seq<char>>>,
    pub tags: Option<Seq<Seq<char>>>,
    pub icon: Option<Option<Seq<char>>>,
    pub is_duplicate: Option<bool>,
}

pub open spec fn update_view(u: NodeUpdate) -> UpdateView {
    UpdateView {
        title: match u.title {
            Some(t) => Some(t@),
            None => None,
        },
        url: match u.url {
            Some(x) => Some(opt_view(x)),
            None => None,
        },
        tags: match u.tags {
            Some(t) => Some(tags_view(t@)),
            None => None,
        },
        icon: match u.icon {
            Some(x) => Some(opt_view(x)),
            None => None,
        },
        is_duplicate: u.is_duplicate,
    }
}

impl View for NodeUpdate {
    type V = UpdateView;

    open spec fn view(&self) -> UpdateView {
        update_view(*self)
    }
}

/// The fields present in the update replace the node's; `last_modified` is
/// always stamped with the given time; id, dates and children stay.
pub open spec fn spec_apply_update(n: NodeView, u: UpdateView, now_ms: u64) -> NodeView {
    NodeView {
        title: match u.title {
            Some(t) => t,
            None => n.title,
        },
        url: match u.url {
            Some(x) => x,
            None => n.url,
        },
        tags: match u.tags {
            Some(t) => t,
            None => n.tags,
        },
        icon: match u.icon {
            Some(x) => x,
            None => n.icon,
        },
        is_duplicate: match u.is_duplicate {
            Some(b) => b,
            None => n.is_duplicate,
        },
        last_modified: now_ms,
        ..n
    }
}

pub open spec fn update_in_nodes(s: Seq<NodeView>, id: Seq<char>, u: UpdateView, now_ms: u64) -> (
    Seq<NodeView>,
    bool,
)
    decreases s,
{
    if s.len() == 0 {
        (s, false)
    } else {
        let r0 = update_in_node(s[0], id, u, now_ms);
        if r0.1 {
            (seq![r0.0] + s.drop_first(), true)
        } else {
            let r = update_in_nodes(s.drop_first(), id, u, now_ms);
            (seq![s[0]] + r.0, r.1)
        }
    }
}

pub open spec fn update_in_node(n: NodeView, id: Seq<char>, u: UpdateView, now_ms: u64) -> (
    NodeView,
    bool,
)
    decreases n,
{
    if n.id == id {
        (spec_apply_update(n, u, now_ms), true)
    } else {
        let r = update_in_nodes(n.children, id, u, now_ms);
        (NodeView { children: r.0, ..n }, r.1)
    }
}

pub proof fn lemma_update_not_found_nodes(s: Seq<NodeView>, id: Seq<char>, u: UpdateView, now_ms: u64)
    ensures
        !update_in_nodes(s, id, u, now_ms).1 ==> update_in_nodes(s, id, u, now_ms).0 == s,
    decreases s,
{
    if s.len() != 0 {
        lemma_update_not_found_node(s[0], id, u, now_ms);
        lemma_update_not_found_nodes(s.drop_first(), id, u, now_ms);
        if !update_in_nodes(s, id, u, now_ms).1 {
            assert(update_in_nodes(s, id, u, now_ms).0 =~= s);
        }
    }
}

pub proof fn lemma_update_not_found_node(n: NodeView, id: Seq<char>, u: UpdateView, now_ms: u64)
    ensures
        !update_in_node(n, id, u, now_ms).1 ==> update_in_node(n, id, u, now_ms).0 == n,
    decreases n,
{
    if n.id != id {
        lemma_update_not_found_nodes(n.children, id, u, now_ms);
    }
}

/// Apply a partial update to the first node carrying `id`; a no-op when the
/// id is absent. A found node always gets `last_modified` stamped, even
/// when no field changed.
pub fn update_node(nodes: &mut Vec<BookmarkNode>, id: &str, updates: &NodeUpdate, now_ms: u64)
    ensures
        nodes_view(final(nodes)@) == update_in_nodes(
            nodes_view(old(nodes)@),
            id@,
            updates@,
            now_ms,
        ).0,
{
    update_walk(nodes, id, updates, now_ms);
}

fn apply_update_exec(n: BookmarkNode, updates: &NodeUpdate, now_ms: u64) -> (r: BookmarkNode)
    ensures
        node_view(r) == spec_apply_update(node_view(n), updates@, now_ms),
{
    let mut first = n;
    match &updates.title {
        Some(t) => {
            first.title = t.clone();
        },
        None => {
        },
    }
    match &updates.url {
        Some(x) => {
            first.url = clone_opt_string(x);
        },
        None => {
        },
    }
    match &updates.tags {
        Some(t) => {
            first.tags = clone_strings(t);
        },
        None => {
        },
    }
    match &updates.icon {
        Some(x) => {
            first.icon = clone_opt_string(x);
        },
        None => {
        },
    }
    match &updates.is_duplicate {
        Some(b) => {
            first.is_duplicate = *b;
        },
        None => {
        },
    }
    first.last_modified = now_ms;
    first
}

fn update_walk(nodes: &mut Vec<BookmarkNode>, id: &str, updates: &NodeUpdate, now_ms: u64) -> (found:
    bool)
    ensures
        ({
            let r = update_in_nodes(nodes_view(old(nodes)@), id@, updates@, now_ms);
            nodes_view(final(nodes)@) == r.0 && found == r.1
        }),
    decreases size_nodes(nodes_view(old(nodes)@)),
{
    let ghost vs = nodes_view(old(nodes)@);
    if nodes.len() == 0 {
        return false;
    }
    proof {
        lemma_nodes_view_index(old(nodes)@, 0);
        lemma_nodes_view_drop(old(nodes)@);
        assert(vs == seq![vs[0]] + vs.drop_first());
    }
    let mut first = nodes.remove(0);
    proof {
        assert(nodes@ =~= old(nodes)@.drop_first());
    }
    if str_eq(first.id.as_str(), id) {
        let updated = apply_update_exec(first, updates, now_ms);
        proof {
            assert(node_view(updated) == update_in_node(vs[0], id@, updates@, now_ms).0);
        }
        nodes.insert(0, updated);
        proof {
            lemma_nodes_view_insert_front(old(nodes)@.drop_first(), updated);
            assert(nodes_view(nodes@) =~= update_in_nodes(vs, id@, updates@, now_ms).0);
        }
        return true;
    }
    proof {
        assert(size_nodes(vs) == size_node(vs[0]) + size_nodes(vs.drop_first()));
        assert(size_node(vs[0]) == 1 + size_nodes(vs[0].children));
        assert(nodes_view(first.children@) == vs[0].children);
    }
    let found = update_walk(&mut first.children, id, updates, now_ms);
    if found {
        proof {
            assert(node_view(first) == update_in_node(vs[0], id@, updates@, now_ms).0);
        }
        nodes.insert(0, first);
        proof {
            lemma_nodes_view_insert_front(old(nodes)@.drop_first(), first);
            assert(nodes_view(nodes@) =~= update_in_nodes(vs, id@, updates@, now_ms).0);
        }
        true
    } else {
        proof {
            lemma_update_not_found_nodes(vs[0].children, id@, updates@, now_ms);
            assert(node_view(first) == vs[0]);
        }
        let found2 = update_walk(nodes, id, updates, now_ms);
        let ghost mid = nodes@;
        nodes.insert(0, first);
        proof {
            lemma_nodes_view_insert_front(mid, first);
            assert(nodes_view(nodes@) =~= update_in_nodes(vs, id@, updates@, now_ms).0);
        }
        found2
    }
}

} // verus!
