use vstd::prelude::*;

verus! {

use crate::node::BookmarkNode;
use crate::node::DuplicateGroup;
use crate::node::GroupView;
use crate::node::NodeView;
use crate::node::group_view;
use crate::node::node_view;
use crate::node::nodes_view;
use crate::node::tags_view;
use crate::node::size_node;
use crate::node::size_nodes;
use crate::node::flatten_nodes;
use crate::node::lemma_size_nodes_index;
use crate::node::lemma_nodes_view_index;
use crate::node::lemma_nodes_view_len;
use crate::node::lemma_nodes_view_push;
use crate::node::lemma_nodes_view_insert_front;
use crate::node::lemma_nodes_view_append;
use crate::ops::collect_all_nodes;
use crate::ops::clone_node;
use crate::ops::lemma_nodes_view_drop;
use crate::strutil::str_eq;

/// All url values in a forest, in pre-order.
pub open spec fn urls_in_nodes(s: Seq<NodeView>) -> Seq<Seq<char>>
    decreases s,
{
    if s.len() == 0 {
        Seq::empty()
    } else {
        urls_in_node(s[0]) + urls_in_nodes(s.drop_first())
    }
}

pub open spec fn urls_in_node(n: NodeView) -> Seq<Seq<char>>
    decreases n,
{
    (match n.url {
        Some(u) => seq![u],
        None => Seq::<Seq<char>>::empty(),
    }) + urls_in_nodes(n.children)
}

/// How often a url occurs in a run of urls.
pub open spec fn count_url(urls: Seq<Seq<char>>, u: Seq<char>) -> nat
    decreases urls,
{
    if urls.len() == 0 {
        0
    } else {
        (if urls[0] == u {
            1nat
        } else {
            0nat
        }) + count_url(urls.drop_first(), u)
    }
}

pub proof fn lemma_count_url_append(a: Seq<Seq<char>>, b: Seq<Seq<char>>, u: Seq<char>)
    ensures
        count_url(a + b, u) == count_url(a, u) + count_url(b, u),
    decreases a,
{
    if a.len() == 0 {
        assert(a + b =~= b);
    } else {
        lemma_count_url_append(a.drop_first(), b, u);
        assert((a + b)[0] == a[0]);
        assert((a + b).drop_first() =~= a.drop_first() + b);
    }
}

/// The duplicate flag a node with this url gets, given the tree's urls.
pub open spec fn dup_flag(url: Option<Seq<char>>, urls: Seq<Seq<char>>) -> bool {
    match url {
        Some(u) => count_url(urls, u) >= 2,
        None => false,
    }
}

/// Every node's flag rewritten from the given url population; nothing else
/// changes. Flags of nodes no longer duplicated are cleared.
pub open spec fn mark_nodes(s: Seq<NodeView>, urls: Seq<Seq<char>>) -> Seq<NodeView>
    decreases s,
{
    if s.len() == 0 {
        s
    } else {
        seq![mark_node(s[0], urls)] + mark_nodes(s.drop_first(), urls)
    }
}

pub open spec fn mark_node(n: NodeView, urls: Seq<Seq<char>>) -> NodeView
    decreases n,
{
    NodeView {
        is_duplicate: dup_flag(n.url, urls),
        children: mark_nodes(n.children, urls),
        ..n
    }
}

/// Recompute every duplicate flag from the tree's current url population.
pub open spec fn spec_mark_duplicates(s: Seq<NodeView>) -> Seq<NodeView> {
    mark_nodes(s, urls_in_nodes(s))
}

/// What merging yields: the target's top level appended to the base's, and
/// every duplicate flag recomputed over the combined tree.
pub open spec fn spec_merge(base: Seq<NodeView>, target: Seq<NodeView>) -> Seq<NodeView> {
    spec_mark_duplicates(base + target)
}

fn urls_from(nodes: &Vec<BookmarkNode>, i: usize, out: &mut Vec<String>)
    requires
        i <= nodes@.len(),
    ensures
        tags_view(final(out)@) == tags_view(old(out)@) + urls_in_nodes(
            nodes_view(nodes@).subrange(i as int, nodes@.len() as int),
        ),
    decreases size_nodes(nodes_view(nodes@)), nodes@.len() - i,
{
    let ghost vs = nodes_view(nodes@);
    proof {
        lemma_nodes_view_len(nodes@);
    }
    if i == nodes.len() {
        proof {
            assert(vs.subrange(i as int, nodes@.len() as int) =~= Seq::<NodeView>::empty());
            assert(tags_view(out@) =~= tags_view(out@) + urls_in_nodes(Seq::<NodeView>::empty()));
        }
        return ;
    }
    let ghost tail = vs.subrange(i as int, nodes@.len() as int);
    proof {
        lemma_nodes_view_index(nodes@, i as int);
        assert(tail[0] == vs[i as int]);
        assert(tail.drop_first() =~= vs.subrange(i as int + 1, nodes@.len() as int));
        lemma_size_nodes_index(vs, i as int);
        assert(size_node(vs[i as int]) == 1 + size_nodes(vs[i as int].children));
        assert(nodes_view(nodes@[i as int].children@) == vs[i as int].children);
    }
    match &nodes[i].url {
        Some(u) => {
            out.push(u.clone());
            proof {
                assert(tags_view(out@) =~= tags_view(old(out)@) + (match vs[i as int].url {
                    Some(w) => seq![w],
                    None => Seq::<Seq<char>>::empty(),
                }));
            }
        },
        None => {
            proof {
                assert(tags_view(out@) =~= tags_view(old(out)@) + (match vs[i as int].url {
                    Some(w) => seq![w],
                    None => Seq::<Seq<char>>::empty(),
                }));
            }
        },
    }
    collect_urls(&nodes[i].children, out);
    urls_from(nodes, i + 1, out);
    proof {
        assert(urls_in_nodes(tail) == urls_in_node(tail[0]) + urls_in_nodes(tail.drop_first()));
        assert(tags_view(final(out)@) =~= tags_view(old(out)@) + urls_in_nodes(tail));
    }
}

/// Append every url in the tree, in pre-order, to `out`.
pub fn collect_urls(nodes: &Vec<BookmarkNode>, out: &mut Vec<String>)
    ensures
        tags_view(final(out)@) == tags_view(old(out)@) + urls_in_nodes(nodes_view(nodes@)),
    decreases size_nodes(nodes_view(nodes@)), nodes@.len() + 1,
{
    urls_from(nodes, 0, out);
    proof {
        lemma_nodes_view_len(nodes@);
        assert(nodes_view(nodes@).subrange(0, nodes@.len() as int) =~= nodes_view(nodes@));
    }
}

/// How often `u` occurs among the collected urls.
fn count_in(urls: &Vec<String>, u: &str) -> (r: usize)
    ensures
        r == count_url(tags_view(urls@), u@),
{
    let ghost sv = tags_view(urls@);
    let mut acc: usize = 0;
    let mut i: usize = 0;
    proof {
        assert(sv.take(0) =~= Seq::<Seq<char>>::empty());
    }
    while i < urls.len()
        invariant
            i <= urls@.len(),
            sv == tags_view(urls@),
            acc <= i,
            acc == count_url(sv.take(i as int), u@),
        decreases urls@.len() - i,
    {
        proof {
            let pre = sv.take(i as int);
            let one = seq![sv[i as int]];
            assert(sv.take(i as int + 1) =~= pre + one);
            lemma_count_url_append(pre, one, u@);
            assert(one.drop_first() =~= Seq::<Seq<char>>::empty());
            assert(count_url(one.drop_first(), u@) == 0);
            assert(count_url(one, u@) == (if sv[i as int] == u@ {
                1nat
            } else {
                0nat
            }));
            assert(sv[i as int] == urls@[i as int]@);
        }
        if str_eq(urls[i].as_str(), u) {
            acc = acc + 1;
        }
        i += 1;
    }
    proof {
        assert(sv.take(urls@.len() as int) =~= sv);
    }
    acc
}

fn mark_walk(nodes: &mut Vec<BookmarkNode>, urls: &Vec<String>)
    ensures
        nodes_view(final(nodes)@) == mark_nodes(nodes_view(old(nodes)@), tags_view(urls@)),
    decreases size_nodes(nodes_view(old(nodes)@)),
{
    let ghost vs = nodes_view(old(nodes)@);
    let ghost uv = tags_view(urls@);
    if nodes.len() == 0 {
        return ;
    }
    proof {
        lemma_nodes_view_index(old(nodes)@, 0);
        lemma_nodes_view_drop(old(nodes)@);
        assert(vs == seq![vs[0]] + vs.drop_first());
        assert(size_nodes(vs) == size_node(vs[0]) + size_nodes(vs.drop_first()));
        assert(size_node(vs[0]) == 1 + size_nodes(vs[0].children));
    }
    let mut first = nodes.remove(0);
    proof {
        assert(nodes@ =~= old(nodes)@.drop_first());
        assert(nodes_view(first.children@) == vs[0].children);
    }
    let flag = match &first.url {
        Some(u) => count_in(urls, u.as_str()) >= 2,
        None => false,
    };
    first.is_duplicate = flag;
    mark_walk(&mut first.children, urls);
    proof {
        assert(node_view(first) == mark_node(vs[0], uv));
    }
    mark_walk(nodes, urls);
    let ghost mid = nodes@;
    nodes.insert(0, first);
    proof {
        lemma_nodes_view_insert_front(mid, first);
        assert(nodes_view(nodes@) =~= mark_nodes(vs, uv));
    }
}

/// Recompute the `is_duplicate` flag of every node in the tree from the
/// tree's current url population: set where a url occurs at least twice,
/// cleared everywhere else.
pub fn mark_duplicates_in_tree(nodes: &mut Vec<BookmarkNode>)
    ensures
        nodes_view(final(nodes)@) == spec_mark_duplicates(nodes_view(old(nodes)@)),
{
    let mut urls: Vec<String> = Vec::new();
    collect_urls(nodes, &mut urls);
    proof {
        assert(tags_view(urls@) =~= urls_in_nodes(nodes_view(nodes@)));
    }
    mark_walk(nodes, &urls);
}

/// Merge two trees: append the target's top-level nodes to the base's and
/// recompute every duplicate flag over the combined tree.
pub fn merge_trees(base: &mut Vec<BookmarkNode>, target: Vec<BookmarkNode>)
    ensures
        nodes_view(final(base)@) == spec_merge(nodes_view(old(base)@), nodes_view(target@)),
{
    let mut t = target;
    proof {
        lemma_nodes_view_append(base@, t@);
    }
    base.append(&mut t);
    mark_duplicates_in_tree(base);
}

/// The flattened nodes carrying exactly this url, in flatten order.
pub open spec fn nodes_with_url(flat: Seq<NodeView>, u: Seq<char>) -> Seq<NodeView>
    decreases flat,
{
    if flat.len() == 0 {
        Seq::empty()
    } else {
        (if flat[0].url == Some(u) {
            seq![flat[0]]
        } else {
            Seq::<NodeView>::empty()
        }) + nodes_with_url(flat.drop_first(), u)
    }
}

pub proof fn lemma_nodes_with_url_append(a: Seq<NodeView>, b: Seq<NodeView>, u: Seq<char>)
    ensures
        nodes_with_url(a + b, u) == nodes_with_url(a, u) + nodes_with_url(b, u),
    decreases a,
{
    if a.len() == 0 {
        assert(a + b =~= b);
        assert(nodes_with_url(a, u) + nodes_with_url(b, u) =~= nodes_with_url(b, u));
    } else {
        lemma_nodes_with_url_append(a.drop_first(), b, u);
        assert((a + b)[0] == a[0]);
        assert((a + b).drop_first() =~= a.drop_first() + b);
        assert(nodes_with_url(a + b, u) =~= nodes_with_url(a, u) + nodes_with_url(b, u));
    }
}

/// The duplicate groups, one per url that occurs on at least two flattened
/// nodes, ordered by the url's first occurrence from position `k` on.
pub open spec fn spec_groups_from(flat: Seq<NodeView>, k: int) -> Seq<GroupView>
    decreases flat.len() - k,
    when 0 <= k <= flat.len()
{
    if k >= flat.len() {
        Seq::empty()
    } else {
        let rest = spec_groups_from(flat, k + 1);
        match flat[k].url {
            Some(u) => {
                if (forall|j: int| 0 <= j < k ==> (#[trigger] flat[j]).url != Some(u))
                    && nodes_with_url(flat, u).len() >= 2 {
                    seq![GroupView { url: u, nodes: nodes_with_url(flat, u) }] + rest
                } else {
                    rest
                }
            },
            None => rest,
        }
    }
}

/// The duplicate report: groups of nodes sharing a url, urls with fewer
/// than two carriers left out.
pub open spec fn spec_find_duplicates(s: Seq<NodeView>) -> Seq<GroupView> {
    spec_groups_from(flatten_nodes(s), 0)
}

pub open spec fn groups_view(s: Seq<DuplicateGroup>) -> Seq<GroupView> {
    Seq::new(s.len(), |i: int| group_view(s[i]))
}

fn url_matches(n: &BookmarkNode, u: &str) -> (r: bool)
    ensures
        r == (node_view(*n).url == Some(u@)),
{
    match &n.url {
        Some(s) => str_eq(s.as_str(), u),
        None => false,
    }
}

fn members_of(flat: &Vec<BookmarkNode>, u: &str) -> (r: Vec<BookmarkNode>)
    ensures
        nodes_view(r@) == nodes_with_url(nodes_view(flat@), u@),
{
    let ghost fv = nodes_view(flat@);
    proof {
        lemma_nodes_view_len(flat@);
        assert(fv.take(0) =~= Seq::<NodeView>::empty());
    }
    let mut out: Vec<BookmarkNode> = Vec::new();
    let mut j: usize = 0;
    while j < flat.len()
        invariant
            j <= flat@.len(),
            fv == nodes_view(flat@),
            fv.len() == flat@.len(),
            nodes_view(out@) == nodes_with_url(fv.take(j as int), u@),
        decreases flat@.len() - j,
    {
        proof {
            lemma_nodes_view_index(flat@, j as int);
            let pre = fv.take(j as int);
            let one = seq![fv[j as int]];
            assert(fv.take(j as int + 1) =~= pre + one);
            lemma_nodes_with_url_append(pre, one, u@);
            assert(one.drop_first() =~= Seq::<NodeView>::empty());
            assert(nodes_with_url(one.drop_first(), u@) == Seq::<NodeView>::empty());
        }
        if url_matches(&flat[j], u) {
            let c = clone_node(&flat[j]);
            proof {
                lemma_nodes_view_push(out@, c);
                assert(nodes_with_url(seq![fv[j as int]], u@) =~= seq![fv[j as int]]);
                assert(nodes_view(out@.push(c)) =~= nodes_with_url(fv.take(j as int + 1), u@));
            }
            out.push(c);
        } else {
            proof {
                assert(nodes_with_url(seq![fv[j as int]], u@) =~= Seq::<NodeView>::empty());
                assert(nodes_view(out@) =~= nodes_with_url(fv.take(j as int + 1), u@));
            }
        }
        j += 1;
    }
    proof {
        assert(fv.take(flat@.len() as int) =~= fv);
    }
    out
}

/// Group all bookmarks by exact url equality and report every url carried
/// by at least two nodes, with copies of those nodes in flatten order.
pub fn find_duplicates(nodes: &Vec<BookmarkNode>) -> (r: Vec<DuplicateGroup>)
    ensures
        groups_view(r@) == spec_find_duplicates(nodes_view(nodes@)),
{
    let mut flat: Vec<BookmarkNode> = Vec::new();
    collect_all_nodes(nodes, &mut flat);
    proof {
        assert(nodes_view(flat@) =~= flatten_nodes(nodes_view(nodes@)));
    }
    let ghost fv = nodes_view(flat@);
    let mut out: Vec<DuplicateGroup> = Vec::new();
    let mut k: usize = 0;
    proof {
        lemma_nodes_view_len(flat@);
        assert(groups_view(out@) =~= Seq::<GroupView>::empty());
        assert(groups_view(out@) + spec_groups_from(fv, 0) =~= spec_groups_from(fv, 0));
    }
    while k < flat.len()
        invariant
            k <= flat@.len(),
            fv == nodes_view(flat@),
            fv.len() == flat@.len(),
            groups_view(out@) + spec_groups_from(fv, k as int) == spec_groups_from(fv, 0),
        decreases flat@.len() - k,
    {
        proof {
            lemma_nodes_view_index(flat@, k as int);
        }
        let cur_url = &flat[k].url;
        match cur_url {
            None => {
                proof {
                    assert(fv[k as int].url is None);
                    assert(spec_groups_from(fv, k as int) == spec_groups_from(fv, k as int + 1));
                }
            },
            Some(u) => {
                let mut seen = false;
                let mut j: usize = 0;
                while j < k
                    invariant
                        j <= k,
                        k < flat@.len(),
                        fv == nodes_view(flat@),
                        fv.len() == flat@.len(),
                        fv[k as int].url == Some(u@),
                        seen == (exists|l: int|
                            0 <= l < j && (#[trigger] fv[l]).url == Some(u@)),
                    decreases k - j,
                {
                    proof {
                        lemma_nodes_view_index(flat@, j as int);
                    }
                    if url_matches(&flat[j], u.as_str()) {
                        seen = true;
                    }
                    j += 1;
                }
                if !seen {
                    let members = members_of(&flat, u.as_str());
                    proof {
                        lemma_nodes_view_len(members@);
                    }
                    if members.len() >= 2 {
                        let g = DuplicateGroup { url: u.clone(), nodes: members };
                        proof {
                            assert(group_view(g) == (GroupView {
                                url: u@,
                                nodes: nodes_with_url(fv, u@),
                            }));
                            assert(groups_view(out@.push(g)) =~= groups_view(out@).push(
                                group_view(g),
                            ));
                            assert(spec_groups_from(fv, k as int) == seq![group_view(g)]
                                + spec_groups_from(fv, k as int + 1));
                            assert(groups_view(out@.push(g)) + spec_groups_from(
                                fv,
                                k as int + 1,
                            ) =~= groups_view(out@) + spec_groups_from(fv, k as int));
                        }
                        out.push(g);
                    } else {
                        proof {
                            assert(spec_groups_from(fv, k as int) == spec_groups_from(
                                fv,
                                k as int + 1,
                            ));
                        }
                    }
                } else {
                    proof {
                        assert(!(forall|j2: int|
                            0 <= j2 < k ==> (#[trigger] fv[j2]).url != Some(u@)));
                        assert(spec_groups_from(fv, k as int) == spec_groups_from(
                            fv,
                            k as int + 1,
                        ));
                    }
                }
            },
        }
        k += 1;
    }
    proof {
        assert(spec_groups_from(fv, flat@.len() as int) =~= Seq::<GroupView>::empty());
        assert(groups_view(out@) =~= spec_groups_from(fv, 0));
    }
    out
}

} // verus!
