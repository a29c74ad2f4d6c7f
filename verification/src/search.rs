use vstd::prelude::*;

verus! {

use crate::node::BookmarkNode;
use crate::node::NodeView;
use crate::node::node_view;
use crate::node::nodes_view;
use crate::node::tags_view;
use crate::node::size_node;
use crate::node::size_nodes;
use crate::node::lemma_size_nodes_index;
use crate::node::lemma_nodes_view_index;
use crate::node::lemma_nodes_view_len;
use crate::strutil::lower;
use crate::strutil::lower_of;
use crate::strutil::contains_str;
use crate::strutil::spec_contains;
use vstd::string::StrSliceExecFns;

/// A query whose lowercase form starts with `tag:` searches tags only.
pub open spec fn is_tag_query(lq: Seq<char>) -> bool {
    lq.len() >= 4 && lq.subrange(0, 4) == seq!['t', 'a', 'g', ':']
}

/// Whether a node matches the lowered query: under a `tag:` prefix, some
/// tag's lowercase form contains the remainder; otherwise the lowercase
/// title, url or some tag contains the whole lowered query.
pub open spec fn node_matches(n: NodeView, lq: Seq<char>) -> bool {
    if is_tag_query(lq) {
        exists|i: int|
            0 <= i < n.tags.len() && spec_contains(
                lower_of(#[trigger] n.tags[i]),
                lq.subrange(4, lq.len() as int),
            )
    } else {
        spec_contains(lower_of(n.title), lq) || (match n.url {
            Some(u) => spec_contains(lower_of(u), lq),
            None => false,
        }) || exists|i: int|
            0 <= i < n.tags.len() && spec_contains(lower_of(#[trigger] n.tags[i]), lq)
    }
}

pub open spec fn search_in_nodes(s: Seq<NodeView>, lq: Seq<char>) -> Seq<Seq<char>>
    decreases s,
{
    if s.len() == 0 {
        Seq::empty()
    } else {
        search_in_node(s[0], lq) + search_in_nodes(s.drop_first(), lq)
    }
}

pub open spec fn search_in_node(n: NodeView, lq: Seq<char>) -> Seq<Seq<char>>
    decreases n,
{
    (if node_matches(n, lq) {
        seq![n.id]
    } else {
        Seq::<Seq<char>>::empty()
    }) + search_in_nodes(n.children, lq)
}

/// The ids of all matching nodes, in pre-order, the query lowered first.
pub open spec fn spec_search(s: Seq<NodeView>, query: Seq<char>) -> Seq<Seq<char>> {
    search_in_nodes(s, lower_of(query))
}

fn tags_any_contains(tags: &Vec<String>, needle: &str) -> (r: bool)
    ensures
        r == (exists|i: int|
            0 <= i < tags_view(tags@).len() && spec_contains(
                lower_of(#[trigger] tags_view(tags@)[i]),
                needle@,
            )),
{
    let mut i: usize = 0;
    while i < tags.len()
        invariant
            i <= tags@.len(),
            forall|j: int|
                0 <= j < i ==> !spec_contains(lower_of(#[trigger] tags_view(tags@)[j]), needle@),
        decreases tags@.len() - i,
    {
        let tl = lower(tags[i].as_str());
        if contains_str(tl.as_str(), needle) {
            proof {
                assert(spec_contains(lower_of(tags_view(tags@)[i as int]), needle@));
            }
            return true;
        }
        i += 1;
    }
    false
}

fn node_matches_exec(n: &BookmarkNode, lq: &str, is_tag: bool, needle: &str) -> (r: bool)
    requires
        is_tag == is_tag_query(lq@),
        is_tag ==> needle@ == lq@.subrange(4, lq@.len() as int),
    ensures
        r == node_matches(node_view(*n), lq@),
{
    proof {
        assert(node_view(*n).tags == tags_view(n.tags@));
        assert(node_view(*n).title == n.title@);
    }
    if is_tag {
        tags_any_contains(&n.tags, needle)
    } else {
        let tl = lower(n.title.as_str());
        if contains_str(tl.as_str(), lq) {
            return true;
        }
        let url_hit = match &n.url {
            Some(u) => {
                let ul = lower(u.as_str());
                contains_str(ul.as_str(), lq)
            },
            None => false,
        };
        if url_hit {
            return true;
        }
        tags_any_contains(&n.tags, lq)
    }
}

fn search_from(
    nodes: &Vec<BookmarkNode>,
    i: usize,
    lq: &str,
    is_tag: bool,
    needle: &str,
    out: &mut Vec<String>,
)
    requires
        i <= nodes@.len(),
        is_tag == is_tag_query(lq@),
        is_tag ==> needle@ == lq@.subrange(4, lq@.len() as int),
    ensures
        tags_view(final(out)@) == tags_view(old(out)@) + search_in_nodes(
            nodes_view(nodes@).subrange(i as int, nodes@.len() as int),
            lq@,
        ),
    decreases size_nodes(nodes_view(nodes@)), nodes@.len() - i,
{
    let ghost vs = nodes_view(nodes@);
    proof {
        lemma_nodes_view_len(nodes@);
    }
    if i == nodes.len() {
        proof {
            assert(vs.subrange(i as int, nodes@.len() as int) =~= Seq::<NodeView>::empty());
            assert(tags_view(out@) =~= tags_view(out@) + search_in_nodes(
                Seq::<NodeView>::empty(),
                lq@,
            ));
        }
        return ;
    }
    let ghost tail = vs.subrange(i as int, nodes@.len() as int);
    proof {
        lemma_nodes_view_index(nodes@, i as int);
        assert(tail[0] == vs[i as int]);
        assert(tail.drop_first() =~= vs.subrange(i as int + 1, nodes@.len() as int));
        lemma_size_nodes_index(vs, i as int);
        assert(size_node(vs[i as int]) == 1 + size_nodes(vs[i as int].children));
        assert(nodes_view(nodes@[i as int].children@) == vs[i as int].children);
    }
    if node_matches_exec(&nodes[i], lq, is_tag, needle) {
        let id = nodes[i].id.clone();
        out.push(id);
        proof {
            assert(tags_view(out@) =~= tags_view(old(out)@) + seq![vs[i as int].id]);
        }
    } else {
        proof {
            assert(tags_view(out@) =~= tags_view(old(out)@) + Seq::<Seq<char>>::empty());
        }
    }
    search_walk(&nodes[i].children, lq, is_tag, needle, out);
    search_from(nodes, i + 1, lq, is_tag, needle, out);
    proof {
        assert(search_in_nodes(tail, lq@) == search_in_node(tail[0], lq@) + search_in_nodes(
            tail.drop_first(),
            lq@,
        ));
        assert(tags_view(final(out)@) =~= tags_view(old(out)@) + search_in_nodes(tail, lq@));
    }
}

fn search_walk(nodes: &Vec<BookmarkNode>, lq: &str, is_tag: bool, needle: &str, out: &mut Vec<
    String,
>)
    requires
        is_tag == is_tag_query(lq@),
        is_tag ==> needle@ == lq@.subrange(4, lq@.len() as int),
    ensures
        tags_view(final(out)@) == tags_view(old(out)@) + search_in_nodes(
            nodes_view(nodes@),
            lq@,
        ),
    decreases size_nodes(nodes_view(nodes@)), nodes@.len() + 1,
{
    search_from(nodes, 0, lq, is_tag, needle, out);
    proof {
        lemma_nodes_view_len(nodes@);
        assert(nodes_view(nodes@).subrange(0, nodes@.len() as int) =~= nodes_view(nodes@));
    }
}

/// Search the tree: a query lowered and starting with `tag:` matches nodes
/// by tag containment; any other query matches title, url or a tag,
/// case-insensitively. Ids come back in pre-order, without ranking.
pub fn search_nodes(nodes: &Vec<BookmarkNode>, query: &str) -> (r: Vec<String>)
    ensures
        tags_view(r@) == spec_search(nodes_view(nodes@), query@),
{
    let lq = lower(query);
    let llen = lq.as_str().unicode_len();
    let mut is_tag = false;
    if llen >= 4 {
        let c0 = lq.as_str().get_char(0);
        let c1 = lq.as_str().get_char(1);
        let c2 = lq.as_str().get_char(2);
        let c3 = lq.as_str().get_char(3);
        is_tag = c0 == 't' && c1 == 'a' && c2 == 'g' && c3 == ':';
        proof {
            if is_tag {
                assert(lq@.subrange(0, 4) =~= seq!['t', 'a', 'g', ':']);
            } else {
                assert(lq@.subrange(0, 4)[0] == lq@[0]);
                assert(lq@.subrange(0, 4)[1] == lq@[1]);
                assert(lq@.subrange(0, 4)[2] == lq@[2]);
                assert(lq@.subrange(0, 4)[3] == lq@[3]);
                assert(lq@.subrange(0, 4) != seq!['t', 'a', 'g', ':']);
            }
        }
    }
    let needle = if is_tag {
        lq.as_str().substring_char(4, llen)
    } else {
        ""
    };
    let mut out: Vec<String> = Vec::new();
    proof {
        assert(tags_view(out@) =~= Seq::<Seq<char>>::empty());
    }
    search_walk(nodes, lq.as_str(), is_tag, needle, &mut out);
    proof {
        assert(tags_view(out@) =~= search_in_nodes(nodes_view(nodes@), lq@));
    }
    out
}

} // verus!
