use vstd::prelude::*;

verus! {

use crate::node::NodeView;
use crate::node::size_node;
use crate::node::size_nodes;
use crate::node::flatten_nodes;
use crate::node::bookmarks_childless_node;
use crate::node::bookmarks_childless_nodes;
use crate::node::has_id_nodes;
use crate::node::has_id_node;
use crate::node::lemma_flatten_nodes_len;
use crate::ops::remove_in_nodes;
use crate::ops::remove_in_node;
use crate::ops::attach_in_nodes;
use crate::ops::attach_in_node;
use crate::ops::find_in_nodes;
use crate::ops::find_in_node;
use crate::ops::spec_add;
use crate::ops::spec_delete;
use crate::ops::spec_move;
use crate::dedup::count_url;
use crate::dedup::dup_flag;
use crate::dedup::mark_nodes;
use crate::dedup::mark_node;
use crate::dedup::urls_in_nodes;
use crate::dedup::urls_in_node;
use crate::dedup::spec_mark_duplicates;
use crate::strutil::spec_node_id;
use crate::serialize::spec_csv;
use crate::serialize::csv_row;
use crate::serialize::csv_rows;

// ---- Counting nodes that carry a given id ----------------------------

pub open spec fn id_count_nodes(s: Seq<NodeView>, id: Seq<char>) -> nat
    decreases s, 1int,
{
    if s.len() == 0 {
        0
    } else {
        id_count_node(s[0], id) + id_count_nodes(s.drop_first(), id)
    }
}

pub open spec fn id_count_node(n: NodeView, id: Seq<char>) -> nat
    decreases n, 0int,
{
    (if n.id == id {
        1nat
    } else {
        0nat
    }) + id_count_nodes(n.children, id)
}

pub proof fn lemma_has_id_count_nodes(s: Seq<NodeView>, id: Seq<char>)
    ensures
        has_id_nodes(s, id) <==> id_count_nodes(s, id) >= 1,
    decreases s, 1int,
{
    if s.len() != 0 {
        lemma_has_id_count_node(s[0], id);
        lemma_has_id_count_nodes(s.drop_first(), id);
    }
}

pub proof fn lemma_has_id_count_node(n: NodeView, id: Seq<char>)
    ensures
        has_id_node(n, id) <==> id_count_node(n, id) >= 1,
    decreases n, 0int,
{
    lemma_has_id_count_nodes(n.children, id);
}

proof fn lemma_id_count_cons(x: NodeView, t: Seq<NodeView>, id: Seq<char>)
    ensures
        id_count_nodes(seq![x] + t, id) == id_count_node(x, id) + id_count_nodes(t, id),
{
    let s = seq![x] + t;
    assert(s[0] == x);
    assert(s.drop_first() =~= t);
}

proof fn lemma_id_count_push(s: Seq<NodeView>, n: NodeView, id: Seq<char>)
    ensures
        id_count_nodes(s.push(n), id) == id_count_nodes(s, id) + id_count_node(n, id),
    decreases s,
{
    if s.len() == 0 {
        assert(s.push(n)[0] == n);
        assert(s.push(n).drop_first() =~= Seq::<NodeView>::empty());
        assert(id_count_nodes(s.push(n).drop_first(), id) == 0);
        assert(id_count_nodes(s, id) == 0);
    } else {
        lemma_id_count_push(s.drop_first(), n, id);
        assert(s.push(n)[0] == s[0]);
        assert(s.push(n).drop_first() =~= s.drop_first().push(n));
        assert(id_count_nodes(s.push(n).drop_first(), id) == id_count_nodes(s.drop_first(), id)
            + id_count_node(n, id));
        assert(id_count_nodes(s, id) == id_count_node(s[0], id) + id_count_nodes(
            s.drop_first(),
            id,
        ));
    }
}

/// A find comes back empty exactly when no node carries the id.
pub proof fn lemma_find_none_iff_no_id(s: Seq<NodeView>, id: Seq<char>)
    ensures
        (find_in_nodes(s, id) is None) <==> !has_id_nodes(s, id),
    decreases s, 1int,
{
    if s.len() != 0 {
        lemma_find_none_iff_no_id_node(s[0], id);
        lemma_find_none_iff_no_id(s.drop_first(), id);
    }
}

pub proof fn lemma_find_none_iff_no_id_node(n: NodeView, id: Seq<char>)
    ensures
        (find_in_node(n, id) is None) <==> !has_id_node(n, id),
    decreases n, 0int,
{
    lemma_find_none_iff_no_id(n.children, id);
}

/// Removal splits the id population: what a removed subtree carried is
/// exactly what the remaining tree lost, for every id.
pub proof fn lemma_remove_id_count(s: Seq<NodeView>, id: Seq<char>, x: Seq<char>)
    ensures
        ({
            let r = remove_in_nodes(s, id);
            match r.1 {
                Some(n) => id_count_nodes(r.0, x) + id_count_node(n, x) == id_count_nodes(s, x)
                    && n.id == id,
                None => id_count_nodes(r.0, x) == id_count_nodes(s, x),
            }
        }),
    decreases s, 1int,
{
    if s.len() != 0 {
        lemma_remove_id_count_node(s[0], id, x);
        lemma_remove_id_count(s.drop_first(), id, x);
        let r = remove_in_nodes(s, id);
        if s[0].id == id {
        } else {
            let r0 = remove_in_node(s[0], id);
            if r0.1 is Some {
                lemma_id_count_cons(r0.0, s.drop_first(), x);
            } else {
                let rr = remove_in_nodes(s.drop_first(), id);
                lemma_id_count_cons(s[0], rr.0, x);
            }
        }
    }
}

pub proof fn lemma_remove_id_count_node(n: NodeView, id: Seq<char>, x: Seq<char>)
    ensures
        ({
            let r = remove_in_node(n, id);
            match r.1 {
                Some(m) => id_count_node(r.0, x) + id_count_node(m, x) == id_count_node(n, x)
                    && m.id == id,
                None => id_count_node(r.0, x) == id_count_node(n, x),
            }
        }),
    decreases n, 0int,
{
    lemma_remove_id_count(n.children, id, x);
}

/// Attaching adds exactly the attached subtree's id population, when a
/// parent was found, and nothing otherwise.
pub proof fn lemma_attach_id_count(s: Seq<NodeView>, pid: Seq<char>, c: NodeView, x: Seq<char>)
    ensures
        ({
            let a = attach_in_nodes(s, pid, c);
            id_count_nodes(a.0, x) == id_count_nodes(s, x) + (if a.1 {
                id_count_node(c, x)
            } else {
                0nat
            })
        }),
    decreases s, 1int,
{
    if s.len() != 0 {
        lemma_attach_id_count_node(s[0], pid, c, x);
        lemma_attach_id_count(s.drop_first(), pid, c, x);
        let a0 = attach_in_node(s[0], pid, c);
        if a0.1 {
            lemma_id_count_cons(a0.0, s.drop_first(), x);
        } else {
            let a = attach_in_nodes(s.drop_first(), pid, c);
            lemma_id_count_cons(s[0], a.0, x);
        }
    }
}

pub proof fn lemma_attach_id_count_node(n: NodeView, pid: Seq<char>, c: NodeView, x: Seq<char>)
    ensures
        ({
            let a = attach_in_node(n, pid, c);
            id_count_node(a.0, x) == id_count_node(n, x) + (if a.1 {
                id_count_node(c, x)
            } else {
                0nat
            })
        }),
    decreases n, 0int,
{
    if n.id == pid && n.url is None {
        lemma_id_count_push(n.children, c, x);
    } else {
        lemma_attach_id_count(n.children, pid, c, x);
    }
}

/// Adding a node and then deleting its minted id leaves no node carrying
/// that id: a find on the result comes back empty. The minted id must be
/// fresh: neither the tree nor the added node's own subtree carries it.
pub proof fn lemma_add_then_delete_finds_nothing(
    s: Seq<NodeView>,
    pid: Seq<char>,
    n: NodeView,
    now_ms: u64,
)
    requires
        !has_id_nodes(s, spec_node_id(now_ms)),
        !has_id_nodes(n.children, spec_node_id(now_ms)),
    ensures
        ({
            let mid = spec_node_id(now_ms);
            let t1 = spec_add(s, pid, n, now_ms);
            let d = spec_delete(t1, mid);
            d.1 && find_in_nodes(d.0, mid) is None
        }),
{
    let mid = spec_node_id(now_ms);
    let m = NodeView { id: mid, ..n };
    let t1 = spec_add(s, pid, n, now_ms);
    lemma_has_id_count_nodes(s, mid);
    lemma_has_id_count_nodes(n.children, mid);
    assert(id_count_node(m, mid) == 1);
    let a = attach_in_nodes(s, pid, m);
    lemma_attach_id_count(s, pid, m, mid);
    if !a.1 {
        lemma_id_count_push(s, m, mid);
    }
    assert(id_count_nodes(t1, mid) == 1);
    let r = remove_in_nodes(t1, mid);
    lemma_remove_id_count(t1, mid, mid);
    lemma_has_id_count_nodes(t1, mid);
    match r.1 {
        Some(rm) => {
            lemma_has_id_count_node(rm, mid);
            assert(id_count_node(rm, mid) >= 1);
            assert(id_count_nodes(r.0, mid) == 0);
            lemma_has_id_count_nodes(r.0, mid);
            lemma_find_none_iff_no_id(r.0, mid);
        },
        None => {
            // remove finds the id: it is present in t1
            lemma_remove_some_iff_has_id(t1, mid);
        },
    }
}

/// Removal succeeds exactly when some node carries the id.
pub proof fn lemma_remove_some_iff_has_id(s: Seq<NodeView>, id: Seq<char>)
    ensures
        (remove_in_nodes(s, id).1 is Some) <==> has_id_nodes(s, id),
    decreases s, 1int,
{
    if s.len() != 0 {
        lemma_remove_some_iff_has_id_node(s[0], id);
        lemma_remove_some_iff_has_id(s.drop_first(), id);
        assert(has_id_node(s[0], id) == (s[0].id == id || has_id_nodes(s[0].children, id)));
        assert(has_id_nodes(s, id) == (has_id_node(s[0], id) || has_id_nodes(
            s.drop_first(),
            id,
        )));
    }
}

pub proof fn lemma_remove_some_iff_has_id_node(n: NodeView, id: Seq<char>)
    ensures
        (remove_in_node(n, id).1 is Some) <==> has_id_nodes(n.children, id),
    decreases n, 0int,
{
    lemma_remove_some_iff_has_id(n.children, id);
}


// ---- Structural edits keep bookmarks childless -------------------------

proof fn lemma_childless_cons(x: NodeView, t: Seq<NodeView>)
    ensures
        bookmarks_childless_nodes(seq![x] + t) == (bookmarks_childless_node(x)
            && bookmarks_childless_nodes(t)),
{
    let s = seq![x] + t;
    assert(s[0] == x);
    assert(s.drop_first() =~= t);
}

proof fn lemma_childless_push(s: Seq<NodeView>, n: NodeView)
    ensures
        bookmarks_childless_nodes(s.push(n)) == (bookmarks_childless_nodes(s)
            && bookmarks_childless_node(n)),
    decreases s,
{
    if s.len() == 0 {
        assert(s.push(n)[0] == n);
        assert(s.push(n).drop_first() =~= Seq::<NodeView>::empty());
        assert(bookmarks_childless_nodes(s.push(n).drop_first()));
        assert(bookmarks_childless_nodes(s));
    } else {
        lemma_childless_push(s.drop_first(), n);
        assert(s.push(n)[0] == s[0]);
        assert(s.push(n).drop_first() =~= s.drop_first().push(n));
        assert(bookmarks_childless_nodes(s.push(n).drop_first()) == (bookmarks_childless_nodes(
            s.drop_first(),
        ) && bookmarks_childless_node(n)));
        assert(bookmarks_childless_nodes(s) == (bookmarks_childless_node(s[0])
            && bookmarks_childless_nodes(s.drop_first())));
    }
}

pub proof fn lemma_remove_keeps_childless(s: Seq<NodeView>, id: Seq<char>)
    requires
        bookmarks_childless_nodes(s),
    ensures
        ({
            let r = remove_in_nodes(s, id);
            bookmarks_childless_nodes(r.0) && (match r.1 {
                Some(n) => bookmarks_childless_node(n),
                None => true,
            })
        }),
    decreases s, 1int,
{
    if s.len() != 0 {
        lemma_remove_keeps_childless_node(s[0], id);
        lemma_remove_keeps_childless(s.drop_first(), id);
        if s[0].id != id {
            let r0 = remove_in_node(s[0], id);
            if r0.1 is Some {
                lemma_childless_cons(r0.0, s.drop_first());
            } else {
                let rr = remove_in_nodes(s.drop_first(), id);
                lemma_childless_cons(s[0], rr.0);
            }
        }
    }
}

pub proof fn lemma_remove_keeps_childless_node(n: NodeView, id: Seq<char>)
    requires
        bookmarks_childless_node(n),
    ensures
        ({
            let r = remove_in_node(n, id);
            bookmarks_childless_node(r.0) && (match r.1 {
                Some(m) => bookmarks_childless_node(m),
                None => true,
            })
        }),
    decreases n, 0int,
{
    lemma_remove_keeps_childless(n.children, id);
    if n.url is Some {
        assert(n.children =~= Seq::<NodeView>::empty());
    }
}

pub proof fn lemma_attach_keeps_childless(s: Seq<NodeView>, pid: Seq<char>, c: NodeView)
    requires
        bookmarks_childless_nodes(s),
        bookmarks_childless_node(c),
    ensures
        bookmarks_childless_nodes(attach_in_nodes(s, pid, c).0),
    decreases s, 1int,
{
    if s.len() != 0 {
        lemma_attach_keeps_childless_node(s[0], pid, c);
        lemma_attach_keeps_childless(s.drop_first(), pid, c);
        let a0 = attach_in_node(s[0], pid, c);
        if a0.1 {
            lemma_childless_cons(a0.0, s.drop_first());
        } else {
            let a = attach_in_nodes(s.drop_first(), pid, c);
            lemma_childless_cons(s[0], a.0);
        }
    }
}

pub proof fn lemma_attach_keeps_childless_node(n: NodeView, pid: Seq<char>, c: NodeView)
    requires
        bookmarks_childless_node(n),
        bookmarks_childless_node(c),
    ensures
        bookmarks_childless_node(attach_in_node(n, pid, c).0),
    decreases n, 0int,
{
    if n.id == pid && n.url is None {
        lemma_childless_push(n.children, c);
    } else {
        lemma_attach_keeps_childless(n.children, pid, c);
    }
}

/// A move keeps the data model's child rule: whatever the destination, no
/// url-bearing node ever acquires a child. A bookmark carrying the
/// destination id counts as an absent parent.
pub proof fn lemma_move_keeps_bookmarks_childless(s: Seq<NodeView>, id: Seq<char>, pid: Seq<char>)
    requires
        bookmarks_childless_nodes(s),
    ensures
        bookmarks_childless_nodes(spec_move(s, id, pid).0),
{
    let r = remove_in_nodes(s, id);
    lemma_remove_keeps_childless(s, id);
    match r.1 {
        None => {
        },
        Some(n) => {
            if pid == "root"@ || pid.len() == 0 {
                lemma_childless_push(r.0, n);
            } else {
                let a = attach_in_nodes(r.0, pid, n);
                lemma_attach_keeps_childless(r.0, pid, n);
                if !a.1 {
                    lemma_childless_push(r.0, n);
                }
            }
        },
    }
}

/// Adding keeps the data model's child rule, provided the added node obeys
/// it itself; it lands in a folder or at the top level, never in a
/// bookmark.
pub proof fn lemma_add_keeps_bookmarks_childless(
    s: Seq<NodeView>,
    pid: Seq<char>,
    n: NodeView,
    now_ms: u64,
)
    requires
        bookmarks_childless_nodes(s),
        bookmarks_childless_node(n),
    ensures
        bookmarks_childless_nodes(spec_add(s, pid, n, now_ms)),
{
    let m = NodeView { id: spec_node_id(now_ms), ..n };
    assert(bookmarks_childless_node(m));
    let a = attach_in_nodes(s, pid, m);
    lemma_attach_keeps_childless(s, pid, m);
    if !a.1 {
        lemma_childless_push(s, m);
    }
}

/// Deleting keeps the data model's child rule: it only takes nodes away.
pub proof fn lemma_delete_keeps_bookmarks_childless(s: Seq<NodeView>, id: Seq<char>)
    requires
        bookmarks_childless_nodes(s),
    ensures
        bookmarks_childless_nodes(spec_delete(s, id).0),
{
    lemma_remove_keeps_childless(s, id);
}

// ---- Moving preserves the node count ----------------------------------

proof fn lemma_size_cons(x: NodeView, t: Seq<NodeView>)
    ensures
        size_nodes(seq![x] + t) == size_node(x) + size_nodes(t),
{
    let s = seq![x] + t;
    assert(s[0] == x);
    assert(s.drop_first() =~= t);
}

proof fn lemma_size_push(s: Seq<NodeView>, n: NodeView)
    ensures
        size_nodes(s.push(n)) == size_nodes(s) + size_node(n),
    decreases s,
{
    if s.len() == 0 {
        assert(s.push(n)[0] == n);
        assert(s.push(n).drop_first() =~= Seq::<NodeView>::empty());
        assert(size_nodes(s.push(n).drop_first()) == 0);
        assert(size_nodes(s) == 0);
    } else {
        lemma_size_push(s.drop_first(), n);
        assert(s.push(n)[0] == s[0]);
        assert(s.push(n).drop_first() =~= s.drop_first().push(n));
        assert(size_nodes(s.push(n).drop_first()) == size_nodes(s.drop_first()) + size_node(n));
        assert(size_nodes(s) == size_node(s[0]) + size_nodes(s.drop_first()));
    }
}

pub proof fn lemma_remove_size(s: Seq<NodeView>, id: Seq<char>)
    ensures
        ({
            let r = remove_in_nodes(s, id);
            match r.1 {
                Some(n) => size_nodes(r.0) + size_node(n) == size_nodes(s),
                None => size_nodes(r.0) == size_nodes(s),
            }
        }),
    decreases s, 1int,
{
    if s.len() != 0 {
        lemma_remove_size_node(s[0], id);
        lemma_remove_size(s.drop_first(), id);
        if s[0].id != id {
            let r0 = remove_in_node(s[0], id);
            if r0.1 is Some {
                lemma_size_cons(r0.0, s.drop_first());
            } else {
                let rr = remove_in_nodes(s.drop_first(), id);
                lemma_size_cons(s[0], rr.0);
            }
        }
    }
}

pub proof fn lemma_remove_size_node(n: NodeView, id: Seq<char>)
    ensures
        ({
            let r = remove_in_node(n, id);
            match r.1 {
                Some(m) => size_node(r.0) + size_node(m) == size_node(n),
                None => size_node(r.0) == size_node(n),
            }
        }),
    decreases n, 0int,
{
    lemma_remove_size(n.children, id);
}

pub proof fn lemma_attach_size(s: Seq<NodeView>, pid: Seq<char>, c: NodeView)
    ensures
        ({
            let a = attach_in_nodes(s, pid, c);
            size_nodes(a.0) == size_nodes(s) + (if a.1 {
                size_node(c)
            } else {
                0nat
            })
        }),
    decreases s, 1int,
{
    if s.len() != 0 {
        lemma_attach_size_node(s[0], pid, c);
        lemma_attach_size(s.drop_first(), pid, c);
        let a0 = attach_in_node(s[0], pid, c);
        if a0.1 {
            lemma_size_cons(a0.0, s.drop_first());
        } else {
            let a = attach_in_nodes(s.drop_first(), pid, c);
            lemma_size_cons(s[0], a.0);
        }
    }
}

pub proof fn lemma_attach_size_node(n: NodeView, pid: Seq<char>, c: NodeView)
    ensures
        ({
            let a = attach_in_node(n, pid, c);
            size_node(a.0) == size_node(n) + (if a.1 {
                size_node(c)
            } else {
                0nat
            })
        }),
    decreases n, 0int,
{
    if n.id == pid && n.url is None {
        lemma_size_push(n.children, c);
    } else {
        lemma_attach_size(n.children, pid, c);
    }
}

/// A move never changes the total node count, wherever the subtree lands
/// and whether or not the destination parent exists.
pub proof fn lemma_move_preserves_count(s: Seq<NodeView>, id: Seq<char>, pid: Seq<char>)
    ensures
        size_nodes(spec_move(s, id, pid).0) == size_nodes(s),
{
    let r = remove_in_nodes(s, id);
    lemma_remove_size(s, id);
    match r.1 {
        None => {
        },
        Some(n) => {
            if pid == "root"@ || pid.len() == 0 {
                lemma_size_push(r.0, n);
            } else {
                let a = attach_in_nodes(r.0, pid, n);
                lemma_attach_size(r.0, pid, n);
                if !a.1 {
                    lemma_size_push(r.0, n);
                }
            }
        },
    }
}

// ---- Duplicate marking is a function of the url multiset ---------------

proof fn lemma_count_url_multiset(urls: Seq<Seq<char>>, u: Seq<char>)
    ensures
        count_url(urls, u) == urls.to_multiset().count(u),
    decreases urls.len(),
{
    broadcast use vstd::seq_lib::group_to_multiset_ensures;
    broadcast use vstd::multiset::group_multiset_axioms;

    if urls.len() == 0 {
        assert(!urls.contains(u));
        assert(urls.to_multiset().count(u) == 0);
    } else {
        lemma_count_url_multiset(urls.drop_first(), u);
        assert(urls.remove(0).to_multiset() =~= urls.to_multiset().remove(urls[0]));
        assert(urls.remove(0) =~= urls.drop_first());
        assert(urls.contains(urls[0]));
        assert(urls.to_multiset().count(urls[0]) > 0);
        if urls[0] == u {
            assert(urls.to_multiset().remove(urls[0]).count(u) == urls.to_multiset().count(u)
                - 1);
        } else {
            assert(urls.to_multiset().remove(urls[0]).count(u) == urls.to_multiset().count(u));
        }
    }
}

proof fn lemma_mark_nodes_same_counts(s: Seq<NodeView>, u1: Seq<Seq<char>>, u2: Seq<Seq<char>>)
    requires
        forall|x: Seq<char>| #[trigger] count_url(u1, x) == count_url(u2, x),
    ensures
        mark_nodes(s, u1) == mark_nodes(s, u2),
    decreases s, 1int,
{
    if s.len() != 0 {
        lemma_mark_node_same_counts(s[0], u1, u2);
        lemma_mark_nodes_same_counts(s.drop_first(), u1, u2);
        assert(mark_nodes(s, u1) =~= mark_nodes(s, u2));
    }
}

proof fn lemma_mark_node_same_counts(n: NodeView, u1: Seq<Seq<char>>, u2: Seq<Seq<char>>)
    requires
        forall|x: Seq<char>| #[trigger] count_url(u1, x) == count_url(u2, x),
    ensures
        mark_node(n, u1) == mark_node(n, u2),
    decreases n, 0int,
{
    lemma_mark_nodes_same_counts(n.children, u1, u2);
    match n.url {
        Some(x) => {
            assert(count_url(u1, x) == count_url(u2, x));
        },
        None => {
        },
    }
}

/// Duplicate marking is a pure function of the current url membership:
/// two trees with identical multisets of urls assign every node the same
/// flag, whatever the edit history that produced them.
pub proof fn lemma_mark_depends_only_on_url_multiset(
    t1: Seq<NodeView>,
    t2: Seq<NodeView>,
    s: Seq<NodeView>,
)
    requires
        urls_in_nodes(t1).to_multiset() == urls_in_nodes(t2).to_multiset(),
    ensures
        mark_nodes(s, urls_in_nodes(t1)) == mark_nodes(s, urls_in_nodes(t2)),
{
    let u1 = urls_in_nodes(t1);
    let u2 = urls_in_nodes(t2);
    assert forall|x: Seq<char>| #[trigger] count_url(u1, x) == count_url(u2, x) by {
        lemma_count_url_multiset(u1, x);
        lemma_count_url_multiset(u2, x);
    }
    lemma_mark_nodes_same_counts(s, u1, u2);
}


/// The flag assignment is pointwise a function of the node's own url and
/// the tree's url multiset: across two trees with identical multisets,
/// nodes carrying the same url receive identical duplicate flags.
pub proof fn lemma_mark_flag_of_url(
    t1: Seq<NodeView>,
    t2: Seq<NodeView>,
    url: Option<Seq<char>>,
)
    requires
        urls_in_nodes(t1).to_multiset() == urls_in_nodes(t2).to_multiset(),
    ensures
        dup_flag(url, urls_in_nodes(t1)) == dup_flag(url, urls_in_nodes(t2)),
{
    match url {
        Some(u) => {
            lemma_count_url_multiset(urls_in_nodes(t1), u);
            lemma_count_url_multiset(urls_in_nodes(t2), u);
        },
        None => {
        },
    }
}


/// Two forests that agree on everything except the stored duplicate
/// flags: same shape, ids, titles, urls, dates, icons and tags.
pub open spec fn eq_mod_flags_nodes(a: Seq<NodeView>, b: Seq<NodeView>) -> bool
    decreases a, 1int,
{
    a.len() == b.len() && (a.len() == 0 || (eq_mod_flags_node(a[0], b[0]) && eq_mod_flags_nodes(
        a.drop_first(),
        b.drop_first(),
    )))
}

pub open spec fn eq_mod_flags_node(x: NodeView, y: NodeView) -> bool
    decreases x, 0int,
{
    x.id == y.id && x.title == y.title && x.url == y.url && x.add_date == y.add_date
        && x.last_modified == y.last_modified && x.icon == y.icon && x.tags == y.tags
        && eq_mod_flags_nodes(x.children, y.children)
}

proof fn lemma_eq_mod_flags_urls(a: Seq<NodeView>, b: Seq<NodeView>)
    requires
        eq_mod_flags_nodes(a, b),
    ensures
        urls_in_nodes(a) == urls_in_nodes(b),
    decreases a, 1int,
{
    if a.len() != 0 {
        lemma_eq_mod_flags_urls_node(a[0], b[0]);
        lemma_eq_mod_flags_urls(a.drop_first(), b.drop_first());
    }
}

proof fn lemma_eq_mod_flags_urls_node(x: NodeView, y: NodeView)
    requires
        eq_mod_flags_node(x, y),
    ensures
        urls_in_node(x) == urls_in_node(y),
    decreases x, 0int,
{
    lemma_eq_mod_flags_urls(x.children, y.children);
}

proof fn lemma_mark_eq_mod_flags_nodes(a: Seq<NodeView>, b: Seq<NodeView>, u: Seq<Seq<char>>)
    requires
        eq_mod_flags_nodes(a, b),
    ensures
        mark_nodes(a, u) == mark_nodes(b, u),
    decreases a, 1int,
{
    if a.len() != 0 {
        lemma_mark_eq_mod_flags_node(a[0], b[0], u);
        lemma_mark_eq_mod_flags_nodes(a.drop_first(), b.drop_first(), u);
        assert(mark_nodes(a, u) =~= mark_nodes(b, u));
    } else {
        assert(mark_nodes(a, u) =~= mark_nodes(b, u));
    }
}

proof fn lemma_mark_eq_mod_flags_node(x: NodeView, y: NodeView, u: Seq<Seq<char>>)
    requires
        eq_mod_flags_node(x, y),
    ensures
        mark_node(x, u) == mark_node(y, u),
    decreases x, 0int,
{
    lemma_mark_eq_mod_flags_nodes(x.children, y.children, u);
}

/// Recomputed duplicate flags are a pure function of the current url
/// membership: two trees that agree on everything but their stored flags
/// — whatever edit histories left those flags behind — come out of the
/// recomputation identical, node for node.
pub proof fn lemma_mark_ignores_old_flags(t1: Seq<NodeView>, t2: Seq<NodeView>)
    requires
        eq_mod_flags_nodes(t1, t2),
    ensures
        spec_mark_duplicates(t1) == spec_mark_duplicates(t2),
{
    lemma_eq_mod_flags_urls(t1, t2);
    lemma_mark_eq_mod_flags_nodes(t1, t2, urls_in_nodes(t1));
}

// ---- The CSV text's shape ----------------------------------------------

/// The rows of the CSV body, one entry per flattened node.
pub open spec fn csv_row_texts(flat: Seq<NodeView>) -> Seq<Seq<char>>
    decreases flat,
{
    if flat.len() == 0 {
        Seq::empty()
    } else {
        seq![csv_row(flat[0])] + csv_row_texts(flat.drop_first())
    }
}

pub open spec fn cat_texts(rows: Seq<Seq<char>>) -> Seq<char>
    decreases rows,
{
    if rows.len() == 0 {
        Seq::empty()
    } else {
        rows[0] + cat_texts(rows.drop_first())
    }
}

proof fn lemma_csv_rows_cat(flat: Seq<NodeView>)
    ensures
        csv_rows(flat) == cat_texts(csv_row_texts(flat)),
        csv_row_texts(flat).len() == flat.len(),
    decreases flat,
{
    if flat.len() != 0 {
        lemma_csv_rows_cat(flat.drop_first());
        let rt = csv_row_texts(flat);
        assert(rt[0] == csv_row(flat[0]));
        assert(rt.drop_first() =~= csv_row_texts(flat.drop_first()));
    }
}

/// The CSV text is the fixed header followed by exactly one row per
/// flattened node; for an empty tree the header stands alone.
pub proof fn lemma_csv_header_and_rows(s: Seq<NodeView>)
    ensures
        spec_csv(s) == "Title,URL,Add Date,Tags,Type\n"@ + cat_texts(
            csv_row_texts(flatten_nodes(s)),
        ),
        csv_row_texts(flatten_nodes(s)).len() == size_nodes(s),
        s.len() == 0 ==> spec_csv(s) == "Title,URL,Add Date,Tags,Type\n"@,
{
    lemma_csv_rows_cat(flatten_nodes(s));
    lemma_flatten_nodes_len(s);
    if s.len() == 0 {
        assert(flatten_nodes(s) =~= Seq::<NodeView>::empty());
        assert(csv_rows(flatten_nodes(s)) =~= Seq::<char>::empty());
        assert(spec_csv(s) =~= "Title,URL,Add Date,Tags,Type\n"@);
    }
}

/// Deleting an id that is present always succeeds and, with the subtree,
/// removes every node it contained; an absent id is reported and leaves
/// the tree as it stands.
pub proof fn lemma_delete_reports_presence(s: Seq<NodeView>, id: Seq<char>)
    ensures
        spec_delete(s, id).1 <==> has_id_nodes(s, id),
{
    lemma_remove_some_iff_has_id(s, id);
}

} // verus!
