use vstd::prelude::*;

verus! {

use crate::dom::DomNode;
use crate::dom::DomView;
use crate::dom::dom_view;
use crate::dom::doms_view;
use crate::dom::el_attrs;
use crate::dom::el_children;
use crate::dom::el_name;
use crate::dom::is_el;
use crate::dom::size_dom;
use crate::dom::size_doms;
use crate::dom::lemma_size_doms_index;
use crate::dom::lemma_doms_view_index;
use crate::dom::lemma_doms_view_len;
use crate::dom::dom_events;
use crate::dom::dom_events_of;
use crate::dom::spec_build_dom;
use crate::dom::build_dom;
use crate::node::BookmarkNode;
use crate::node::bookmarks_childless_node;
use crate::node::bookmarks_childless_nodes;
use crate::node::NodeView;
use crate::node::node_view;
use crate::node::nodes_view;
use crate::node::tags_view;
use crate::node::lemma_nodes_view_insert_front;
use crate::node::size_node;
use crate::node::size_nodes;
use crate::laws::id_count_node;
use crate::laws::id_count_nodes;
use crate::strutil::lemma_node_id_injective;
use crate::strutil::lemma_node_id_not_root;
use crate::strutil::spec_node_id;
use crate::strutil::spec_parse_u64;
use crate::strutil::parse_u64;
use crate::strutil::mint_id;
use crate::strutil::str_eq;

/// The id counter, stepped once per created node; it cannot wrap.
pub open spec fn bump(c: u64) -> u64 {
    if c < u64::MAX {
        (c + 1) as u64
    } else {
        c
    }
}

fn bump_exec(c: u64) -> (r: u64)
    ensures
        r == bump(c),
{
    if c < u64::MAX {
        c + 1
    } else {
        c
    }
}

/// The first element carrying this name, in document pre-order.
pub open spec fn find_el_in_doms(s: Seq<DomView>, name: Seq<char>) -> Option<DomView>
    decreases s, 1int,
{
    if s.len() == 0 {
        None
    } else {
        match find_el_in_dom(s[0], name) {
            Some(d) => Some(d),
            None => find_el_in_doms(s.drop_first(), name),
        }
    }
}

pub open spec fn find_el_in_dom(d: DomView, name: Seq<char>) -> Option<DomView>
    decreases d, 0int,
{
    match d {
        DomView::Text(_) => None,
        DomView::Element { .. } => {
            if el_name(d) == name {
                Some(d)
            } else {
                find_el_in_doms(el_children(d), name)
            }
        },
    }
}

/// All text under a node, concatenated in document order.
pub open spec fn text_of_doms(s: Seq<DomView>) -> Seq<char>
    decreases s, 1int,
{
    if s.len() == 0 {
        Seq::empty()
    } else {
        text_of_dom(s[0]) + text_of_doms(s.drop_first())
    }
}

pub open spec fn text_of_dom(d: DomView) -> Seq<char>
    decreases d, 0int,
{
    match d {
        DomView::Text(t) => t,
        DomView::Element { .. } => text_of_doms(el_children(d)),
    }
}

/// The value of the first attribute carrying this name.
pub open spec fn attr_from(attrs: Seq<(Seq<char>, Seq<char>)>, j: int, name: Seq<char>) -> Option<
    Seq<char>,
>
    decreases attrs.len() - j,
    when 0 <= j <= attrs.len()
{
    if j >= attrs.len() {
        None
    } else if attrs[j].0 == name {
        Some(attrs[j].1)
    } else {
        attr_from(attrs, j + 1, name)
    }
}

pub open spec fn attr_of(attrs: Seq<(Seq<char>, Seq<char>)>, name: Seq<char>) -> Option<Seq<char>> {
    attr_from(attrs, 0, name)
}

/// A date attribute holds seconds; the tree holds milliseconds. An absent
/// or unparseable value, or one too large to scale, counts as zero.
pub open spec fn spec_date_ms(attrs: Seq<(Seq<char>, Seq<char>)>) -> u64 {
    match attr_of(attrs, "add_date"@) {
        Some(v) => match spec_parse_u64(v) {
            Some(n) => if n <= u64::MAX / 1000 {
                (n * 1000) as u64
            } else {
                0
            },
            None => 0,
        },
        None => 0,
    }
}

/// Strategy A of the dialect search: the first list element among the
/// folder item's direct children.
pub open spec fn find_direct_dl(s: Seq<DomView>, j: int) -> Option<int>
    decreases s.len() - j,
    when 0 <= j <= s.len()
{
    if j >= s.len() {
        None
    } else if is_el(s[j]) && el_name(s[j]) == "dl"@ {
        Some(j)
    } else {
        find_direct_dl(s, j + 1)
    }
}

/// Strategy B: scan the folder item's following siblings, skipping text;
/// a list element is the content list, another item or heading ends the
/// search, any other element is passed over.
pub open spec fn find_sibling_dl(s: Seq<DomView>, j: int) -> Option<int>
    decreases s.len() - j,
    when 0 <= j <= s.len()
{
    if j >= s.len() {
        None
    } else if is_el(s[j]) {
        if el_name(s[j]) == "dl"@ {
            Some(j)
        } else if el_name(s[j]) == "dt"@ || el_name(s[j]) == "h3"@ {
            None
        } else {
            find_sibling_dl(s, j + 1)
        }
    } else {
        find_sibling_dl(s, j + 1)
    }
}

pub proof fn lemma_find_direct_dl_range(s: Seq<DomView>, j: int)
    requires
        0 <= j <= s.len(),
    ensures
        match find_direct_dl(s, j) {
            Some(k) => j <= k < s.len(),
            None => true,
        },
    decreases s.len() - j,
{
    if j < s.len() && !(is_el(s[j]) && el_name(s[j]) == "dl"@) {
        lemma_find_direct_dl_range(s, j + 1);
    }
}

pub proof fn lemma_find_sibling_dl_range(s: Seq<DomView>, j: int)
    requires
        0 <= j <= s.len(),
    ensures
        match find_sibling_dl(s, j) {
            Some(k) => j <= k < s.len(),
            None => true,
        },
    decreases s.len() - j,
{
    if j < s.len() {
        lemma_find_sibling_dl_range(s, j + 1);
    }
}

/// Which list, if any, holds the folder's contents: a nested list first,
/// a following-sibling list otherwise.
pub open spec fn folder_dl(sibs: Seq<DomView>, idx: int) -> Option<DomView> {
    match find_direct_dl(el_children(sibs[idx]), 0) {
        Some(k) => Some(el_children(sibs[idx])[k]),
        None => match find_sibling_dl(sibs, idx + 1) {
            Some(k) => Some(sibs[k]),
            None => None,
        },
    }
}

/// One list item processed: a folder when it holds a heading, a bookmark
/// when it holds a link, nothing otherwise. The second component is the
/// id counter after the item and everything under it.
pub open spec fn spec_process_dt(sibs: Seq<DomView>, idx: int, counter: u64) -> (Option<
    NodeView,
>, u64)
    decreases size_doms(sibs), 0int, 0int,
    when 0 <= idx < sibs.len()
    via spec_process_dt_decreases
{
    let el = sibs[idx];
    match find_el_in_doms(el_children(el), "h3"@) {
        Some(h3) => {
            let ad = spec_date_ms(el_attrs(h3));
            let c1 = bump(counter);
            let folder = NodeView {
                id: spec_node_id(counter),
                title: text_of_dom(h3),
                url: None,
                add_date: ad,
                last_modified: ad,
                icon: None,
                tags: Seq::empty(),
                is_duplicate: false,
                children: Seq::empty(),
            };
            match folder_dl(sibs, idx) {
                Some(dl) => {
                    let r = spec_process_list(el_children(dl), 0, c1);
                    (Some(NodeView { children: r.0, ..folder }), r.1)
                },
                None => (Some(folder), c1),
            }
        },
        None => match find_el_in_doms(el_children(el), "a"@) {
            Some(a) => {
                let ad = spec_date_ms(el_attrs(a));
                let bookmark = NodeView {
                    id: spec_node_id(counter),
                    title: text_of_dom(a),
                    url: attr_of(el_attrs(a), "href"@),
                    add_date: ad,
                    last_modified: ad,
                    icon: attr_of(el_attrs(a), "icon"@),
                    tags: Seq::empty(),
                    is_duplicate: false,
                    children: Seq::empty(),
                };
                (Some(bookmark), bump(counter))
            },
            None => (None, counter),
        },
    }
}

/// The list items of a content list, processed left to right, the id
/// counter threaded through.
pub open spec fn spec_process_list(s: Seq<DomView>, j: int, counter: u64) -> (Seq<NodeView>, u64)
    decreases size_doms(s), 1int, s.len() - j,
    when 0 <= j <= s.len()
{
    if j >= s.len() {
        (Seq::empty(), counter)
    } else if is_el(s[j]) && el_name(s[j]) == "dt"@ {
        let r = spec_process_dt(s, j, counter);
        let rest = spec_process_list(s, j + 1, r.1);
        match r.0 {
            Some(n) => (seq![n] + rest.0, rest.1),
            None => rest,
        }
    } else {
        spec_process_list(s, j + 1, counter)
    }
}

#[via_fn]
proof fn spec_process_dt_decreases(sibs: Seq<DomView>, idx: int, counter: u64) {
    let el = sibs[idx];
    match find_direct_dl(el_children(el), 0) {
        Some(k) => {
            lemma_find_direct_dl_range(el_children(el), 0);
            lemma_size_doms_index(el_children(el), k);
            lemma_size_doms_index(sibs, idx);
            crate::dom::lemma_size_dom_open(el_children(el)[k]);
            crate::dom::lemma_size_dom_open(el);
        },
        None => {
            match find_sibling_dl(sibs, idx + 1) {
                Some(k) => {
                    lemma_find_sibling_dl_range(sibs, idx + 1);
                    lemma_size_doms_index(sibs, k);
                    crate::dom::lemma_size_dom_open(sibs[k]);
                },
                None => {
                },
            }
        },
    }
}

/// The whole parse: rebuild the document, take the outermost list, turn
/// its items into nodes, and wrap them under one synthetic root.
pub open spec fn spec_parse(html: Seq<char>) -> Seq<NodeView> {
    let doms = spec_build_dom(dom_events_of(html));
    let kids = match find_el_in_doms(doms, "dl"@) {
        Some(dl) => spec_process_list(el_children(dl), 0, 0).0,
        None => Seq::empty(),
    };
    seq![
        NodeView {
            id: "root"@,
            title: "Bookmarks"@,
            url: None,
            add_date: 0,
            last_modified: 0,
            icon: None,
            tags: Seq::empty(),
            is_duplicate: false,
            children: kids,
        },
    ]
}


pub proof fn lemma_process_dt_childless(sibs: Seq<DomView>, idx: int, counter: u64)
    requires
        0 <= idx < sibs.len(),
    ensures
        match spec_process_dt(sibs, idx, counter).0 {
            Some(n) => bookmarks_childless_node(n),
            None => true,
        },
    decreases size_doms(sibs), 0int, 0int,
{
    let el = sibs[idx];
    match find_el_in_doms(el_children(el), "h3"@) {
        Some(h3) => {
            match folder_dl(sibs, idx) {
                Some(dl) => {
                    lemma_fold_dl_size(sibs, idx);
                    lemma_process_list_childless(el_children(dl), 0, bump(counter));
                },
                None => {
                    assert(bookmarks_childless_nodes(Seq::<NodeView>::empty()));
                },
            }
        },
        None => {
            assert(bookmarks_childless_nodes(Seq::<NodeView>::empty()));
        },
    }
}

pub proof fn lemma_process_list_childless(s: Seq<DomView>, j: int, counter: u64)
    requires
        0 <= j <= s.len(),
    ensures
        bookmarks_childless_nodes(spec_process_list(s, j, counter).0),
    decreases size_doms(s), 1int, s.len() - j,
{
    if j < s.len() {
        if is_el(s[j]) && el_name(s[j]) == "dt"@ {
            lemma_process_dt_childless(s, j, counter);
            let r = spec_process_dt(s, j, counter);
            lemma_process_list_childless(s, j + 1, r.1);
            match r.0 {
                Some(n) => {
                    let rest = spec_process_list(s, j + 1, r.1);
                    let out = seq![n] + rest.0;
                    assert(out[0] == n);
                    assert(out.drop_first() =~= rest.0);
                },
                None => {
                },
            }
        } else {
            lemma_process_list_childless(s, j + 1, counter);
        }
    }
}

/// The parser never attaches children to a bookmark: every tree it
/// builds satisfies the data model's child rule.
pub proof fn lemma_parse_keeps_bookmarks_childless(html: Seq<char>)
    ensures
        bookmarks_childless_nodes(spec_parse(html)),
{
    let doms = spec_build_dom(dom_events_of(html));
    let kids = match find_el_in_doms(doms, "dl"@) {
        Some(dl) => spec_process_list(el_children(dl), 0, 0).0,
        None => Seq::<NodeView>::empty(),
    };
    match find_el_in_doms(doms, "dl"@) {
        Some(dl) => {
            lemma_process_list_childless(el_children(dl), 0, 0);
            assert(bookmarks_childless_nodes(kids));
        },
        None => {
            assert(bookmarks_childless_nodes(Seq::<NodeView>::empty()));
            assert(bookmarks_childless_nodes(kids));
        },
    }
    let out = spec_parse(html);
    assert(out[0].children == kids);
    assert(out[0].url is None);
    assert(bookmarks_childless_node(out[0]));
    assert(out.drop_first() =~= Seq::<NodeView>::empty());
    assert(bookmarks_childless_nodes(out.drop_first()));
    assert(bookmarks_childless_nodes(out));
}


/// Every id in the forest was minted from one counter value in the given
/// range, and no two nodes share one.
pub open spec fn ids_minted_in(s: Seq<NodeView>, lo: u64, hi: u64) -> bool {
    forall|id: Seq<char>| #[trigger] id_count_nodes(s, id) != 0 ==> (id_count_nodes(s, id) == 1
        && exists|k: u64| lo <= k < hi && id == #[trigger] spec_node_id(k))
}

pub open spec fn ids_minted_in_node(n: NodeView, lo: u64, hi: u64) -> bool {
    forall|id: Seq<char>| #[trigger] id_count_node(n, id) != 0 ==> (id_count_node(n, id) == 1
        && exists|k: u64| lo <= k < hi && id == #[trigger] spec_node_id(k))
}

pub proof fn lemma_process_dt_ids(sibs: Seq<DomView>, idx: int, counter: u64)
    requires
        0 <= idx < sibs.len(),
    ensures
        ({
            let r = spec_process_dt(sibs, idx, counter);
            counter <= r.1 && r.1 <= counter + (match r.0 {
                Some(n) => size_node(n),
                None => 0nat,
            }) && (r.0 is None ==> r.1 == counter) && (r.1 < u64::MAX ==> (match r.0 {
                Some(n) => ids_minted_in_node(n, counter, r.1) && counter < r.1,
                None => true,
            }))
        }),
    decreases size_doms(sibs), 0int, 0int,
{
    let el = sibs[idx];
    let r = spec_process_dt(sibs, idx, counter);
    match find_el_in_doms(el_children(el), "h3"@) {
        Some(h3) => {
            let c1 = bump(counter);
            match folder_dl(sibs, idx) {
                Some(dl) => {
                    lemma_fold_dl_size(sibs, idx);
                    lemma_process_list_ids(el_children(dl), 0, c1);
                    let r2 = spec_process_list(el_children(dl), 0, c1);
                    let n = r.0.unwrap();
                    assert(n.children == r2.0);
                    assert(size_node(n) == 1 + size_nodes(n.children));
                    if r.1 < u64::MAX {
                        assert(counter < u64::MAX);
                        assert(c1 == counter + 1);
                        assert(ids_minted_in(r2.0, c1, r2.1));
                        assert forall|id: Seq<char>| #[trigger] id_count_node(n, id) != 0 implies (
                        id_count_node(n, id) == 1 && exists|k: u64|
                            counter <= k < r.1 && id == #[trigger] spec_node_id(k)) by {
                            assert(id_count_node(n, id) == (if n.id == id {
                                1nat
                            } else {
                                0nat
                            }) + id_count_nodes(n.children, id));
                            if id == spec_node_id(counter) {
                                if id_count_nodes(n.children, id) != 0 {
                                    let k = choose|k: u64|
                                        c1 <= k < r2.1 && id == #[trigger] spec_node_id(k);
                                    lemma_node_id_injective(counter, k);
                                    assert(false);
                                }
                                assert(n.id == id);
                                assert(id_count_node(n, id) == 1);
                                assert(counter <= counter < r.1 && id == spec_node_id(counter));
                            } else {
                                assert(n.id != id);
                                assert(id_count_nodes(n.children, id) != 0);
                                let k = choose|k: u64|
                                    c1 <= k < r2.1 && id == #[trigger] spec_node_id(k);
                                assert(counter <= k < r.1 && id == spec_node_id(k));
                            }
                        }
                    }
                },
                None => {
                    let n = r.0.unwrap();
                    assert(id_count_nodes(n.children, spec_node_id(counter)) == 0);
                    if r.1 < u64::MAX {
                        assert(counter < u64::MAX);
                        assert(c1 == counter + 1);
                        assert forall|id: Seq<char>| #[trigger] id_count_node(n, id) != 0 implies (
                        id_count_node(n, id) == 1 && exists|k: u64|
                            counter <= k < r.1 && id == #[trigger] spec_node_id(k)) by {
                            assert(id_count_node(n, id) == (if n.id == id {
                                1nat
                            } else {
                                0nat
                            }) + id_count_nodes(n.children, id));
                            assert(id_count_nodes(n.children, id) == 0);
                            assert(n.id == id);
                            assert(counter <= counter < r.1 && id == spec_node_id(counter));
                        }
                    }
                },
            }
        },
        None => {
            match find_el_in_doms(el_children(el), "a"@) {
                Some(a) => {
                    let n = r.0.unwrap();
                    assert(id_count_nodes(n.children, spec_node_id(counter)) == 0);
                    if r.1 < u64::MAX {
                        assert(counter < u64::MAX);
                        assert forall|id: Seq<char>| #[trigger] id_count_node(n, id) != 0 implies (
                        id_count_node(n, id) == 1 && exists|k: u64|
                            counter <= k < r.1 && id == #[trigger] spec_node_id(k)) by {
                            assert(id_count_node(n, id) == (if n.id == id {
                                1nat
                            } else {
                                0nat
                            }) + id_count_nodes(n.children, id));
                            assert(id_count_nodes(n.children, id) == 0);
                            assert(n.id == id);
                            assert(counter <= counter < r.1 && id == spec_node_id(counter));
                        }
                    }
                },
                None => {
                },
            }
        },
    }
}

pub proof fn lemma_process_list_ids(s: Seq<DomView>, j: int, counter: u64)
    requires
        0 <= j <= s.len(),
    ensures
        ({
            let r = spec_process_list(s, j, counter);
            counter <= r.1 && r.1 <= counter + size_nodes(r.0) && (r.1 < u64::MAX
                ==> ids_minted_in(r.0, counter, r.1))
        }),
    decreases size_doms(s), 1int, s.len() - j,
{
    let r = spec_process_list(s, j, counter);
    if j >= s.len() {
        assert forall|id: Seq<char>| #[trigger] id_count_nodes(r.0, id) != 0 implies (
        id_count_nodes(r.0, id) == 1 && exists|k: u64|
            counter <= k < r.1 && id == #[trigger] spec_node_id(k)) by {
            assert(id_count_nodes(r.0, id) == 0);
        }
    } else if is_el(s[j]) && el_name(s[j]) == "dt"@ {
        lemma_process_dt_ids(s, j, counter);
        let rd = spec_process_dt(s, j, counter);
        lemma_process_list_ids(s, j + 1, rd.1);
        let rest = spec_process_list(s, j + 1, rd.1);
        match rd.0 {
            Some(n) => {
                let out = seq![n] + rest.0;
                assert(out[0] == n);
                assert(out.drop_first() =~= rest.0);
                assert(size_nodes(out) == size_node(n) + size_nodes(rest.0));
                if r.1 < u64::MAX {
                    assert(rd.1 <= rest.1 < u64::MAX);
                    assert(ids_minted_in_node(n, counter, rd.1));
                    assert(ids_minted_in(rest.0, rd.1, rest.1));
                    assert forall|id: Seq<char>| #[trigger] id_count_nodes(out, id) != 0 implies (
                    id_count_nodes(out, id) == 1 && exists|k: u64|
                        counter <= k < r.1 && id == #[trigger] spec_node_id(k)) by {
                        assert(id_count_nodes(out, id) == id_count_node(n, id) + id_count_nodes(
                            rest.0,
                            id,
                        ));
                        if id_count_node(n, id) != 0 && id_count_nodes(rest.0, id) != 0 {
                            let k1 = choose|k: u64|
                                counter <= k < rd.1 && id == #[trigger] spec_node_id(k);
                            let k2 = choose|k: u64|
                                rd.1 <= k < rest.1 && id == #[trigger] spec_node_id(k);
                            lemma_node_id_injective(k1, k2);
                            assert(false);
                        }
                        if id_count_node(n, id) != 0 {
                            let k = choose|k: u64|
                                counter <= k < rd.1 && id == #[trigger] spec_node_id(k);
                            assert(counter <= k < r.1 && id == spec_node_id(k));
                        } else {
                            let k = choose|k: u64|
                                rd.1 <= k < rest.1 && id == #[trigger] spec_node_id(k);
                            assert(counter <= k < r.1 && id == spec_node_id(k));
                        }
                    }
                }
            },
            None => {
                assert(rd.1 == counter);
            },
        }
    } else {
        lemma_process_list_ids(s, j + 1, counter);
    }
}

/// Within one parse every node carries a distinct id: the synthetic root's
/// id is never minted, and the counter gives each created node its own.
/// (Stated for trees small enough that the 64-bit counter cannot
/// saturate; a parse of that size cannot be materialized anyway.)
pub proof fn lemma_parse_ids_unique(html: Seq<char>)
    requires
        size_nodes(spec_parse(html)) < u64::MAX,
    ensures
        forall|id: Seq<char>| #[trigger] id_count_nodes(spec_parse(html), id) <= 1,
{
    let doms = spec_build_dom(dom_events_of(html));
    let t = spec_parse(html);
    let kids = match find_el_in_doms(doms, "dl"@) {
        Some(dl) => spec_process_list(el_children(dl), 0, 0).0,
        None => Seq::<NodeView>::empty(),
    };
    assert(t[0].children == kids);
    assert(t[0].id == "root"@);
    assert(t.drop_first() =~= Seq::<NodeView>::empty());
    assert(size_nodes(t) == size_node(t[0]) + size_nodes(t.drop_first()));
    assert(size_nodes(t.drop_first()) == 0);
    assert(size_node(t[0]) == 1 + size_nodes(kids));
    match find_el_in_doms(doms, "dl"@) {
        Some(dl) => {
            lemma_process_list_ids(el_children(dl), 0, 0);
            let r = spec_process_list(el_children(dl), 0, 0);
            assert(r.1 <= size_nodes(kids));
            assert(r.1 < u64::MAX);
            assert(ids_minted_in(kids, 0, r.1));
            assert forall|id: Seq<char>| #[trigger] id_count_nodes(t, id) <= 1 by {
                assert(id_count_nodes(t, id) == id_count_node(t[0], id) + id_count_nodes(
                    t.drop_first(),
                    id,
                ));
                assert(id_count_nodes(t.drop_first(), id) == 0);
                assert(id_count_node(t[0], id) == (if t[0].id == id {
                    1nat
                } else {
                    0nat
                }) + id_count_nodes(kids, id));
                if id == "root"@ {
                    if id_count_nodes(kids, id) != 0 {
                        let k = choose|k: u64| 0 <= k < r.1 && id == #[trigger] spec_node_id(k);
                        lemma_node_id_not_root(k);
                        assert(false);
                    }
                }
            }
        },
        None => {
            assert forall|id: Seq<char>| #[trigger] id_count_nodes(t, id) <= 1 by {
                assert(id_count_nodes(t, id) == id_count_node(t[0], id) + id_count_nodes(
                    t.drop_first(),
                    id,
                ));
                assert(id_count_nodes(t.drop_first(), id) == 0);
                assert(id_count_nodes(kids, id) == 0);
                assert(id_count_node(t[0], id) == (if t[0].id == id {
                    1nat
                } else {
                    0nat
                }) + id_count_nodes(kids, id));
            }
        },
    }
}

fn find_el_from<'a>(s: &'a Vec<DomNode>, i: usize, name: &str) -> (r: Option<&'a DomNode>)
    requires
        i <= s@.len(),
    ensures
        ({
            let f = find_el_in_doms(doms_view(s@).subrange(i as int, s@.len() as int), name@);
            match r {
                Some(d) => f == Some(dom_view(*d)),
                None => f is None,
            }
        }),
    decreases size_doms(doms_view(s@)), 1int, s@.len() - i,
{
    let ghost vs = doms_view(s@);
    proof {
        lemma_doms_view_len(s@);
    }
    if i == s.len() {
        proof {
            assert(vs.subrange(i as int, s@.len() as int) =~= Seq::<DomView>::empty());
        }
        return None;
    }
    let ghost tail = vs.subrange(i as int, s@.len() as int);
    proof {
        lemma_doms_view_index(s@, i as int);
        assert(tail[0] == vs[i as int]);
        assert(tail.drop_first() =~= vs.subrange(i as int + 1, s@.len() as int));
        lemma_size_doms_index(vs, i as int);
        crate::dom::lemma_size_dom_open(vs[i as int]);
    }
    let d = &s[i];
    match d {
        DomNode::Text(_) => {
            proof {
                assert(dom_view(s@[i as int]) is Text);
                assert(find_el_in_dom(tail[0], name@) is None);
            }
            find_el_from(s, i + 1, name)
        },
        DomNode::Element { name: nm, children, .. } => {
            proof {
                assert(doms_view(children@) == el_children(vs[i as int]));
            }
            if str_eq(nm.as_str(), name) {
                Some(d)
            } else {
                match find_el_top(children, name) {
                    Some(f) => Some(f),
                    None => find_el_from(s, i + 1, name),
                }
            }
        },
    }
}

fn find_el_top<'a>(s: &'a Vec<DomNode>, name: &str) -> (r: Option<&'a DomNode>)
    ensures
        ({
            let f = find_el_in_doms(doms_view(s@), name@);
            match r {
                Some(d) => f == Some(dom_view(*d)),
                None => f is None,
            }
        }),
    decreases size_doms(doms_view(s@)), 1int, s@.len() + 1,
{
    let r = find_el_from(s, 0, name);
    proof {
        lemma_doms_view_len(s@);
        assert(doms_view(s@).subrange(0, s@.len() as int) =~= doms_view(s@));
    }
    r
}

fn text_append_doms(s: &Vec<DomNode>, i: usize, out: &mut String)
    requires
        i <= s@.len(),
    ensures
        final(out)@ == old(out)@ + text_of_doms(
            doms_view(s@).subrange(i as int, s@.len() as int),
        ),
    decreases size_doms(doms_view(s@)), s@.len() - i,
{
    let ghost vs = doms_view(s@);
    proof {
        lemma_doms_view_len(s@);
    }
    if i == s.len() {
        proof {
            assert(vs.subrange(i as int, s@.len() as int) =~= Seq::<DomView>::empty());
            assert(out@ =~= out@ + text_of_doms(Seq::<DomView>::empty()));
        }
        return ;
    }
    let ghost tail = vs.subrange(i as int, s@.len() as int);
    proof {
        lemma_doms_view_index(s@, i as int);
        assert(tail[0] == vs[i as int]);
        assert(tail.drop_first() =~= vs.subrange(i as int + 1, s@.len() as int));
        lemma_size_doms_index(vs, i as int);
        crate::dom::lemma_size_dom_open(vs[i as int]);
    }
    match &s[i] {
        DomNode::Text(t) => {
            out.append(t.as_str());
        },
        DomNode::Element { children, .. } => {
            proof {
                assert(doms_view(children@) == el_children(vs[i as int]));
            }
            text_append_doms(children, 0, out);
            proof {
                lemma_doms_view_len(children@);
                assert(doms_view(children@).subrange(0, children@.len() as int) =~= doms_view(
                    children@,
                ));
            }
        },
    }
    let ghost mid = out@;
    text_append_doms(s, i + 1, out);
    proof {
        assert(text_of_doms(tail) == text_of_dom(tail[0]) + text_of_doms(tail.drop_first()));
        assert(out@ =~= old(out)@ + text_of_doms(tail));
    }
}

/// All text under a node, in document order, as the node's title text.
fn text_content(d: &DomNode) -> (r: String)
    ensures
        r@ == text_of_dom(dom_view(*d)),
{
    match d {
        DomNode::Text(t) => t.clone(),
        DomNode::Element { children, .. } => {
            let mut out = String::new();
            text_append_doms(children, 0, &mut out);
            proof {
                lemma_doms_view_len(children@);
                assert(doms_view(children@).subrange(0, children@.len() as int) =~= doms_view(
                    children@,
                ));
            }
            out
        },
    }
}

fn attr_value(attrs: &Vec<(String, String)>, i: usize, name: &str) -> (r: Option<String>)
    requires
        i <= attrs@.len(),
    ensures
        crate::node::opt_view(r) == attr_from(
            crate::dom::attrs_view(attrs@),
            i as int,
            name@,
        ),
    decreases attrs@.len() - i,
{
    let ghost av = crate::dom::attrs_view(attrs@);
    proof {
        assert(av.len() == attrs@.len());
        if i < attrs@.len() {
            assert(av[i as int] == (attrs@[i as int].0@, attrs@[i as int].1@));
        }
    }
    if i == attrs.len() {
        return None;
    }
    if str_eq(attrs[i].0.as_str(), name) {
        Some(attrs[i].1.clone())
    } else {
        attr_value(attrs, i + 1, name)
    }
}

/// The value of an element's attribute, if it carries one of that name.
fn attr_of_el(d: &DomNode, name: &str) -> (r: Option<String>)
    ensures
        crate::node::opt_view(r) == attr_of(el_attrs(dom_view(*d)), name@),
{
    match d {
        DomNode::Element { attrs, .. } => attr_value(attrs, 0, name),
        DomNode::Text(_) => None,
    }
}

/// An element's date attribute, in milliseconds.
fn date_of_el(d: &DomNode) -> (r: u64)
    ensures
        r == spec_date_ms(el_attrs(dom_view(*d))),
{
    match attr_of_el(d, "add_date") {
        Some(v) => match parse_u64(v.as_str()) {
            Some(n) => {
                if n <= u64::MAX / 1000 {
                    n * 1000
                } else {
                    0
                }
            },
            None => 0,
        },
        None => 0,
    }
}

fn find_direct_dl_exec(s: &Vec<DomNode>, i: usize) -> (r: Option<usize>)
    requires
        i <= s@.len(),
    ensures
        ({
            let f = find_direct_dl(doms_view(s@), i as int);
            match r {
                Some(k) => f == Some(k as int) && k < s@.len(),
                None => f is None,
            }
        }),
    decreases s@.len() - i,
{
    let ghost vs = doms_view(s@);
    proof {
        lemma_doms_view_len(s@);
    }
    if i == s.len() {
        return None;
    }
    proof {
        lemma_doms_view_index(s@, i as int);
    }
    let hit = match &s[i] {
        DomNode::Element { name, .. } => str_eq(name.as_str(), "dl"),
        DomNode::Text(_) => false,
    };
    if hit {
        Some(i)
    } else {
        find_direct_dl_exec(s, i + 1)
    }
}

fn find_sibling_dl_exec(s: &Vec<DomNode>, i: usize) -> (r: Option<usize>)
    requires
        i <= s@.len(),
    ensures
        ({
            let f = find_sibling_dl(doms_view(s@), i as int);
            match r {
                Some(k) => f == Some(k as int) && k < s@.len(),
                None => f is None,
            }
        }),
    decreases s@.len() - i,
{
    let ghost vs = doms_view(s@);
    proof {
        lemma_doms_view_len(s@);
    }
    if i == s.len() {
        return None;
    }
    proof {
        lemma_doms_view_index(s@, i as int);
    }
    match &s[i] {
        DomNode::Element { name, .. } => {
            if str_eq(name.as_str(), "dl") {
                Some(i)
            } else if str_eq(name.as_str(), "dt") || str_eq(name.as_str(), "h3") {
                None
            } else {
                find_sibling_dl_exec(s, i + 1)
            }
        },
        DomNode::Text(_) => find_sibling_dl_exec(s, i + 1),
    }
}

fn process_dt(sibs: &Vec<DomNode>, idx: usize, counter: u64) -> (r: (Option<BookmarkNode>, u64))
    requires
        idx < sibs@.len(),
    ensures
        ({
            let sp = spec_process_dt(doms_view(sibs@), idx as int, counter);
            (match r.0 {
                Some(n) => sp.0 == Some(node_view(n)),
                None => sp.0 is None,
            }) && r.1 == sp.1
        }),
    decreases size_doms(doms_view(sibs@)), 0int, 0int,
{
    let ghost sv = doms_view(sibs@);
    // binds the vector's length so its view is known to fit in usize
    let _slen: usize = sibs.len();
    proof {
        lemma_doms_view_len(sibs@);
        lemma_doms_view_index(sibs@, idx as int);
        lemma_size_doms_index(sv, idx as int);
        crate::dom::lemma_size_dom_open(sv[idx as int]);
    }
    let kids: &Vec<DomNode> = match &sibs[idx] {
        DomNode::Element { children, .. } => children,
        DomNode::Text(_) => {
            proof {
                assert(el_children(sv[idx as int]) =~= Seq::<DomView>::empty());
                assert(find_el_in_doms(Seq::<DomView>::empty(), "h3"@) is None);
                assert(find_el_in_doms(Seq::<DomView>::empty(), "a"@) is None);
            }
            return (None, counter);
        },
    };
    proof {
        assert(doms_view(kids@) == el_children(sv[idx as int]));
    }
    match find_el_top(kids, "h3") {
        Some(h3) => {
            let title = text_content(h3);
            let ad = date_of_el(h3);
            let id = mint_id(counter);
            let c1 = bump_exec(counter);
            let dl_opt: Option<&DomNode> = match find_direct_dl_exec(kids, 0) {
                Some(k) => {
                    proof {
                        lemma_doms_view_index(kids@, k as int);
                    }
                    Some(&kids[k])
                },
                None => match find_sibling_dl_exec(sibs, idx + 1) {
                    Some(k) => {
                        proof {
                            lemma_doms_view_index(sibs@, k as int);
                        }
                        Some(&sibs[k])
                    },
                    None => None,
                },
            };
            proof {
                match dl_opt {
                    Some(d) => {
                        assert(folder_dl(sv, idx as int) == Some(dom_view(*d)));
                    },
                    None => {
                        assert(folder_dl(sv, idx as int) is None);
                    },
                }
            }
            let (kid_nodes, c2): (Vec<BookmarkNode>, u64) = match dl_opt {
                Some(dl) => {
                    match dl {
                        DomNode::Element { children: dl_kids, .. } => {
                            proof {
                                assert(doms_view(dl_kids@) == el_children(dom_view(*dl)));
                                lemma_fold_dl_size(sv, idx as int);
                            }
                            process_list(dl_kids, 0, c1)
                        },
                        DomNode::Text(_) => {
                            proof {
                                assert(el_children(dom_view(*dl)) =~= Seq::<DomView>::empty());
                            }
                            (Vec::new(), c1)
                        },
                    }
                },
                None => (Vec::new(), c1),
            };
            let node = BookmarkNode {
                id,
                title,
                url: None,
                add_date: ad,
                last_modified: ad,
                icon: None,
                tags: Vec::new(),
                is_duplicate: false,
                children: kid_nodes,
            };
            proof {
                assert(tags_view(node.tags@) =~= Seq::<Seq<char>>::empty());
                assert(nodes_view(Seq::<BookmarkNode>::empty()) =~= Seq::<NodeView>::empty());
                assert(node_view(node) == spec_process_dt(sv, idx as int, counter).0.unwrap());
            }
            (Some(node), c2)
        },
        None => {
            match find_el_top(kids, "a") {
                Some(a) => {
                    let title = text_content(a);
                    let url = attr_of_el(a, "href");
                    let ad = date_of_el(a);
                    let icon = attr_of_el(a, "icon");
                    let id = mint_id(counter);
                    let c1 = bump_exec(counter);
                    let node = BookmarkNode {
                        id,
                        title,
                        url,
                        add_date: ad,
                        last_modified: ad,
                        icon,
                        tags: Vec::new(),
                        is_duplicate: false,
                        children: Vec::new(),
                    };
                    proof {
                        assert(tags_view(node.tags@) =~= Seq::<Seq<char>>::empty());
                        assert(nodes_view(node.children@) =~= Seq::<NodeView>::empty());
                        assert(node_view(node) == spec_process_dt(sv, idx as int, counter).0.unwrap());
                    }
                    (Some(node), c1)
                },
                None => (None, counter),
            }
        },
    }
}

proof fn lemma_fold_dl_size(sv: Seq<DomView>, idx: int)
    requires
        0 <= idx < sv.len(),
        folder_dl(sv, idx) is Some,
    ensures
        size_doms(el_children(folder_dl(sv, idx).unwrap())) < size_doms(sv),
{
    let el = sv[idx];
    lemma_size_doms_index(sv, idx);
    crate::dom::lemma_size_dom_open(el);
    match find_direct_dl(el_children(el), 0) {
        Some(k) => {
            lemma_find_direct_dl_range(el_children(el), 0);
            lemma_size_doms_index(el_children(el), k);
            crate::dom::lemma_size_dom_open(el_children(el)[k]);
        },
        None => {
            match find_sibling_dl(sv, idx + 1) {
                Some(k) => {
                    lemma_find_sibling_dl_range(sv, idx + 1);
                    lemma_size_doms_index(sv, k);
                    crate::dom::lemma_size_dom_open(sv[k]);
                },
                None => {
                },
            }
        },
    }
}

fn process_list(s: &Vec<DomNode>, j: usize, counter: u64) -> (r: (Vec<BookmarkNode>, u64))
    requires
        j <= s@.len(),
    ensures
        ({
            let sp = spec_process_list(doms_view(s@), j as int, counter);
            nodes_view(r.0@) == sp.0 && r.1 == sp.1
        }),
    decreases size_doms(doms_view(s@)), 1int, s@.len() - j,
{
    let ghost vs = doms_view(s@);
    proof {
        lemma_doms_view_len(s@);
    }
    if j == s.len() {
        proof {
            assert(nodes_view(Seq::<BookmarkNode>::empty()) =~= Seq::<NodeView>::empty());
        }
        return (Vec::new(), counter);
    }
    proof {
        lemma_doms_view_index(s@, j as int);
    }
    let is_dt = match &s[j] {
        DomNode::Element { name, .. } => str_eq(name.as_str(), "dt"),
        DomNode::Text(_) => false,
    };
    if is_dt {
        let (n_opt, c1) = process_dt(s, j, counter);
        let (mut rest, c2) = process_list(s, j + 1, c1);
        match n_opt {
            Some(n) => {
                let ghost mid = rest@;
                rest.insert(0, n);
                proof {
                    lemma_nodes_view_insert_front(mid, n);
                }
                (rest, c2)
            },
            None => (rest, c2),
        }
    } else {
        process_list(s, j + 1, counter)
    }
}

/// Parse a bookmark export: tokenize the markup tolerantly, find the
/// outermost list, turn its items into folders and bookmarks under both
/// nesting dialects, and wrap everything under one synthetic root.
pub fn parse_html(html: &str) -> (r: Vec<BookmarkNode>)
    ensures
        nodes_view(r@) == spec_parse(html@),
{
    let events = dom_events(html);
    let dom = build_dom(&events);
    proof {
        assert(doms_view(dom@) == spec_build_dom(dom_events_of(html@)));
    }
    let kids: Vec<BookmarkNode> = match find_el_top(&dom, "dl") {
        Some(d) => {
            match d {
                DomNode::Element { children, .. } => {
                    proof {
                        assert(doms_view(children@) == el_children(dom_view(*d)));
                    }
                    let (ks, _c) = process_list(children, 0, 0);
                    ks
                },
                DomNode::Text(_) => {
                    proof {
                        assert(el_children(dom_view(*d)) =~= Seq::<DomView>::empty());
                    }
                    Vec::new()
                },
            }
        },
        None => Vec::new(),
    };
    let root = BookmarkNode {
        id: "root".to_owned(),
        title: "Bookmarks".to_owned(),
        url: None,
        add_date: 0,
        last_modified: 0,
        icon: None,
        tags: Vec::new(),
        is_duplicate: false,
        children: kids,
    };
    let mut out: Vec<BookmarkNode> = Vec::new();
    proof {
        assert(tags_view(root.tags@) =~= Seq::<Seq<char>>::empty());
    }
    out.push(root);
    proof {
        assert(out@.len() == 1);
        assert(out@[0] == root);
        assert(out@.drop_first() =~= Seq::<BookmarkNode>::empty());
        assert(nodes_view(out@.drop_first()) == Seq::<NodeView>::empty());
        assert(nodes_view(out@) =~= seq![node_view(root)]);
        assert(nodes_view(out@) =~= spec_parse(html@));
    }
    out
}

} // verus!
