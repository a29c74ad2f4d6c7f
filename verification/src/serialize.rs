use vstd::prelude::*;

verus! {

use crate::node::BookmarkNode;
use crate::node::NodeView;
use crate::node::node_view;
use crate::node::nodes_view;
use crate::node::size_node;
use crate::node::size_nodes;
use crate::node::flatten_nodes;
use crate::node::lemma_size_nodes_index;
use crate::node::lemma_nodes_view_index;
use crate::node::lemma_nodes_view_len;
use crate::ops::collect_all_nodes;
use crate::strutil::spec_dec;
use crate::strutil::u64_to_dec;
use vstd::string::StrSliceExecFns;
use vstd::string::StringExecFns;

/// `unit` repeated `n` times.
pub open spec fn spec_repeat(n: nat, unit: Seq<char>) -> Seq<char>
    decreases n,
{
    if n == 0 {
        Seq::empty()
    } else {
        spec_repeat((n - 1) as nat, unit) + unit
    }
}

fn make_repeat(unit: &str, n: usize) -> (r: String)
    ensures
        r@ == spec_repeat(n as nat, unit@),
{
    let mut out = String::new();
    let mut i: usize = 0;
    proof {
        assert(out@ =~= spec_repeat(0, unit@));
    }
    while i < n
        invariant
            i <= n,
            out@ == spec_repeat(i as nat, unit@),
        decreases n - i,
    {
        out.append(unit);
        i += 1;
    }
    out
}

/// Double quotes doubled, nothing else changed.
pub open spec fn csv_escape(s: Seq<char>) -> Seq<char>
    decreases s.len(),
{
    if s.len() == 0 {
        s
    } else {
        csv_escape(s.drop_last()) + (if s.last() == '"' {
            seq!['"', '"']
        } else {
            seq![s.last()]
        })
    }
}

fn csv_escape_exec(s: &str) -> (r: String)
    ensures
        r@ == csv_escape(s@),
{
    let len = s.unicode_len();
    let mut out = String::new();
    let mut i: usize = 0;
    proof {
        assert(s@.take(0) =~= Seq::<char>::empty());
        assert(out@ =~= csv_escape(s@.take(0)));
    }
    while i < len
        invariant
            i <= len,
            len == s@.len(),
            out@ == csv_escape(s@.take(i as int)),
        decreases len - i,
    {
        let c = s.get_char(i);
        proof {
            assert(s@.take(i as int + 1).drop_last() =~= s@.take(i as int));
            assert(s@.take(i as int + 1).last() == s@[i as int]);
        }
        if c == '"' {
            out.append("\"\"");
            proof {
                reveal_strlit("\"\"");
                assert("\"\""@ =~= seq!['"', '"']);
            }
        } else {
            let piece = s.substring_char(i, i + 1);
            out.append(piece);
            proof {
                assert(piece@ =~= seq![s@[i as int]]);
            }
        }
        i += 1;
    }
    proof {
        assert(s@.take(len as int) =~= s@);
    }
    out
}

/// Tags joined by `;`.
pub open spec fn join_tags(tags: Seq<Seq<char>>) -> Seq<char>
    decreases tags.len(),
{
    if tags.len() == 0 {
        Seq::empty()
    } else if tags.len() == 1 {
        tags[0]
    } else {
        join_tags(tags.drop_last()) + seq![';'] + tags.last()
    }
}

fn join_tags_exec(tags: &Vec<String>) -> (r: String)
    ensures
        r@ == join_tags(crate::node::tags_view(tags@)),
{
    let ghost tv = crate::node::tags_view(tags@);
    let mut out = String::new();
    let mut i: usize = 0;
    proof {
        assert(tv.take(0) =~= Seq::<Seq<char>>::empty());
        assert(out@ =~= join_tags(tv.take(0)));
    }
    while i < tags.len()
        invariant
            i <= tags@.len(),
            tv == crate::node::tags_view(tags@),
            tv.len() == tags@.len(),
            out@ == join_tags(tv.take(i as int)),
        decreases tags@.len() - i,
    {
        proof {
            assert(tv.take(i as int + 1).drop_last() =~= tv.take(i as int));
            assert(tv.take(i as int + 1).last() == tv[i as int]);
            assert(tv[i as int] == tags@[i as int]@);
        }
        if i > 0 {
            out.append(";");
            proof {
                reveal_strlit(";");
                assert(";"@ =~= seq![';']);
            }
        } else {
            proof {
                assert(tv.take(1)[0] == tv[0]);
            }
        }
        out.append(tags[i].as_str());
        i += 1;
    }
    proof {
        assert(tv.take(tags@.len() as int) =~= tv);
    }
    out
}

/// One CSV record: quoted title with doubled quotes, the url (empty for a
/// folder), the raw add date, tags joined by `;`, and the node's kind.
pub open spec fn csv_row(n: NodeView) -> Seq<char> {
    seq!['"'] + csv_escape(n.title) + "\",\""@ + (match n.url {
        Some(u) => u,
        None => Seq::<char>::empty(),
    }) + "\","@ + spec_dec(n.add_date as nat) + ",\""@ + join_tags(n.tags) + "\",\""@ + (match n.url {
        Some(_) => "Bookmark"@,
        None => "Folder"@,
    }) + "\"\n"@
}

pub open spec fn csv_rows(flat: Seq<NodeView>) -> Seq<char>
    decreases flat,
{
    if flat.len() == 0 {
        Seq::empty()
    } else {
        csv_row(flat[0]) + csv_rows(flat.drop_first())
    }
}

pub proof fn lemma_csv_rows_append(a: Seq<NodeView>, b: Seq<NodeView>)
    ensures
        csv_rows(a + b) == csv_rows(a) + csv_rows(b),
    decreases a,
{
    if a.len() == 0 {
        assert(a + b =~= b);
        assert(csv_rows(a) + csv_rows(b) =~= csv_rows(b));
    } else {
        lemma_csv_rows_append(a.drop_first(), b);
        assert((a + b)[0] == a[0]);
        assert((a + b).drop_first() =~= a.drop_first() + b);
        assert(csv_rows(a + b) =~= csv_rows(a) + csv_rows(b));
    }
}

/// The whole CSV text: the fixed header, then one row per flattened node,
/// pre-order, folders included. The header stands even for an empty tree.
pub open spec fn spec_csv(s: Seq<NodeView>) -> Seq<char> {
    "Title,URL,Add Date,Tags,Type\n"@ + csv_rows(flatten_nodes(s))
}

fn csv_row_exec(n: &BookmarkNode) -> (r: String)
    ensures
        r@ == csv_row(node_view(*n)),
{
    let mut out = String::from_str("\"");
    let esc = csv_escape_exec(n.title.as_str());
    out.append(esc.as_str());
    out.append("\",\"");
    match &n.url {
        Some(u) => {
            out.append(u.as_str());
        },
        None => {
        },
    }
    out.append("\",");
    let d = u64_to_dec(n.add_date);
    out.append(d.as_str());
    out.append(",\"");
    let tj = join_tags_exec(&n.tags);
    out.append(tj.as_str());
    out.append("\",\"");
    match &n.url {
        Some(_) => {
            out.append("Bookmark");
        },
        None => {
            out.append("Folder");
        },
    }
    out.append("\"\n");
    proof {
        reveal_strlit("\"");
        assert("\""@ =~= seq!['"']);
        assert(out@ =~= csv_row(node_view(*n)));
    }
    out
}

/// Serialize the tree as CSV: header row always present, one row per node
/// of the flattened tree.
pub fn serialize_to_csv(nodes: &Vec<BookmarkNode>) -> (r: String)
    ensures
        r@ == spec_csv(nodes_view(nodes@)),
{
    let mut flat: Vec<BookmarkNode> = Vec::new();
    collect_all_nodes(nodes, &mut flat);
    proof {
        assert(nodes_view(flat@) =~= flatten_nodes(nodes_view(nodes@)));
    }
    let ghost fv = nodes_view(flat@);
    let mut out = String::from_str("Title,URL,Add Date,Tags,Type\n");
    let ghost header = "Title,URL,Add Date,Tags,Type\n"@;
    let mut k: usize = 0;
    proof {
        lemma_nodes_view_len(flat@);
        assert(fv.take(0) =~= Seq::<NodeView>::empty());
        assert(out@ =~= header + csv_rows(fv.take(0)));
    }
    while k < flat.len()
        invariant
            k <= flat@.len(),
            fv == nodes_view(flat@),
            fv.len() == flat@.len(),
            fv == flatten_nodes(nodes_view(nodes@)),
            header == "Title,URL,Add Date,Tags,Type\n"@,
            out@ == header + csv_rows(fv.take(k as int)),
        decreases flat@.len() - k,
    {
        proof {
            lemma_nodes_view_index(flat@, k as int);
            let pre = fv.take(k as int);
            let one = seq![fv[k as int]];
            assert(fv.take(k as int + 1) =~= pre + one);
            lemma_csv_rows_append(pre, one);
            assert(one.drop_first() =~= Seq::<NodeView>::empty());
            assert(csv_rows(one.drop_first()) == Seq::<char>::empty());
            assert(one[0] == fv[k as int]);
            assert(csv_rows(one) =~= csv_row(fv[k as int]));
        }
        let row = csv_row_exec(&flat[k]);
        out.append(row.as_str());
        proof {
            assert(out@ =~= header + csv_rows(fv.take(k as int + 1)));
        }
        k += 1;
    }
    proof {
        assert(fv.take(flat@.len() as int) =~= fv);
    }
    out
}

/// The Netscape bookmark file boilerplate that precedes the tree.
pub open spec fn html_header() -> Seq<char> {
    "<!DOCTYPE NETSCAPE-Bookmark-file-1>\n"@
        + "<META HTTP-EQUIV=\"Content-Type\" CONTENT=\"text/html; charset=UTF-8\">\n"@
        + "<TITLE>Bookmarks</TITLE>\n"@ + "<H1>Bookmarks</H1>\n<DL><p>\n"@
}

pub open spec fn html_nodes(s: Seq<NodeView>, ind: nat) -> Seq<char>
    decreases s, 1int,
{
    if s.len() == 0 {
        Seq::empty()
    } else {
        html_node(s[0], ind) + html_nodes(s.drop_first(), ind)
    }
}

/// A folder becomes a heading plus a nested list; a bookmark becomes a
/// link with its href, its add date in seconds, and its icon if any.
pub open spec fn html_node(n: NodeView, ind: nat) -> Seq<char>
    decreases n, 0int,
{
    let pad = spec_repeat(ind, "    "@);
    match n.url {
        None => pad + "<DT><H3 ADD_DATE=\""@ + spec_dec((n.add_date / 1000) as nat) + "\">"@
            + n.title + "</H3>\n"@ + pad + "<DL><p>\n"@ + html_nodes(n.children, ind + 1) + pad
            + "</DL><p>\n"@,
        Some(u) => pad + "<DT><A HREF=\""@ + u + "\" ADD_DATE=\""@ + spec_dec(
            (n.add_date / 1000) as nat,
        ) + "\""@ + (match n.icon {
            Some(ic) => " ICON=\""@ + ic + "\""@,
            None => Seq::<char>::empty(),
        }) + ">"@ + n.title + "</A>\n"@,
    }
}

/// The whole Netscape-dialect document: boilerplate, the tree at one
/// indent level, and the closing list tag.
pub open spec fn spec_html(s: Seq<NodeView>) -> Seq<char> {
    html_header() + html_nodes(s, 1) + "</DL><p>\n"@
}

#[verifier::rlimit(80)]
fn html_write_from(nodes: &Vec<BookmarkNode>, i: usize, ind: usize, out: &mut String)
    requires
        i <= nodes@.len(),
        ind + size_nodes(nodes_view(nodes@)) <= usize::MAX,
    ensures
        final(out)@ == old(out)@ + html_nodes(
            nodes_view(nodes@).subrange(i as int, nodes@.len() as int),
            ind as nat,
        ),
    decreases size_nodes(nodes_view(nodes@)), nodes@.len() - i,
{
    let ghost vs = nodes_view(nodes@);
    proof {
        lemma_nodes_view_len(nodes@);
    }
    if i == nodes.len() {
        proof {
            assert(vs.subrange(i as int, nodes@.len() as int) =~= Seq::<NodeView>::empty());
            assert(out@ =~= out@ + html_nodes(Seq::<NodeView>::empty(), ind as nat));
        }
        return ;
    }
    let ghost tail = vs.subrange(i as int, nodes@.len() as int);
    proof {
        lemma_nodes_view_index(nodes@, i as int);
        assert(tail[0] == vs[i as int]);
        assert(tail.drop_first() =~= vs.subrange(i as int + 1, nodes@.len() as int));
        lemma_size_nodes_index(vs, i as int);
        assert(size_node(vs[i as int]) == 1 + size_nodes(vs[i as int].children));
        assert(nodes_view(nodes@[i as int].children@) == vs[i as int].children);
    }
    let n = &nodes[i];
    let pad = make_repeat("    ", ind);
    let d = u64_to_dec(n.add_date / 1000);
    match &n.url {
        None => {
            out.append(pad.as_str());
            out.append("<DT><H3 ADD_DATE=\"");
            out.append(d.as_str());
            out.append("\">");
            out.append(n.title.as_str());
            out.append("</H3>\n");
            out.append(pad.as_str());
            out.append("<DL><p>\n");
            html_write_from(&n.children, 0, ind + 1, out);
            out.append(pad.as_str());
            out.append("</DL><p>\n");
            proof {
                lemma_nodes_view_len(n.children@);
                assert(nodes_view(n.children@).subrange(
                    0,
                    n.children@.len() as int,
                ) =~= vs[i as int].children);
                assert(out@ =~= old(out)@ + html_node(vs[i as int], ind as nat));
            }
        },
        Some(u) => {
            out.append(pad.as_str());
            out.append("<DT><A HREF=\"");
            out.append(u.as_str());
            out.append("\" ADD_DATE=\"");
            out.append(d.as_str());
            out.append("\"");
            match &n.icon {
                Some(ic) => {
                    out.append(" ICON=\"");
                    out.append(ic.as_str());
                    out.append("\"");
                },
                None => {
                },
            }
            out.append(">");
            out.append(n.title.as_str());
            out.append("</A>\n");
            proof {
                assert(out@ =~= old(out)@ + html_node(vs[i as int], ind as nat));
            }
        },
    }
    let ghost mid = out@;
    html_write_from(nodes, i + 1, ind, out);
    proof {
        assert(html_nodes(tail, ind as nat) == html_node(tail[0], ind as nat) + html_nodes(
            tail.drop_first(),
            ind as nat,
        ));
        assert(out@ =~= old(out)@ + html_nodes(tail, ind as nat));
    }
}

/// Serialize the tree back into the Netscape bookmark dialect, add dates
/// re-emitted in seconds, indentation fixed and deterministic.
pub fn serialize_to_html(nodes: &Vec<BookmarkNode>) -> (r: String)
    requires
        size_nodes(nodes_view(nodes@)) + 1 <= usize::MAX,
    ensures
        r@ == spec_html(nodes_view(nodes@)),
{
    let mut out = String::from_str("<!DOCTYPE NETSCAPE-Bookmark-file-1>\n");
    out.append("<META HTTP-EQUIV=\"Content-Type\" CONTENT=\"text/html; charset=UTF-8\">\n");
    out.append("<TITLE>Bookmarks</TITLE>\n");
    out.append("<H1>Bookmarks</H1>\n<DL><p>\n");
    proof {
        assert(out@ =~= html_header());
    }
    html_write_from(nodes, 0, 1, &mut out);
    proof {
        lemma_nodes_view_len(nodes@);
        assert(nodes_view(nodes@).subrange(0, nodes@.len() as int) =~= nodes_view(nodes@));
    }
    out.append("</DL><p>\n");
    proof {
        assert(out@ =~= spec_html(nodes_view(nodes@)));
    }
    out
}

/// A folder becomes a heading whose level is its depth plus two; a
/// bookmark becomes a link list item indented two spaces per depth.
pub open spec fn md_nodes(s: Seq<NodeView>, depth: nat) -> Seq<char>
    decreases s, 1int,
{
    if s.len() == 0 {
        Seq::empty()
    } else {
        md_node(s[0], depth) + md_nodes(s.drop_first(), depth)
    }
}

pub open spec fn md_node(n: NodeView, depth: nat) -> Seq<char>
    decreases n, 0int,
{
    match n.url {
        None => spec_repeat(depth + 2, "#"@) + " "@ + n.title + "\n\n"@ + md_nodes(
            n.children,
            depth + 1,
        ),
        Some(u) => spec_repeat(depth, "  "@) + "- ["@ + n.title + "]("@ + u + ")\n"@,
    }
}

pub open spec fn spec_markdown(s: Seq<NodeView>) -> Seq<char> {
    "# Bookmarks\n\n"@ + md_nodes(s, 0)
}

#[verifier::rlimit(80)]
fn md_write_from(nodes: &Vec<BookmarkNode>, i: usize, depth: usize, out: &mut String)
    requires
        i <= nodes@.len(),
        depth + 2 + size_nodes(nodes_view(nodes@)) <= usize::MAX,
    ensures
        final(out)@ == old(out)@ + md_nodes(
            nodes_view(nodes@).subrange(i as int, nodes@.len() as int),
            depth as nat,
        ),
    decreases size_nodes(nodes_view(nodes@)), nodes@.len() - i,
{
    let ghost vs = nodes_view(nodes@);
    proof {
        lemma_nodes_view_len(nodes@);
    }
    if i == nodes.len() {
        proof {
            assert(vs.subrange(i as int, nodes@.len() as int) =~= Seq::<NodeView>::empty());
            assert(out@ =~= out@ + md_nodes(Seq::<NodeView>::empty(), depth as nat));
        }
        return ;
    }
    let ghost tail = vs.subrange(i as int, nodes@.len() as int);
    proof {
        lemma_nodes_view_index(nodes@, i as int);
        assert(tail[0] == vs[i as int]);
        assert(tail.drop_first() =~= vs.subrange(i as int + 1, nodes@.len() as int));
        lemma_size_nodes_index(vs, i as int);
        assert(size_node(vs[i as int]) == 1 + size_nodes(vs[i as int].children));
        assert(nodes_view(nodes@[i as int].children@) == vs[i as int].children);
    }
    let n = &nodes[i];
    match &n.url {
        None => {
            let hashes = make_repeat("#", depth + 2);
            out.append(hashes.as_str());
            out.append(" ");
            out.append(n.title.as_str());
            out.append("\n\n");
            md_write_from(&n.children, 0, depth + 1, out);
            proof {
                lemma_nodes_view_len(n.children@);
                assert(nodes_view(n.children@).subrange(
                    0,
                    n.children@.len() as int,
                ) =~= vs[i as int].children);
                assert(out@ =~= old(out)@ + md_node(vs[i as int], depth as nat));
            }
        },
        Some(u) => {
            let pad = make_repeat("  ", depth);
            out.append(pad.as_str());
            out.append("- [");
            out.append(n.title.as_str());
            out.append("](");
            out.append(u.as_str());
            out.append(")\n");
            proof {
                assert(out@ =~= old(out)@ + md_node(vs[i as int], depth as nat));
            }
        },
    }
    md_write_from(nodes, i + 1, depth, out);
    proof {
        assert(md_nodes(tail, depth as nat) == md_node(tail[0], depth as nat) + md_nodes(
            tail.drop_first(),
            depth as nat,
        ));
        assert(out@ =~= old(out)@ + md_nodes(tail, depth as nat));
    }
}

/// Serialize the tree as Markdown: a fixed top heading, folder headings by
/// depth, bookmarks as indented link list items.
pub fn serialize_to_markdown(nodes: &Vec<BookmarkNode>) -> (r: String)
    requires
        size_nodes(nodes_view(nodes@)) + 2 <= usize::MAX,
    ensures
        r@ == spec_markdown(nodes_view(nodes@)),
{
    let mut out = String::from_str("# Bookmarks\n\n");
    md_write_from(nodes, 0, 0, &mut out);
    proof {
        lemma_nodes_view_len(nodes@);
        assert(nodes_view(nodes@).subrange(0, nodes@.len() as int) =~= nodes_view(nodes@));
        assert(out@ =~= spec_markdown(nodes_view(nodes@)));
    }
    out
}

pub open spec fn hex_digit(d: nat) -> char {
    if d == 0 {
        '0'
    } else if d == 1 {
        '1'
    } else if d == 2 {
        '2'
    } else if d == 3 {
        '3'
    } else if d == 4 {
        '4'
    } else if d == 5 {
        '5'
    } else if d == 6 {
        '6'
    } else if d == 7 {
        '7'
    } else if d == 8 {
        '8'
    } else if d == 9 {
        '9'
    } else if d == 10 {
        'a'
    } else if d == 11 {
        'b'
    } else if d == 12 {
        'c'
    } else if d == 13 {
        'd'
    } else if d == 14 {
        'e'
    } else {
        'f'
    }
}

/// JSON string escaping: quote, backslash and the common control
/// characters by name, any other control character as `\u00XX`.
pub open spec fn json_escape_char(c: char) -> Seq<char> {
    if c == '"' {
        seq!['\\', '"']
    } else if c == '\\' {
        seq!['\\', '\\']
    } else if c == '\n' {
        seq!['\\', 'n']
    } else if c == '\r' {
        seq!['\\', 'r']
    } else if c == '\t' {
        seq!['\\', 't']
    } else if (c as u32) < 32 {
        seq!['\\', 'u', '0', '0', hex_digit(((c as u32) / 16) as nat), hex_digit(
            ((c as u32) % 16) as nat,
        )]
    } else {
        seq![c]
    }
}

pub open spec fn json_escape(s: Seq<char>) -> Seq<char>
    decreases s.len(),
{
    if s.len() == 0 {
        Seq::empty()
    } else {
        json_escape(s.drop_last()) + json_escape_char(s.last())
    }
}

fn hex_digit_str(d: u32) -> (r: &'static str)
    requires
        d < 16,
    ensures
        r@ == seq![hex_digit(d as nat)],
{
    let s = match d {
        0 => "0",
        1 => "1",
        2 => "2",
        3 => "3",
        4 => "4",
        5 => "5",
        6 => "6",
        7 => "7",
        8 => "8",
        9 => "9",
        10 => "a",
        11 => "b",
        12 => "c",
        13 => "d",
        14 => "e",
        _ => "f",
    };
    proof {
        reveal_strlit("0");
        reveal_strlit("1");
        reveal_strlit("2");
        reveal_strlit("3");
        reveal_strlit("4");
        reveal_strlit("5");
        reveal_strlit("6");
        reveal_strlit("7");
        reveal_strlit("8");
        reveal_strlit("9");
        reveal_strlit("a");
        reveal_strlit("b");
        reveal_strlit("c");
        reveal_strlit("d");
        reveal_strlit("e");
        reveal_strlit("f");
        assert(s@ =~= seq![hex_digit(d as nat)]);
    }
    s
}

#[verifier::rlimit(80)]
fn json_escape_exec(s: &str) -> (r: String)
    ensures
        r@ == json_escape(s@),
{
    let len = s.unicode_len();
    let mut out = String::new();
    let mut i: usize = 0;
    proof {
        assert(s@.take(0) =~= Seq::<char>::empty());
        assert(out@ =~= json_escape(s@.take(0)));
    }
    while i < len
        invariant
            i <= len,
            len == s@.len(),
            out@ == json_escape(s@.take(i as int)),
        decreases len - i,
    {
        let c = s.get_char(i);
        proof {
            assert(s@.take(i as int + 1).drop_last() =~= s@.take(i as int));
            assert(s@.take(i as int + 1).last() == s@[i as int]);
        }
        if c == '"' {
            out.append("\\\"");
            proof {
                reveal_strlit("\\\"");
                assert("\\\""@ =~= json_escape_char(c));
            }
        } else if c == '\\' {
            out.append("\\\\");
            proof {
                reveal_strlit("\\\\");
                assert("\\\\"@ =~= json_escape_char(c));
            }
        } else if c == '\n' {
            out.append("\\n");
            proof {
                reveal_strlit("\\n");
                assert("\\n"@ =~= json_escape_char(c));
            }
        } else if c == '\r' {
            out.append("\\r");
            proof {
                reveal_strlit("\\r");
                assert("\\r"@ =~= json_escape_char(c));
            }
        } else if c == '\t' {
            out.append("\\t");
            proof {
                reveal_strlit("\\t");
                assert("\\t"@ =~= json_escape_char(c));
            }
        } else if (c as u32) < 32 {
            out.append("\\u00");
            let hi = hex_digit_str((c as u32) / 16);
            out.append(hi);
            let lo = hex_digit_str((c as u32) % 16);
            out.append(lo);
            proof {
                reveal_strlit("\\u00");
                assert("\\u00"@ + hi@ + lo@ =~= json_escape_char(c));
            }
        } else {
            let piece = s.substring_char(i, i + 1);
            out.append(piece);
            proof {
                assert(piece@ =~= seq![s@[i as int]]);
                assert(piece@ =~= json_escape_char(c));
            }
        }
        i += 1;
    }
    proof {
        assert(s@.take(len as int) =~= s@);
    }
    out
}

pub open spec fn json_string(s: Seq<char>) -> Seq<char> {
    seq!['"'] + json_escape(s) + seq!['"']
}

pub open spec fn json_opt_string(o: Option<Seq<char>>) -> Seq<char> {
    match o {
        Some(s) => json_string(s),
        None => "null"@,
    }
}

fn json_string_exec(s: &str) -> (r: String)
    ensures
        r@ == json_string(s@),
{
    let mut out = String::from_str("\"");
    let esc = json_escape_exec(s);
    out.append(esc.as_str());
    out.append("\"");
    proof {
        reveal_strlit("\"");
        assert("\""@ =~= seq!['"']);
        assert(out@ =~= json_string(s@));
    }
    out
}

/// The tag array's contents: escaped strings joined by `, `.
pub open spec fn json_tag_list(tags: Seq<Seq<char>>) -> Seq<char>
    decreases tags.len(),
{
    if tags.len() == 0 {
        Seq::empty()
    } else if tags.len() == 1 {
        json_string(tags[0])
    } else {
        json_tag_list(tags.drop_last()) + ", "@ + json_string(tags.last())
    }
}

fn json_tag_list_exec(tags: &Vec<String>) -> (r: String)
    ensures
        r@ == json_tag_list(crate::node::tags_view(tags@)),
{
    let ghost tv = crate::node::tags_view(tags@);
    let mut out = String::new();
    let mut i: usize = 0;
    proof {
        assert(tv.take(0) =~= Seq::<Seq<char>>::empty());
        assert(out@ =~= json_tag_list(tv.take(0)));
    }
    while i < tags.len()
        invariant
            i <= tags@.len(),
            tv == crate::node::tags_view(tags@),
            tv.len() == tags@.len(),
            out@ == json_tag_list(tv.take(i as int)),
        decreases tags@.len() - i,
    {
        proof {
            assert(tv.take(i as int + 1).drop_last() =~= tv.take(i as int));
            assert(tv.take(i as int + 1).last() == tv[i as int]);
            assert(tv[i as int] == tags@[i as int]@);
        }
        if i > 0 {
            out.append(", ");
        } else {
            proof {
                assert(tv.take(1)[0] == tv[0]);
            }
        }
        let js = json_string_exec(tags[i].as_str());
        out.append(js.as_str());
        i += 1;
    }
    proof {
        assert(tv.take(tags@.len() as int) =~= tv);
    }
    out
}

/// The first half of a node's JSON object: the brace and the scalar
/// string and date fields.
pub open spec fn json_node_head(n: NodeView, ind: nat) -> Seq<char> {
    let p = spec_repeat(ind, "  "@);
    let q = spec_repeat(ind + 1, "  "@);
    p + "{\n"@ + q + "\"id\": "@ + json_string(n.id) + ",\n"@ + q + "\"title\": "@ + json_string(
        n.title,
    ) + ",\n"@ + q + "\"url\": "@ + json_opt_string(n.url) + ",\n"@ + q + "\"addDate\": "@
        + spec_dec(n.add_date as nat) + ",\n"@ + q + "\"lastModified\": "@ + spec_dec(
        n.last_modified as nat,
    ) + ",\n"@ + q + "\"icon\": "@ + json_opt_string(n.icon) + ",\n"@
}

/// The middle of a node's JSON object: tags and the duplicate flag, up to
/// the children key.
pub open spec fn json_node_mid(n: NodeView, ind: nat) -> Seq<char> {
    let q = spec_repeat(ind + 1, "  "@);
    q + "\"tags\": ["@ + json_tag_list(n.tags) + "],\n"@ + q + "\"isDuplicate\": "@ + (
    if n.is_duplicate {
        "true"@
    } else {
        "false"@
    }) + ",\n"@ + q + "\"children\": "@
}

/// One node as a pretty-printed JSON object: every field, the external
/// camel-cased names, two-space indentation.
pub open spec fn json_node(n: NodeView, ind: nat) -> Seq<char>
    decreases n, 2int,
{
    let p = spec_repeat(ind, "  "@);
    json_node_head(n, ind) + json_node_mid(n, ind) + json_nodes(n.children, ind + 1) + "\n"@ + p
        + "}"@
}

/// A forest as a JSON array: `[]` when empty, otherwise one object per
/// node, separated by commas, closed at the array's own indent.
pub open spec fn json_nodes(s: Seq<NodeView>, ind: nat) -> Seq<char>
    decreases s, 1int,
{
    if s.len() == 0 {
        "[]"@
    } else {
        "[\n"@ + json_items(s, ind) + "\n"@ + spec_repeat(ind, "  "@) + "]"@
    }
}

pub open spec fn json_items(s: Seq<NodeView>, ind: nat) -> Seq<char>
    decreases s, 0int,
    when s.len() >= 1
{
    json_node(s[0], ind + 1) + (if s.len() == 1 {
        Seq::<char>::empty()
    } else {
        ",\n"@ + json_items(s.drop_first(), ind)
    })
}

/// The whole tree as pretty-printed JSON.
pub open spec fn spec_json(s: Seq<NodeView>) -> Seq<char> {
    json_nodes(s, 0)
}

#[verifier::rlimit(80)]
fn json_head_exec(n: &BookmarkNode, ind: usize) -> (r: String)
    requires
        ind + 1 <= usize::MAX,
    ensures
        r@ == json_node_head(node_view(*n), ind as nat),
{
    let p = make_repeat("  ", ind);
    let q = make_repeat("  ", ind + 1);
    let mut out = String::new();
    out.append(p.as_str());
    out.append("{\n");
    out.append(q.as_str());
    out.append("\"id\": ");
    let js_id = json_string_exec(n.id.as_str());
    out.append(js_id.as_str());
    out.append(",\n");
    out.append(q.as_str());
    out.append("\"title\": ");
    let js_title = json_string_exec(n.title.as_str());
    out.append(js_title.as_str());
    out.append(",\n");
    out.append(q.as_str());
    out.append("\"url\": ");
    match &n.url {
        Some(u) => {
            let js_u = json_string_exec(u.as_str());
            out.append(js_u.as_str());
        },
        None => {
            out.append("null");
        },
    }
    out.append(",\n");
    out.append(q.as_str());
    out.append("\"addDate\": ");
    let d1 = u64_to_dec(n.add_date);
    out.append(d1.as_str());
    out.append(",\n");
    out.append(q.as_str());
    out.append("\"lastModified\": ");
    let d2 = u64_to_dec(n.last_modified);
    out.append(d2.as_str());
    out.append(",\n");
    out.append(q.as_str());
    out.append("\"icon\": ");
    match &n.icon {
        Some(ic) => {
            let js_ic = json_string_exec(ic.as_str());
            out.append(js_ic.as_str());
        },
        None => {
            out.append("null");
        },
    }
    out.append(",\n");
    proof {
        reveal_strlit("null");
        assert(out@ =~= json_node_head(node_view(*n), ind as nat));
    }
    out
}

#[verifier::rlimit(80)]
fn json_mid_exec(n: &BookmarkNode, ind: usize) -> (r: String)
    requires
        ind + 1 <= usize::MAX,
    ensures
        r@ == json_node_mid(node_view(*n), ind as nat),
{
    let q = make_repeat("  ", ind + 1);
    let mut out = String::new();
    out.append(q.as_str());
    out.append("\"tags\": [");
    let tl = json_tag_list_exec(&n.tags);
    out.append(tl.as_str());
    out.append("],\n");
    out.append(q.as_str());
    out.append("\"isDuplicate\": ");
    if n.is_duplicate {
        out.append("true");
    } else {
        out.append("false");
    }
    out.append(",\n");
    out.append(q.as_str());
    out.append("\"children\": ");
    proof {
        assert(out@ =~= json_node_mid(node_view(*n), ind as nat));
    }
    out
}

#[verifier::rlimit(80)]
fn json_write_node(n: &BookmarkNode, ind: usize, out: &mut String)
    requires
        ind + 2 * size_node(node_view(*n)) + 1 <= usize::MAX,
    ensures
        final(out)@ == old(out)@ + json_node(node_view(*n), ind as nat),
    decreases size_node(node_view(*n)), 0int, 0int,
{
    let p = make_repeat("  ", ind);
    let head = json_head_exec(n, ind);
    out.append(head.as_str());
    let mid = json_mid_exec(n, ind);
    out.append(mid.as_str());
    proof {
        assert(size_node(node_view(*n)) == 1 + size_nodes(nodes_view(n.children@)));
    }
    json_write_nodes(&n.children, ind + 1, out);
    out.append("\n");
    out.append(p.as_str());
    out.append("}");
    proof {
        assert(out@ =~= old(out)@ + json_node(node_view(*n), ind as nat));
    }
}

#[verifier::rlimit(80)]
fn json_write_items(nodes: &Vec<BookmarkNode>, i: usize, ind: usize, out: &mut String)
    requires
        i < nodes@.len(),
        ind + 2 * size_nodes(nodes_view(nodes@)) + 2 <= usize::MAX,
    ensures
        final(out)@ == old(out)@ + json_items(
            nodes_view(nodes@).subrange(i as int, nodes@.len() as int),
            ind as nat,
        ),
    decreases size_nodes(nodes_view(nodes@)), nodes@.len() - i, 0int,
{
    let ghost vs = nodes_view(nodes@);
    let ghost tail = vs.subrange(i as int, nodes@.len() as int);
    proof {
        lemma_nodes_view_len(nodes@);
        lemma_nodes_view_index(nodes@, i as int);
        assert(tail[0] == vs[i as int]);
        assert(tail.drop_first() =~= vs.subrange(i as int + 1, nodes@.len() as int));
        lemma_size_nodes_index(vs, i as int);
    }
    let len = nodes.len();
    json_write_node(&nodes[i], ind + 1, out);
    if i + 1 < len {
        out.append(",\n");
        json_write_items(nodes, i + 1, ind, out);
        proof {
            assert(out@ =~= old(out)@ + json_items(tail, ind as nat));
        }
    } else {
        proof {
            assert(tail.len() == 1);
            assert(out@ =~= old(out)@ + json_items(tail, ind as nat));
        }
    }
}

#[verifier::rlimit(80)]
fn json_write_nodes(nodes: &Vec<BookmarkNode>, ind: usize, out: &mut String)
    requires
        ind + 2 * size_nodes(nodes_view(nodes@)) + 2 <= usize::MAX,
    ensures
        final(out)@ == old(out)@ + json_nodes(nodes_view(nodes@), ind as nat),
    decreases size_nodes(nodes_view(nodes@)), nodes@.len(), 1int,
{
    if nodes.len() == 0 {
        proof {
            lemma_nodes_view_len(nodes@);
        }
        out.append("[]");
        return ;
    }
    proof {
        lemma_nodes_view_len(nodes@);
    }
    out.append("[\n");
    json_write_items(nodes, 0, ind, out);
    out.append("\n");
    let pad = make_repeat("  ", ind);
    out.append(pad.as_str());
    out.append("]");
    proof {
        assert(nodes_view(nodes@).subrange(0, nodes@.len() as int) =~= nodes_view(nodes@));
        assert(out@ =~= old(out)@ + json_nodes(nodes_view(nodes@), ind as nat));
    }
}

/// Serialize the tree as pretty-printed JSON, every field preserved under
/// the external camel-cased names.
pub fn serialize_to_json(nodes: &Vec<BookmarkNode>) -> (r: String)
    requires
        2 * size_nodes(nodes_view(nodes@)) + 2 <= usize::MAX,
    ensures
        r@ == spec_json(nodes_view(nodes@)),
{
    let mut out = String::new();
    json_write_nodes(nodes, 0, &mut out);
    proof {
        assert(out@ =~= spec_json(nodes_view(nodes@)));
    }
    out
}

} // verus!
