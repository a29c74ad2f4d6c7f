use bookmarks::parse_html;
use bookmarks::serialize_to_csv;
use bookmarks::serialize_to_html;
use bookmarks::serialize_to_json;
use bookmarks::serialize_to_markdown;
use bookmarks::BookmarkNode;

fn bare(id: &str, title: &str, url: Option<&str>, add_date: u64) -> BookmarkNode {
    BookmarkNode {
        id: id.to_string(),
        title: title.to_string(),
        url: url.map(|u| u.to_string()),
        add_date,
        last_modified: add_date,
        icon: None,
        tags: Vec::new(),
        is_duplicate: false,
        children: Vec::new(),
    }
}

#[test]
fn parse_sibling_dialect() {
    let markup = "<DL><p>\
        <DT><H3 ADD_DATE=\"1000\">Work</H3></DT>\
        <DL><p><DT><A HREF=\"http://x.com\" ADD_DATE=\"2000\">Site</A></DT></DL><p>\
        </DL><p>";
    let tree = parse_html(markup);
    assert_eq!(tree.len(), 1);
    let root = &tree[0];
    assert_eq!(root.id, "root");
    assert_eq!(root.title, "Bookmarks");
    assert_eq!(root.children.len(), 1);
    let work = &root.children[0];
    assert_eq!(work.title, "Work");
    assert_eq!(work.url, None);
    assert_eq!(work.add_date, 1_000_000);
    assert_eq!(work.children.len(), 1);
    let site = &work.children[0];
    assert_eq!(site.title, "Site");
    assert_eq!(site.url.as_deref(), Some("http://x.com"));
    assert_eq!(site.add_date, 2_000_000);
    assert_eq!(site.children.len(), 0);
}

#[test]
fn parse_nested_dialect() {
    let markup = "<DL><p>\
        <DT><H3 ADD_DATE=\"5\">Folder</H3>\
        <DL><p><DT><A HREF=\"http://a.com\" ADD_DATE=\"6\" ICON=\"data:img\">A</A>\
        </DL><p>\
        </DL><p>";
    let tree = parse_html(markup);
    let root = &tree[0];
    assert_eq!(root.children.len(), 1);
    let folder = &root.children[0];
    assert_eq!(folder.title, "Folder");
    assert_eq!(folder.add_date, 5000);
    assert_eq!(folder.children.len(), 1);
    let a = &folder.children[0];
    assert_eq!(a.url.as_deref(), Some("http://a.com"));
    assert_eq!(a.icon.as_deref(), Some("data:img"));
    assert_eq!(a.add_date, 6000);
}

#[test]
fn parse_assigns_counter_ids_and_root() {
    let markup = "<DL><p>\
        <DT><A HREF=\"http://one.com\">One</A>\
        <DT><A HREF=\"http://two.com\">Two</A>\
        </DL><p>";
    let tree = parse_html(markup);
    let root = &tree[0];
    assert_eq!(root.id, "root");
    assert_eq!(root.children.len(), 2);
    assert_eq!(root.children[0].id, "node_0");
    assert_eq!(root.children[1].id, "node_1");
}

#[test]
fn parse_without_list_yields_empty_root() {
    let tree = parse_html("<html><body><p>nothing here</p></body></html>");
    assert_eq!(tree.len(), 1);
    assert_eq!(tree[0].id, "root");
    assert_eq!(tree[0].children.len(), 0);
}

#[test]
fn parse_drops_items_without_heading_or_link() {
    let markup = "<DL><p><DT><SPAN>just text</SPAN></DT>\
        <DT><A HREF=\"http://keep.com\">Keep</A></DT></DL><p>";
    let tree = parse_html(markup);
    assert_eq!(tree[0].children.len(), 1);
    assert_eq!(tree[0].children[0].title, "Keep");
}

#[test]
fn parse_unreadable_date_defaults_to_zero() {
    let markup = "<DL><p><DT><A HREF=\"http://x.com\" ADD_DATE=\"oops\">X</A></DL><p>";
    let tree = parse_html(markup);
    assert_eq!(tree[0].children[0].add_date, 0);
}

fn same_shape(a: &BookmarkNode, b: &BookmarkNode) -> bool {
    a.title == b.title && a.url == b.url && a.add_date == b.add_date
        && a.children.len() == b.children.len()
        && a.children.iter().zip(b.children.iter()).all(|(c, d)| same_shape(c, d))
}

#[test]
fn round_trip_through_html() {
    let markup = "<DL><p>\
        <DT><H3 ADD_DATE=\"1000\">Work</H3></DT>\
        <DL><p><DT><A HREF=\"http://x.com\" ADD_DATE=\"2000\">Site</A></DT></DL><p>\
        <DT><A HREF=\"http://solo.com\" ADD_DATE=\"3\">Solo</A>\
        </DL><p>";
    let first = parse_html(markup);
    let html = serialize_to_html(&first[0].children);
    let second = parse_html(&html);
    assert_eq!(second.len(), 1);
    assert!(same_shape(&first[0], &second[0]));
}

#[test]
fn html_output_exact() {
    let mut folder = bare("f", "Work", None, 2000);
    folder.children.push(bare("b", "Site", Some("http://x.com"), 3000));
    let tree = vec![folder];
    let html = serialize_to_html(&tree);
    let expected = "<!DOCTYPE NETSCAPE-Bookmark-file-1>\n\
        <META HTTP-EQUIV=\"Content-Type\" CONTENT=\"text/html; charset=UTF-8\">\n\
        <TITLE>Bookmarks</TITLE>\n\
        <H1>Bookmarks</H1>\n<DL><p>\n    \
        <DT><H3 ADD_DATE=\"2\">Work</H3>\n    \
        <DL><p>\n        \
        <DT><A HREF=\"http://x.com\" ADD_DATE=\"3\">Site</A>\n    \
        </DL><p>\n\
        </DL><p>\n";
    assert_eq!(html, expected);
}

#[test]
fn html_bookmark_icon_attribute() {
    let mut b = bare("b", "A", Some("http://a.com"), 0);
    b.icon = Some("data:x".to_string());
    let html = serialize_to_html(&vec![b]);
    assert!(html.contains(" ICON=\"data:x\""));
}

#[test]
fn csv_header_alone_for_empty_tree() {
    let tree: Vec<BookmarkNode> = Vec::new();
    assert_eq!(serialize_to_csv(&tree), "Title,URL,Add Date,Tags,Type\n");
}

#[test]
fn csv_one_row_per_flattened_node() {
    let mut folder = bare("f", "Folder", None, 1);
    folder.children.push(bare("b", "Bm", Some("http://b.com"), 2));
    let tree = vec![folder];
    let csv = serialize_to_csv(&tree);
    assert_eq!(csv.lines().count(), 3);
}

#[test]
fn csv_escapes_quotes_and_marks_kinds() {
    let mut folder = bare("f", "Say \"hi\"", None, 7);
    let mut bm = bare("b", "Link", Some("http://l.com"), 9);
    bm.tags = vec!["x".to_string(), "y".to_string()];
    folder.children.push(bm);
    let csv = serialize_to_csv(&vec![folder]);
    let expected = "Title,URL,Add Date,Tags,Type\n\
        \"Say \"\"hi\"\"\",\"\",7,\"\",\"Folder\"\n\
        \"Link\",\"http://l.com\",9,\"x;y\",\"Bookmark\"\n";
    assert_eq!(csv, expected);
}

#[test]
fn markdown_headings_and_links() {
    let mut folder = bare("f", "Top", None, 0);
    let mut inner = bare("g", "Inner", None, 0);
    inner.children.push(bare("b", "Deep", Some("http://d.com"), 0));
    folder.children.push(inner);
    let md = serialize_to_markdown(&vec![folder]);
    let expected = "# Bookmarks\n\n\
        ## Top\n\n\
        ### Inner\n\n    \
        - [Deep](http://d.com)\n";
    assert_eq!(md, expected);
}

#[test]
fn json_empty_tree_is_empty_array() {
    let tree: Vec<BookmarkNode> = Vec::new();
    assert_eq!(serialize_to_json(&tree), "[]");
}

#[test]
fn json_single_node_exact() {
    let mut n = bare("id1", "A \"b\"", Some("http://a.com"), 5);
    n.tags = vec!["t1".to_string(), "t2".to_string()];
    let js = serialize_to_json(&vec![n]);
    let expected = "[\n  {\n    \"id\": \"id1\",\n    \"title\": \"A \\\"b\\\"\",\n    \
        \"url\": \"http://a.com\",\n    \"addDate\": 5,\n    \"lastModified\": 5,\n    \
        \"icon\": null,\n    \"tags\": [\"t1\", \"t2\"],\n    \"isDuplicate\": false,\n    \
        \"children\": []\n  }\n]";
    assert_eq!(js, expected);
}

#[test]
fn json_escapes_control_characters() {
    let n = bare("i", "a\nb\tc\u{1}", None, 0);
    let js = serialize_to_json(&vec![n]);
    assert!(js.contains("a\\nb\\tc\\u0001"));
}
