use bookmarks::add_node;
use bookmarks::add_tag;
use bookmarks::collect_all_nodes;
use bookmarks::delete_node;
use bookmarks::find_duplicates;
use bookmarks::find_node_by_id;
use bookmarks::mark_duplicates_in_tree;
use bookmarks::merge_trees;
use bookmarks::move_node;
use bookmarks::remove_tag;
use bookmarks::search_nodes;
use bookmarks::update_node;
use bookmarks::BookmarkNode;
use bookmarks::NodeUpdate;
use bookmarks::TreeError;

fn bare(id: &str, title: &str, url: Option<&str>) -> BookmarkNode {
    BookmarkNode {
        id: id.to_string(),
        title: title.to_string(),
        url: url.map(|u| u.to_string()),
        add_date: 0,
        last_modified: 0,
        icon: None,
        tags: Vec::new(),
        is_duplicate: false,
        children: Vec::new(),
    }
}

fn no_update() -> NodeUpdate {
    NodeUpdate { title: None, url: None, tags: None, icon: None, is_duplicate: None }
}

fn count(nodes: &Vec<BookmarkNode>) -> usize {
    let mut flat = Vec::new();
    collect_all_nodes(nodes, &mut flat);
    flat.len()
}

#[test]
fn find_by_id_pre_order_first_match() {
    let mut folder = bare("f", "Folder", None);
    folder.children.push(bare("x", "Inner", Some("http://i.com")));
    let tree = vec![folder, bare("y", "Outer", None)];
    let hit = find_node_by_id(&tree, "x").expect("x should be found");
    assert_eq!(hit.title, "Inner");
    assert!(find_node_by_id(&tree, "zzz").is_none());
}

#[test]
fn delete_removes_whole_subtree() {
    let mut folder = bare("f", "Folder", None);
    folder.children.push(bare("x", "Inner", Some("http://i.com")));
    let mut tree = vec![folder, bare("y", "Outer", None)];
    assert_eq!(count(&tree), 3);
    delete_node(&mut tree, "f").expect("delete should succeed");
    assert_eq!(count(&tree), 1);
    assert!(find_node_by_id(&tree, "x").is_none());
}

#[test]
fn delete_missing_id_is_an_error() {
    let mut tree = vec![bare("a", "A", None)];
    assert_eq!(delete_node(&mut tree, "nope"), Err(TreeError::NodeNotFound));
    assert_eq!(tree.len(), 1);
}

#[test]
fn add_mints_id_and_appends_to_parent() {
    let mut tree = vec![bare("p", "Parent", None)];
    add_node(&mut tree, "p", bare("ignored", "Child", Some("http://c.com")), 12345);
    assert_eq!(tree[0].children.len(), 1);
    assert_eq!(tree[0].children[0].id, "node_12345");
    assert_eq!(tree[0].children[0].title, "Child");
}

#[test]
fn add_falls_back_to_top_level() {
    let mut tree = vec![bare("p", "Parent", None)];
    add_node(&mut tree, "absent", bare("n", "Loose", None), 7);
    assert_eq!(tree.len(), 2);
    assert_eq!(tree[1].id, "node_7");
}

#[test]
fn add_then_delete_leaves_no_trace() {
    let mut tree = vec![bare("p", "Parent", None)];
    add_node(&mut tree, "p", bare("n", "Child", None), 99);
    delete_node(&mut tree, "node_99").expect("freshly added node is present");
    assert!(find_node_by_id(&tree, "node_99").is_none());
}

#[test]
fn move_to_new_parent() {
    let mut tree = vec![bare("a", "A", None), bare("b", "B", None)];
    move_node(&mut tree, "b", "a").expect("move should succeed");
    assert_eq!(tree.len(), 1);
    assert_eq!(tree[0].children.len(), 1);
    assert_eq!(tree[0].children[0].id, "b");
}

#[test]
fn move_to_root_sentinels() {
    let mut a = bare("a", "A", None);
    a.children.push(bare("b", "B", None));
    let mut tree = vec![a];
    move_node(&mut tree, "b", "root").expect("sentinel move should succeed");
    assert_eq!(tree.len(), 2);
    assert_eq!(tree[1].id, "b");
    let mut tree2 = vec![tree.remove(0), tree.remove(0)];
    move_node(&mut tree2, "b", "").expect("empty sentinel move should succeed");
    assert_eq!(tree2.len(), 2);
}

#[test]
fn move_missing_node_is_an_error() {
    let mut tree = vec![bare("a", "A", None)];
    assert_eq!(move_node(&mut tree, "zzz", "a"), Err(TreeError::NodeNotFound));
    assert_eq!(tree.len(), 1);
}

#[test]
fn move_missing_parent_keeps_node_at_top_level() {
    let mut a = bare("a", "A", None);
    a.children.push(bare("b", "B", None));
    let mut tree = vec![a];
    let before = count(&tree);
    assert_eq!(move_node(&mut tree, "b", "ghost"), Err(TreeError::ParentNotFound));
    assert_eq!(count(&tree), before);
    assert_eq!(tree.len(), 2);
    assert_eq!(tree[1].id, "b");
}

#[test]
fn move_into_bookmark_is_parent_not_found() {
    let mut tree = vec![bare("b", "B", Some("http://b.com")), bare("f", "F", None)];
    assert_eq!(move_node(&mut tree, "f", "b"), Err(TreeError::ParentNotFound));
    assert_eq!(tree.len(), 2);
    assert!(tree[0].children.is_empty());
    assert_eq!(tree[1].id, "f");
}

#[test]
fn add_into_bookmark_falls_back_to_top_level() {
    let mut tree = vec![bare("b", "B", Some("http://b.com"))];
    add_node(&mut tree, "b", bare("n", "N", None), 3);
    assert_eq!(tree.len(), 2);
    assert!(tree[0].children.is_empty());
    assert_eq!(tree[1].id, "node_3");
}

#[test]
fn move_preserves_node_count() {
    let mut folder = bare("f", "F", None);
    folder.children.push(bare("x", "X", None));
    let mut tree = vec![folder, bare("y", "Y", None)];
    let before = count(&tree);
    move_node(&mut tree, "x", "y").expect("move should succeed");
    assert_eq!(count(&tree), before);
}

#[test]
fn add_tag_is_idempotent() {
    let mut tree = vec![bare("a", "A", None)];
    add_tag(&mut tree, "a", "work");
    add_tag(&mut tree, "a", "work");
    assert_eq!(tree[0].tags, vec!["work".to_string()]);
}

#[test]
fn remove_tag_removes_all_occurrences() {
    let mut a = bare("a", "A", None);
    a.tags = vec!["x".to_string(), "y".to_string(), "x".to_string()];
    let mut tree = vec![a];
    remove_tag(&mut tree, "a", "x");
    assert_eq!(tree[0].tags, vec!["y".to_string()]);
}

#[test]
fn update_applies_present_fields_and_stamps_time() {
    let mut tree = vec![bare("a", "Old", Some("http://u.com"))];
    let upd = NodeUpdate {
        title: Some("New".to_string()),
        url: Some(None),
        tags: Some(vec!["t".to_string()]),
        icon: Some(Some("ic".to_string())),
        is_duplicate: Some(true),
    };
    update_node(&mut tree, "a", &upd, 555);
    assert_eq!(tree[0].title, "New");
    assert_eq!(tree[0].url, None);
    assert_eq!(tree[0].tags, vec!["t".to_string()]);
    assert_eq!(tree[0].icon.as_deref(), Some("ic"));
    assert!(tree[0].is_duplicate);
    assert_eq!(tree[0].last_modified, 555);
}

#[test]
fn update_stamps_time_even_without_changes() {
    let mut tree = vec![bare("a", "A", None)];
    update_node(&mut tree, "a", &no_update(), 777);
    assert_eq!(tree[0].title, "A");
    assert_eq!(tree[0].last_modified, 777);
}

#[test]
fn update_missing_id_is_a_no_op() {
    let mut tree = vec![bare("a", "A", None)];
    update_node(&mut tree, "zzz", &no_update(), 777);
    assert_eq!(tree[0].last_modified, 0);
}

#[test]
fn search_by_tag_and_by_text() {
    let mut a = bare("a", "Notes", None);
    a.tags = vec!["Work".to_string(), "Personal".to_string()];
    let tree = vec![a, bare("b", "My work stuff", None)];
    let by_tag = search_nodes(&tree, "tag:work");
    assert_eq!(by_tag, vec!["a".to_string()]);
    let by_text = search_nodes(&tree, "WORK");
    assert_eq!(by_text, vec!["a".to_string(), "b".to_string()]);
}

#[test]
fn search_matches_urls_too() {
    let tree = vec![bare("a", "A", Some("http://example.com/page"))];
    assert_eq!(search_nodes(&tree, "EXAMPLE"), vec!["a".to_string()]);
    assert!(search_nodes(&tree, "absent").is_empty());
}

#[test]
fn find_duplicates_groups_by_url() {
    let tree = vec![
        bare("a", "A", Some("http://a.com")),
        bare("b", "B", Some("http://a.com")),
        bare("c", "C", Some("http://c.com")),
    ];
    let groups = find_duplicates(&tree);
    assert_eq!(groups.len(), 1);
    assert_eq!(groups[0].url, "http://a.com");
    assert_eq!(groups[0].nodes.len(), 2);
    assert_eq!(groups[0].nodes[0].id, "a");
    assert_eq!(groups[0].nodes[1].id, "b");
}

#[test]
fn mark_duplicates_sets_and_clears() {
    let mut stale = bare("a", "A", Some("http://solo.com"));
    stale.is_duplicate = true;
    let mut tree = vec![
        stale,
        bare("b", "B", Some("http://dup.com")),
        bare("c", "C", Some("http://dup.com")),
    ];
    mark_duplicates_in_tree(&mut tree);
    assert!(!tree[0].is_duplicate);
    assert!(tree[1].is_duplicate);
    assert!(tree[2].is_duplicate);
}

#[test]
fn merge_marks_cross_tree_duplicates() {
    let mut base = vec![bare("a", "A", Some("http://a.com"))];
    let target = vec![bare("b", "B", Some("http://a.com"))];
    merge_trees(&mut base, target);
    assert_eq!(base.len(), 2);
    assert!(base[0].is_duplicate);
    assert!(base[1].is_duplicate);
    let third = vec![bare("c", "C", Some("http://c.com"))];
    merge_trees(&mut base, third);
    assert_eq!(base.len(), 3);
    assert!(base[0].is_duplicate);
    assert!(base[1].is_duplicate);
    assert!(!base[2].is_duplicate);
}

#[test]
fn collect_all_flattens_pre_order() {
    let mut folder = bare("f", "F", None);
    folder.children.push(bare("x", "X", None));
    let tree = vec![folder, bare("y", "Y", None)];
    let mut flat = Vec::new();
    collect_all_nodes(&tree, &mut flat);
    let ids: Vec<&str> = flat.iter().map(|n| n.id.as_str()).collect();
    assert_eq!(ids, vec!["f", "x", "y"]);
}
