pub mod dedup;
pub mod dom;
pub mod laws;
pub mod node;
pub mod ops;
pub mod parse;
pub mod search;
pub mod serialize;
pub mod strutil;

pub use dedup::find_duplicates;
pub use dedup::mark_duplicates_in_tree;
pub use dedup::merge_trees;
pub use node::BookmarkNode;
pub use node::DuplicateGroup;
pub use ops::NodeUpdate;
pub use ops::TreeError;
pub use ops::add_node;
pub use ops::add_tag;
pub use ops::collect_all_nodes;
pub use ops::delete_node;
pub use ops::find_node_by_id;
pub use ops::move_node;
pub use ops::remove_tag;
pub use ops::update_node;
pub use parse::parse_html;
pub use search::search_nodes;
pub use serialize::serialize_to_csv;
pub use serialize::serialize_to_html;
pub use serialize::serialize_to_json;
pub use serialize::serialize_to_markdown;
