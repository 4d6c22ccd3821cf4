//! The logic behind a code editor's file views, each piece with its contract: the command palette's names,
//! queries, history and row order; file-finder queries with a line and column; fuzzy-match prefilters; the
//! outline, project search and search bar lists; go-to-line targets; markdown blocks for popovers; a file
//! view's screen rows, split diff, indent guides, caret status, key handling and moves between changes;
//! hovers, go-to-definition links and server completion requests with where their edits go; diagnostics
//! navigation; the file tree's rows; saved folds; and the small helpers the views share.

pub mod command_palette;
pub mod completion_edit;
pub mod completion_request;
pub mod definition_link;
pub mod diagnostic_nav;
pub mod display_rows;
pub mod edit_keys;
pub mod file_finder;
pub mod file_tree;
pub mod file_view;
pub mod fuzzy;
pub mod go_to_line;
pub mod hover;
pub mod hunk_nav;
pub mod indent_guides;
pub mod list_nav;
pub mod list_scrollbar;
pub mod markdown_preview;
pub mod markdown_view;
pub mod outline_view;
pub mod palette_order;
pub mod project_search;
pub mod saved_state;
pub mod search_bar;
pub mod split_diff;
pub mod text;
