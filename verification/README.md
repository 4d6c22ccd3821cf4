# files_ui

The decision logic of a code editor's file views, written in Verus with contracts that are proved:

- `command_palette`, `palette_order`: action names made readable, query normalisation, keystroke labels,
  the query history walked with Up/Down, usage counts, and the order of the palette's rows.
- `file_finder`, `fuzzy`: `path:line:column` queries, recent files first, char-bag prefilters and the
  candidates handed to the fuzzy matcher (nucleo-matcher).
- `outline_view`, `project_search`, `search_bar`, `list_nav`, `list_scrollbar`: the lists the pickers and
  search panes show, their selection, scrolling and history.
- `go_to_line`, `markdown_view`, `markdown_preview`: go-to-line targets, markdown blocks built from
  pulldown-cmark's events, and escaping.
- `hover`, `definition_link`, `completion_request`, `completion_edit`: the hover popovers' timers and
  answers, go-to-definition requests and command-click links, when typing asks the language server for
  completions, and where a chosen completion's edit goes at each caret.
- `edit_keys`: what each key does in a file's editor, given the view's state.
- `display_rows`, `split_diff`, `indent_guides`, `hunk_nav`, `diagnostic_nav`: a file view's screen rows
  (soft wraps, removed lines of expanded changes, diagnostic blocks), the split diff's two level sides,
  indent guides and the block around the caret, moving between changes and the changes the selections
  touch, and moving between diagnostics.
- `file_tree`, `file_view`, `saved_state`, `text`: tree rows, small file-view decisions and the caret's
  status text, saved folds found again after edits, and the string helpers the rest uses.

`app/` holds what works in floating point (match scores and ranking, pixel scrolling, the scrollbar fade)
and the serde types of the saved state.
