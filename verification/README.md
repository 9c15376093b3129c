# zed_parts

Verified building blocks of a code editor.

- `edit_prediction_context`, `zeta_context`: what is shown to a model around the
  cursor: similarity of text windows, imports, outlines, excerpts and prompts.
- `typst_viewer`: a live document preview: its wire protocol, page table, image
  cache, session and views.
- `editor`: the menus of completions and code actions.
- `settings`, `migrate`, `migrator`, `agent_rules`, `rules_set`: settings files,
  keymaps, migrations and rules files.
- `rope`, `multi_buffer`: positions in texts and differences between them.
- `release_channel`, `zlog`, `live_context`: release metadata, bug reports and
  grouping of definitions.
- `text`, `paths`, `stable_sort`: bytes, lines, numbers, paths and sorting, which the
  others use.

`src/` is verified with Verus. Every function states what it returns; laws that
relate several functions are public proof functions named `law_*`. `tests/` runs
the library, and `app/` is the ordinary Rust around it: sockets, files, JSON and
floating-point numbers.
