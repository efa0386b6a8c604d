# task_tui

A keyboard-driven to-do list for the terminal: folders of nested tasks, with
completion that propagates to parent tasks, kept in a JSON file.

- `src/` is the verified library:
  - `model.rs`: tasks and folders and their mathematical values;
  - `tree.rs`: the task tree (outline of visible rows, lookup and update by
    path, drafts, completion of ancestors, reset) with its laws;
  - `text.rs`: keys and text editing;
  - `state.rs`: the editor state, list selections, folder operations;
  - `keys.rs`: what each key does, as a step from state and key to the next
    state and what to do next (keep going, quit, save).
- `app/main.rs` draws the screen, reads keys, and loads and saves the JSON
  file.
- `tests/` runs the library on concrete trees and key sequences.
