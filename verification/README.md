# navi-core

The logic of Navi, a desktop viewer for the graph of an org-roam notes
database, written as a Verus library with its contracts proved.

- `src/` is the verified library:
  - `db` turns the database's rows into nodes and links, `graph` builds the
    graph (ids, titles, degrees, tag list), `reach` and `layout` give walks,
    breadth-first shells, the spanning tree and ring order the layouts use,
    and `keys` the id index.
  - `view` is the keyboard state machine (filters, themes, layouts, search,
    selection), `filters` decides which nodes are hidden, faded, found or
    next to the hovered one, `status` writes the status line and reload
    messages, `style` the colour and highlight rules.
  - `config` covers the settings and where the database is found, `emacs`
    how `emacsclient` and the server socket are found and what it is asked
    to run.
  - `pacer`, `display_link` and `motion` hold the frame pacing, the refresh
    counters and the simulation's step state.
  - `text` holds the string functions the rest is built on.
- `app/` is the window program around it: reading the database and the
  settings file, the environment and processes, the force simulation and
  layouts in floating point, and drawing with egui.
- `tests/` exercise the library on concrete values.
