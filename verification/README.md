# file_organizer

Previews how the files of a directory would be sorted into folders by the
rules of a JSON configuration, and walks a list of paths as a tree.

- `src/` is the library, verified with Verus:
  - `path.rs`: paths as components (reading a path's text, parents, prefixes,
    file names, extensions, pushing one path onto another);
  - `config.rs`: the configuration tree and what a lookup in it gives;
  - `matching.rs`: the calls into the `regex` crate and std's upper-casing,
    with their trusted contracts;
  - `entry_collector.rs`: routing entries to destinations and building the
    preview (folders first, every path once);
  - `path_tree.rs`: the folder tree of a set of paths, ordered by depth;
  - `walker.rs`, `item.rs`: the depth-limited walk, its output and its totals.
- `app/` is the command-line program: it reads the arguments, the
  configuration file and the directory, and prints what the library returns.
- `tests/` runs the library on concrete values.
