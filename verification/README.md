# xyi

A collection of cross-platform file utilities (copy, serve, download,
telegram, httpeek, wscat) whose rules are a library verified with Verus.

- `src/` is the verified library:
  - `text.rs`: character helpers and decimal rendering;
  - `path.rs`: paths as sequences of components, relative paths, parents and
    file names, with the laws that relate them;
  - `listing.rs`: sorting directory listings and the breadth-first tree scan;
  - `copy.rs`: where each file is copied to, how existing destinations are
    treated, chunk comparison by SeaHash, and the summary of a copy;
  - `download.rs`: naming a download and reading its headers;
  - `serve.rs`: download links, directory changes, archive names and layout,
    and the server's texts;
  - `peek.rs`, `wscat.rs`: the texts of the httpeek and wscat commands.
- `app/` is the command-line program around it: argument handling, the file
  system, the network, threads and progress bars.
- `tests/` exercises the library on concrete values.
