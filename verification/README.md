# iso_maker

A verified core for a desktop tool that packs chosen files into an ISO 9660
image.

- `src/` is the library, verified with Verus:
  - `state.rs`: the chosen files (`AppState`), how a chosen file or a walked
    directory becomes entries, progress reports;
  - `builder.rs`: volume label rules, the size estimate, the image options
    (ISO 9660 with level 3 names, Joliet and Rock Ridge), cutting the written
    image to whole sectors, and the build that hands the tree to `hadris_iso`;
  - `tree.rs`: the directory tree of the image and how entries are placed in it;
  - `placement.rs`: the proofs that every entry lands exactly once at its
    path and that directories of the same name are merged;
  - `templates.rs`: the template list (save, delete) and the store's path;
  - `text.rs`: character-level helpers on strings;
  - `iso.rs`: the calls into `hadris_iso`.
- `app/` is the application around it: file system, directory walks, the
  JSON template store, and the background build.
- `tests/` exercise the library on concrete values.
