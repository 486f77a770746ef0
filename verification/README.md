# fast_explorer

The browsing logic of a file explorer, written in Verus and proved against
its contracts: tabs with per-tab history, sorting, selection, type-ahead and
inline rename; a tab strip with contiguous tab groups and session restore;
ZIP archive folders addressed by internal and human-readable paths;
TailDrive locations, listings and status lines; tailnet profiles with
case-insensitively unique paths and device names; a cache of opened remote
files; a registry and a list of file transfers; and the device-sync panel.

Layout:

- `src/` is the verified library, one module per concern (`tabs`, `strip`,
  `archive`, `archive_list`, `taildrive`, `address`, `remote_list`,
  `prepare_status`, `cache`, `transfer`, `transfer_list`, `tailnets`,
  `sync`, `entries`, `names`, `unique_names`, `paths`, `text`, `colors`,
  `cli`, `commands`). Each public function states what it returns or
  changes in `ensures`; laws that relate several functions are public proof
  functions named `lemma_*`.
- `tests/` runs the library on concrete values.
- `app/` is a small console front end: it reads folders, ZIP archives and
  the saved session from disk and hands plain values to the library.
