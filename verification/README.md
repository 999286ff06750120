# russus_launcher

The logic of a tray launcher that lists a GitHub user's released apps, installs and
updates them, and notifies about new projects and updates — verified with Verus.

- `src/` — the verified library:
  - `text` — character classes, runs, fields, joining, decimal numbers;
  - `version`, `order` — version normalisation, numeric parts, comparison and its laws;
  - `assets` — the installable asset per platform and the pacman package it names;
  - `github` — API addresses, repository filtering and paging, latest stable release;
  - `state` — settings, the persisted state, a string map;
  - `apps` — app entries, status, the cache, install/uninstall/launch targets;
  - `notify` — which new projects and updates to notify, once each;
  - `probe` — pacman and `gh` output, the GitHub token, the check schedule;
  - `progress` — progress events.
- `app/` — the Tauri application around it: HTTP, processes, files, window and tray.
- `tests/` — tests of the library on concrete values.
