# str_gui

The decision logic of the desktop editor for `.str` resource bundles
(directory trees whose branches carry a `._meta` manifest), written in Verus
with its behaviour stated as contracts and proved.

## Layout

- `src/` — the verified library:
  - `chars`, `text` — text rules (trimming, splitting, lines, decimal text,
    size labels, tags, Finder-style copy names, noise files, latin-only names);
  - `model`, `tree`, `editor` — the scanned bundle, child order, visible rows
    of the structure tree, and the editor state (expansion, activation,
    content selection) with its coherence invariant;
  - `entries`, `rows`, `selection`, `multi` — the content list of a branch,
    multi-selection eligibility, Finder-style clicks and keys, batch items;
  - `branch_move`, `places`, `groups`, `clip`, `rename` — plans for moving,
    nesting, landing, pasting and renaming entries and branches;
  - `registry` — keeping a branch's `entries[]` in step with the files:
    registrations that moves, pastes, copies, renames and the trash leave
    behind, and rewriting a sequence with explicit positions;
  - `transfer` — drag payloads and branch-relative paths;
  - `handlers`, `terminal`, `batch`, `shortcuts`, `signature` — the default
    terminal choice, batch bookkeeping, the recent list, the shortcut table
    and the layout signature;
  - `laws` — properties spanning several operations.
- `tests/` — scenarios on concrete values.
- `app/` — a command-line front end for the operating-system work (recent
  list file, terminals, file manager, trash, renames and imports) and the
  floating-point mind-map geometry. Reading and writing `._meta` itself
  belongs to the bundle format's own library, which this crate does not
  depend on; so the front end covers the operations that need no manifest.
