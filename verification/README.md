# rust_rim

A RimWorld mod manager's core, verified with Verus.

- `src/` — the verified library:
  - `text` — character-level helpers: decimal rendering and parsing,
    Unicode trimming, substring search, `/`-separated path joining;
  - `mod_entry` — mod records, building them from `About.xml` data, the order
    of the game's content folders, the warnings and requests of the mod list panes;
  - `steamcmd` — where SteamCMD lives, its command line, and how its console
    output becomes download progress events;
  - `html` — HTML documents read through `scraper`, elements named by the
    index of their node;
  - `json` — JSON values as plain data, as `serde_json` parses them, and
    their lookups;
  - `workshop` — Steam Workshop URLs and request bodies, reading browse pages
    and Web API answers, the browser panel state;
  - `images` — which preview images are loaded or being downloaded, and
    whether downloaded bytes decode (`image`).
- `app/` — the program around it: disk scanning, running SteamCMD, HTTP
  requests, file dialogs, a command-line front end.
- `tests/` — tests of the library on concrete values.

There are no windows: `app/` is a command-line front end. The decisions of
the mod list panes (warnings, context menu, double click, drag and drop) are
library functions that return `MoveRequest`s; applying a request to the
load order is not part of this crate.
