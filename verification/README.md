# desktop_find

A small desktop tool: a search window (Alt + Space) that finds and frames
desktop icons, plus a day planner. The rules of the tool live in `src/` and
are proved with Verus:

- `text` — characters of a string, Unicode trimming, blank checks, ASCII
  case-insensitive equality, lexicographic order, decimal digits.
- `order` — a stable sort by text keys (stated as a permutation that orders
  by key, ties by input position) and first-match search.
- `desktop` — display names from paths, the listing order (lower-cased
  name, stable), removal of repeated entries, the estimated icon grid,
  locating the requested icon and the highlight frame.
- `icons` — clamping the icon count, reading an icon label from its UTF-16
  buffer, moving items onto the icons' real places.
- `schedule` — planner records, input checks, list/create/update/delete/
  toggle with exact contracts, ids from the clock.
- `shell` — the window toggle and tray menu decisions.

`app/` holds the Tauri program: commands, file storage (JSON through
serde), the tray, the global shortcut and the Win32 list-view reads.
