# wtm_gui

The verified core of a desktop Git worktree manager: the decisions and
data shaping behind its worktree list, base-ref and branch pickers, file
browser, diff viewer, fetch reporting, context menus, remote-host views and
command runs. Every function in `src/` carries a contract proved by Verus,
except four thin wrappers whose contracts are trusted: around
`String::push`, `str::to_lowercase`, `String::from_utf8_lossy` and
`unicode-segmentation`'s grapheme iterator. The last three name their
results (`lowercase`, `utf8_lossy`, `extended_graphemes`) rather than
spell them out.

- `src/` — the library. Strings are modelled as `Seq<char>`, ordered
  lists as stable sorts by a `(rank, text)` key, row selections as
  strictly increasing index sequences, paths compared and ordered by their
  components as `std::path::Path` does. Laws that relate several calls are
  public `law_*` proof functions beside the code they speak of.
- `app/` — the host side: git (through `git2`), filesystem and process
  work, which gathers plain values, calls the library and returns what it
  decides; and the window's floating-point layout.
- `tests/` — executable tests of the library on concrete values.
