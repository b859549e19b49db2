# pacman_update_viewer

A terminal viewer for pending pacman updates and installed packages, shown
as a collapsible tree of who requires whom (or, transposed, who depends on
whom), with each package's impact: the number of installed packages that it
reaches, itself included.

The logic is a library verified with Verus (`src/`):

- `names`, `namemap`: byte order on names, and a sorted map keyed by name.
- `graph`: the depgraph, the closure of a package and its impact.
- `sort`: a stable insertion sort, specified as `slice::sort` orders.
- `text`: lines, words, search and trimming on strings.
- `parse`: the output of `checkupdates` and of `pacman -Qi`.
- `state`: the viewer's state, the rows on screen, and the operations on them.
- `keys`: what a key press does, and what it asks the program to do.
- `render`: the text of the rows, the title and the key hints.
- `layout`: where the popups go (through ratatui's layout solver).
- `laws`: properties of the library as a whole, proved.

`app/` is the program around it: reading and writing the depgraph file with
serde, running `checkupdates`, `pacman` and `sudo`, and drawing with ratatui
and crossterm. Tests are under `tests/`.
