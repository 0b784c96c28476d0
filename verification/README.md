# disktree

Find what is filling a disk.

`src/` is the library, written in Verus: every function states what it
returns, and the statement is proved.

- `tree` is the scanned tree: totals, order, ages, search.
- `filter` says which of a tree to show for a name, a colour or an age.
- `cache` keeps the last scan as bytes, and reads it back.
- `mft` reads an NTFS volume from its master file table.
- `filetype` says what a file is by its name.
- `paths` spells paths one way on every platform.
- `args` reads the command line.
- `icon` packs the program's icon from its mark.

`app/` is the program around it: arguments, files, volumes, and the drawing
of the icon, which takes floating-point numbers. It lists a tree; it does not
draw one.

`tests/` runs the library from outside.

## What is believed without proof

A handful of functions of the standard library and of `rustc-hash` are called
through items that say what they return: `src/text.rs` and
`src/filter/keeping.rs` hold them all. Lower case is taken from the standard
library under the name `lowercase`; of text that is not ASCII nothing more is
said of it than that it is not empty.
