# turso_dump

An interactive SQL shell for a local Turso database, with a full-table dump
as a side mode. The library under `src/` holds the shell's logic, verified
with Verus; the program under `app/` reads the terminal, talks to the
database and prints.

| Module | What it holds |
| --- | --- |
| `sql` | splitting input into statements, quote- and comment-aware; the remainder is the text after the last statement as typed, so that input split anywhere into two parts gives the statements of the whole, a remainder splits again to itself, and each statement splits again, with a `;`, into itself |
| `table` | rendering a result table between box-drawing borders: every table is a grid of equally wide lines, only the row lines depend on the alignments, cells beyond the columns are left out and missing ones shown empty |
| `output` | showing values, blobs, elapsed times and statement reports; escaping cells, with the law that escaping loses nothing |
| `dump` | the dump of one table, numeric columns aligned right, the table's name quoted for SQL |
| `catalog` | the listings printed by `.tables` and `.schema` |
| `session` | the session's state machine: prompts, lines, commands, interrupts |
| `cli` | reading the command line |
| `text` | character-level helpers: trimming, decimal numerals |
