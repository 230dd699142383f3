# FocusFlow

FocusFlow counts key presses, mouse buttons and wheel turns by day, hour, key, application and
device, and keeps the counts in one database file per year. Beside that it keeps a small ledger,
daily counts of the browser history, and aliases for devices.

The rules are in a library that is verified with Verus; the program around it talks to files,
threads and the system.

- `src/`: the library.
  - `listener`, `device_stats`, `app_stats`: what an input event counts as, for which device and
    for which application.
  - `db/writer`, `db/store`, `db/database`: counts in memory, the tables of a year, and the way
    from one to the other.
  - `db/select`, `db/queries`, `db/devices`: statistics over the tables.
  - `db/archive`, `db/legacy`, `db/maintenance`, `db/repair`: moving days to their year, data of
    early versions, removing data, and tables that do not add up.
  - `db/backup`, `db/pool`: which backups are made and kept, and which connections stay open.
  - `accounting`, `edge_history`, `device_alias`, `config`, `autostart`, `format`, `cli`: the
    ledger, the browser history, aliases, settings, start with the system, texts, and the command
    line.
  - `tally`, `order`, `text`, `textmap`, `calendar`, `hardware`: tables of amounts, sorting,
    strings, dates and device paths.
- `tests/`: tests of the library on concrete values.
- `app/`: the program.

An entry of the ledger keeps its amount as it is stored; sums are in cents. Times that the library
gets are plain numbers; it never reads a clock.
