# bgone

A configurator for FreeBSD ports. It asks `make` what each port of a build set
is, shows the ports and their options as one list, and writes the choices made
as the options files that the ports framework reads.

The library, `src/`, holds the logic and is verified with Verus. The program
around it, `app/`, holds the terminal, the file system, the cache and `make`.

| Module      | What it holds                                                        |
|-------------|----------------------------------------------------------------------|
| `resolve`   | the queries put to `make`, and what its reply says                   |
| `oracle`    | the memo: which question is which, and what to do on a miss          |
| `graph`     | the list of ports: what pulls what in, rows, choices, groups         |
| `ui`        | keystrokes, answers that arrive, and every line that is drawn        |
| `reader`    | reading saved options back                                           |
| `exporter`  | writing options files and the managed block of `make.conf`           |
| `roundtrip` | that what is written reads back                                      |
| `cli`       | where each setting comes from                                        |
| `config`    | the config file, and writing groups into it                          |
| `poudriere` | what a jail and a ports tree say                                     |
| `describe`  | a port's own description                                             |
| `indexer`   | which ports a tree holds, and the rows they become                   |

What holds of the whole is stated as public proof functions: in `graph::laws`,
`graph::exclusive`, `graph::relations`, `graph::harmony`, `graph::listing`,
`graph::places`, `graph::rounds`, `ui::laws` and `roundtrip`, and beside the
functions they are about.
