# file-trackr

Takes snapshots of a directory tree and shows what changed between them.

- `src/` is the library, verified with Verus: the rules that say how deep a snapshot goes,
  snapshots and paths into them, differences, reports, and the commands that a track
  answers. The modules that end in `_laws` state what holds across functions.
- `app/` is the program around it: the command line, reading directories, colours, and the
  JSON file that a track is kept in.
- `tests/` runs the library on concrete values.

## Commands

    list snapshots            the snapshots, by number and time
    show [path] [-i id] [-d depth]
                              a snapshot, the newest unless a number is given
    snap [-d depth]           takes a snapshot, down to that many levels
    compare [path] [a] [b] [-d depth]
                              two snapshots, the two newest unless numbers are given
    rule                      the rules
    rule add <path> <depth>   grants a path that many levels; `*` stands for any name;
                              a depth that stands above stays for what no rule mentions
    rule remove <path>
    rule simplify [path]
    help [command]
    exit
