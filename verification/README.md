# morion

The user-space services of the Morion operating system, written in Verus: the logic of every
service is a function over plain values, with a contract that is proved.

- `src/` is the verified library.
  - `disk`, `volume`, `nvme`, `ide`: sectors, partition tables, controllers.
  - `fat*`, `exfat*`, `ext2`, `tmpfs*`, `mfs*`: the file services. Each has a state with a
    `serve` function; its contract says what a request does to the state and what is replied.
  - `mount`, `client`, `path`, `vfs`, `wire`: routing of paths, requests and replies, and the
    layout of messages.
  - `shell`, `text`, `print`, `calendar`, `kbd`, `domain`, `bytes`: the shell and the small
    domains.
  - The modules whose names end in `laws` or `frame`, and `fat_tree`, `fat_entry`, `exfat_write`,
    `exfat_sets`, `exfat_tree`, `exfat_cut`, `exfat_resize`, `mfs_new`, `mfs_persist`, `mfs_cut`,
    `mfs_snap`, `mfs_names`, `mfs_tree`, `mfs_ways`, `mfs_via`, `mfs_moves`, `mfs_rename`,
    `mfs_links`, `mfs_ring`, `mfs_alike`, `mfs_reach`, `descriptors`, hold what is proved of
    several functions together: what a read gives back of a write, what a crash leaves, what
    collection keeps, where a path leads. On FAT and exFAT volumes it takes an allocation table
    whose sectors can all be transferred; other sectors that cannot be concern only what is on
    them.
- `tests/` runs the library on concrete volumes.
- `app/` is the program around it: system calls, messages, devices.

A volume is a `Disk`: its bytes, and which sectors can be used. A service works on a `Store` of
such disks and logs its writes; the program replays the log on the device before it replies. A
request whose writes the device refuses is served again, the refused sectors marked.
