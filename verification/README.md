# cs140e

The core of a small Raspberry Pi operating system, written in Verus with
its behaviour stated in contracts and proved:

- `allocator`: memory layouts, alignment helpers, a bump allocator and a
  buddy ("bin") allocator whose free lists, live blocks and byte counts are
  kept consistent by every call.
- `mbr`, `vfat`: the FAT32 on-disk structures (master boot record, BIOS
  parameter block, directory entries with long file names), reading cluster
  chains, directories and files from a block device, and path handling.
- `process`, `traps`: processes, the round-robin scheduler and the system
  calls it serves (sleep, kill).
- `shell`, `commands`: the line editor, command parsing and what the
  built-in commands compute (`ls` lines, `cat` chunks, `cd` targets).
- `text`, `bytes`, `traits`: text decoding, little-endian fields and the
  block device interface.

`app/` runs the shell on a terminal, with a FAT32 disk image for the SD card.
