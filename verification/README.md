# lib

The verified core of a small RISC-V kernel, written in Verus: the Sv39-family
paging structures, the `rfs` block filesystem, and the kernel's own allocators and
trap decisions. Every function carries a `requires`/`ensures` contract that Verus
proves; the few calls into std that Verus cannot read stand behind small trusted
wrappers whose contracts say what std documents.

## Layout

| module | holds |
|---|---|
| `utils`, `geometry` | bit fields, masks, alignment; page sizes per level |
| `addr`, `pte`, `satp`, `scheme`, `sv39` | addresses, page-table entries and flags, the `satp` register, the Sv39/Sv48/Sv57 schemes |
| `table`, `frames`, `access`, `mapper` | one page table, where table frames come from, how frames are reached, and the page-table tree with map, unmap, translate and teardown |
| `blockdev`, `cache`, `bitmap`, `layout` | block devices, the write-back block cache, on-disk bitmaps and record encodings |
| `fs`, `dir`, `file` | inodes and their block trees, directories and path resolution, file handles |
| `kernel`, `heap`, `trap` | size formatting, alignment, the frame pool, the buddy heap, and what the kernel does on a trap or system call |

Properties that span several calls (a read gives back a write, a remount shows the
same files, a lookup finds what `create` made, a translation follows the mapping) are
public proof functions beside the code they are about.

## Checking

`tests/` holds ordinary Rust tests that exercise the library on concrete values.
