# manifestus

A crash-proof keyed object store over mirrored 4 KB block devices, verified with Verus.

Power loss at any byte boundary is normal operation. Every block is sealed with the hash of its body,
so a block is sealed, empty or corrupt, and nothing else is believed. A spine entry is the commit
point: the newest one defines exactly what exists, and everything after it is provisional.

## Layout

`src/` is the library; every function of it is verified.

| modules | what they hold |
|---|---|
| `block`, `mirror`, `events`, `error` | the device surface, two devices as one, what is noticed and what goes wrong |
| `wire`, `seal`, `names`, `text` | wire values, sealed documents, numbers as text |
| `spine`, `ring`, `root` | commit objects, the ring that is searched for the newest, the residence it lives in |
| `key`, `extent`, `doc`, `value`, `tract` | key routes, runs of blocks, tract documents, values laid down, the log |
| `trie`, `edit`, `cut`, `swap`, `keep`, `settle`, `haul`, `regroup`, `hamt` | the index: its paths, what each operation does to them, the index itself |
| `survey`, `roster`, `load`, `live`, `tight` | walks of a committed index, its keys, loading it, which blocks are live and that no others are |
| `standing`, `mooring`, `vault`, `laws` | what a vault holds and what is durable, how a disk leads to the head, the vault, its laws |
| `replicate`, `inspect`, `render` | converging two devices, decoding one without the engine, showing that |
| `record`, `store`, `dual` | the append-only record store, alone and in pairs |

The functions named `law_*` state what holds of the library as a whole: what is read back of a write,
what survives a power loss, what replication and compaction keep.

`tests/` runs the library on devices in memory. `app/` is the host: file-backed devices and stores, and
the tools `vaultinfo` and `vaultfix`.

## What is trusted

The hash functions of `blake3`, parsing and flattening in `vsf`, the hash maps of `hashbrown` and one
sort of the standard library are called through functions whose contracts are believed. Each says in
its comment what it claims. A `BlockDev` is the host's: its contract says what a read and a write do,
and that a device that does not fail keeps what was written.
