# gust

Gust is a monorepo platform that speaks git: it stores git objects, reads and
writes pack files and their indexes, answers the git smart-HTTP protocol and
the Git LFS lock API.

The library under `src/` is written in Verus: each function carries a
contract over a mathematical model of the bytes it reads or writes, and the
contracts are proved.

- `utils`, `text`, `hash`, `zlib`: variable-length integers, decimal and
  hexadecimal text, SHA-1 ids, zlib streams.
- `object`: object types and metadata, loose objects, deltas and the building
  of a delta from a diff.
- `git`: the object store format of blobs, trees, commits and tags.
- `pack`, `idx`: pack files (reading, writing, the object cache) and pack
  indexes.
- `protocol`, `gateway`: pkt-line framing, ref advertisements, upload and
  receive requests, and the routing of HTTP requests.
- `lfs`: listing, adding and deleting LFS locks.

Among the proved laws: every encoding reads back (sizes, offsets, pkt-lines,
trees, signatures, commits, tags, loose objects, pack headers), a delta built
from a diff rebuilds the new data, a pack written from a cache decodes to the
same objects by id, the cache gives back what was recorded, and LFS locks stay
sorted by time while a deletion removes exactly the lock asked for.

`app/` holds the program around the library: the command line, a blocking
HTTP server, and the file storage of refs, packs and LFS data. `tests/` holds
the tests.
