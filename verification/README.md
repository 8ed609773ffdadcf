# Fleet MIDI

A verified library for a fleet's event bus: it parses MIDI byte streams, wraps
messages and sensor readings in typed events, lets events inherit the last
spatial context, and persists them as Parquet partitions that can be queried
for the reading nearest to a time.

| module | what it holds |
|---|---|
| `midi` | the byte-level MIDI parser with running status, and the laws of streams |
| `broadcast` | routing of messages to agents by channel |
| `event`, `event_types` | the event envelope and MIDI messages as events |
| `context` | the context frame and the router through which events inherit it |
| `envelope`, `big_endian` | the binary form of events, with a CRC-8 |
| `decimal` | integers as decimal text |
| `persist::error` | the errors of persistence operations |
| `persist::row`, `persist::partition` | persisted rows, their partitions and paths |
| `persist::select` | the tolerance-window selection |
| `persist::merge` | merging rows into a partition |
| `persist::columnar` | the boundary to Arrow and Parquet: all that is trusted of them |
| `persist::compact` | Thrift's compact protocol, as far as it is looked through |
| `persist::file_schema`, `persist::pages`, `persist::deltas`, `persist::table_file` | what is asked of a file before its rows are decoded |
| `persist::event_table`, `persist::registry`, `persist::vessels`, `persist::sources` | the tables and their files |
| `persist::store`, `persist::flush` | the event store |
| `persist::laws`, `persist::history` | what holds of the store as a whole, and over its life |

Parquet's decoders count on whole files: some damage makes them panic. So the
footer of a file, and the pages of the columns that are read, are looked through
first, and a file whose parts do not hold together is never decoded. Such a file is
an error to whoever reads it alone, is passed over in a scan, and counts as empty
when it is written anew. Files of other columns, and of forms that are not looked
into (compressed pages, texts stored by differences), are neither read nor written
over.

`src/` does no input or output: files come and go as bytes. `app/` is the store
on a file system, around the library.

```text
<base_dir>/
  data/
    vessel=<id>/
      hour=<unix_hour>/
        events.parquet
  registry/
    vessels.parquet
    sources.parquet
```
