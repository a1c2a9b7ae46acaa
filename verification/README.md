# Cubicle

A small persistent key-value server that speaks RESP (the Redis protocol).
Every change is appended to a write-ahead log (`cubicle.wal`) before it is
applied; snapshots (`cubicle.snap`) hold the whole store, and on start the
store is rebuilt from the snapshot and then the log. Each record on disk is the
CRC32 of its payload in eight hex digits, a space, and the RESP encoding of a
command.

The library under `src/` is verified with Verus:

- `resp`: frames, their encoding, and an incremental reader over a cursor or a
  `BytesMut` buffer; `resp_laws` proves that encodings read back as the frames
  they encode, that a buffer cut short reads as incomplete, and that a stream
  read in pieces gives the same frames as read at once.
- `decimal`, `checksum`, `text`: decimal integers, record headers, UTF-8 and
  character helpers.
- `value`: stored values and how a value is read from its text.
- `display`: the text a value is written with (for values without a
  floating-point number), with the law that the text of an integer, a boolean
  or a list of them reads back as the value.
- `cmd`: commands and how one is read from a request frame.
- `store`: the `im::OrdMap` that holds the store, seen as a map.
- `persistence`: log and snapshot records and the replay that restores the
  store, with the laws that a record replays as the command it holds, that a
  torn last record is skipped, and that a snapshot restores the entries it
  lists.
- `session`: what the server decides for each request and each outcome of its
  disk writes (`step`), the replies to `GET` and `SEE`, and the snapshot file
  of a store, with the laws that an acknowledged change is restored from the
  snapshot and the log (when no snapshot empties the log between its copy of
  the store and the change), and that the snapshot of a store of integers,
  booleans and lists of them restores that store.

`app/main.rs` is the Tokio server around it: sockets, files, timers, and the
text of values that hold a floating-point number.

Commands: `SET key value`, `GET key`, `DEL`/`DELETE key`, `SEE`/`KEYS`,
`SNAPSHOT`/`SAVE`/`BGSAVE`, in any case.
