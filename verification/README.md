# assignment_1_solution

Reliable broadcast over stubborn links, with crash recovery through a
key-value stable storage, and the scheduling core of a small actor executor,
verified with Verus.

- `src/` is the verified library:
  - `domain.rs`: the messages;
  - `ids.rs`, `bytes.rs`, `codec.rs`: identifiers and the byte encodings of
    headers, messages and records;
  - `stable_storage.rs`: the storage interface and an in-memory storage;
  - `schema.rs`: byte strings stored as numbered chunks;
  - `reliable_broadcast.rs`, `stubborn_broadcast.rs`: the two broadcast
    layers as state machines that hand their effects back;
  - `history.rs`: what a reliable broadcast process received and delivered
    since it was built, and why each delivery was justified;
  - `persistence.rs`: what recovery reads back of what was stored;
  - `file_layout.rs`: where a storage kept in files puts each key;
  - `executors.rs`: the decisions of the executor (module table, tick
    scheduling);
  - `assoc.rs`: maps held as sequences of pairs.
- `app/` is the running system: threads, channels, the system clock and the
  file system, driving the state machines of the library.
- `tests/` exercises the library on concrete values.
