# dbc_rs

A reader and writer for CAN database (DBC) files whose logic is proved with
Verus.

- `src/` is the verified library: the byte-level `Parser`, node lists (`BU_`),
  receivers, signal and message definitions (`SG_`, `BO_`), signal types,
  extended multiplexing entries, signal groups, error values and their
  messages, and the bit-level decoding of raw signal values. Every function
  carries a contract over spec functions (`*_parse`, `*_text`, `*_problem`,
  ...) that say what it reads, writes or refuses.
- `src/nodes_laws.rs`, `src/signal_laws.rs` and `src/message_laws.rs` prove
  that what the library writes reads back as what was written.
- `app/` holds what works with floating point: signals, signal types and
  messages with `f64` scaling, built on the library's number texts.
- `tests/` runs the library on concrete inputs.
