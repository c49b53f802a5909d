# wfb_ng

A one-way radio link on WiFi hardware in monitor mode.  The library holds the logic of the link and is
verified with Verus; the programs around it are in `app/`.

- `src/` - the library.  Every function states what it does; the modules whose names end in `_laws`
  prove what holds of several of them together, from the erasure code up to the delivery of payloads
  from end to end.
- `src/crypto.rs` - the calls into libsodium.  They are believed and not proved, as is, in
  `src/bytes.rs`, the question to the machine for its byte order.
- `tests/` - tests on concrete values.
- `app/` - sockets, captures, clocks and command lines: `wfb_rx`, `wfb_tx`, `wfb_tun`, `wfb_tx_cmd`,
  `wfb_keygen`, `wfb_rtsp` and two checks of the machine.
