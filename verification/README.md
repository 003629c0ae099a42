# whatsapp_esp32

The logic of a WhatsApp node on ESP32 boards, written in Verus: executable Rust whose
behaviour is stated in contracts and proved.

The library in `src/` touches no socket, partition or clock. Whoever drives it hands in bytes
and readings, and carries out what comes back.

- `ws`, `ws_handshake`, `transport`: the WebSocket client, what each frame calls for, and a
  connection from its first byte to its end
- `http_client`, `http_chunked`: requests, responses and the chunked transfer coding
- `flash`, `mirror`, `recovery`, `storage`: the record store of a linked device, and what
  survives boots and power failures
- `caches`: what the protocol can rebuild
- `supervisor`, `firmware`: maintenance, and how a client that stopped is followed up
- `admin`, `device_status`, `metrics`, `crash`: the admin interface and what it shows
- `runtime`, `psram_alloc`: the rules of threads, tasks and memory
- `scan`, `text`, `rows`, `json`, `buffers`, `digest`: what the others are built from

Calls into other crates stand behind functions whose doc comment begins with `Trusted:` and
says what is claimed of them without proof.

`app/` is the firmware around the library: everything that is asked of the board is in
`app/board.rs`. `tests/` runs the library.
