# Rinha Fraude Vetorial

Fraud scoring by exact nearest-neighbour search, written in Rust and verified with Verus.

A transaction becomes a vector of fourteen features, the features are quantised to sixteen bits,
and the five nearest of the reference transactions decide: their share of fraud is the score, and
the transaction is approved below three in five.

- `src/` is the verified library. `float32` gives single-precision arithmetic a mathematical
  model, on which `features`, `quantize` and `decision` rest; `dataset`, `search`, `sampling` and
  `reference_file` hold the references, find the nearest, draw balanced samples and read and write
  the binary file; `order` shows that the order of the references does not decide; `engine` puts them together; `timestamp`, `request`, `paths` and `service` are
  what the programs hand in.
- `tests/` runs the library, and compares its arithmetic with that of the machine bit by bit.
- `app/` is the HTTP service (`GET /ready`, `POST /fraud-score`) and, with `preprocess` as its
  first argument, the conversion of `references.json.gz` into `references.bin`.

The service reads `DATA_DIR` (default `data`), and listens on the Unix socket `SOCKET_PATH` or else
on the TCP port `PORT` (default 8080).
