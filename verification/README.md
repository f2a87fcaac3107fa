# l-rs

Client library for the L database: the K value model, its wire encoding,
IPC framing and LZ4 inflation, temporal spellings and parsers, reading
and writing tables as CSV / JSON, and the decisions of the `lconn`
console.

- `src/` — the library, verified with Verus: every public function states
  what it returns over a mathematical model (`K`'s view `KV`, byte and
  character sequences), and the laws (wire round trip, calendar and ISO
  round trips, table shape) are proof functions. Receiving a reply is
  `ipc::receive` on the bytes of one frame; a CSV or JSON file's bytes
  become a table through `io::csv::read_csv_bytes` and
  `io::json::read_json_bytes` (the `csv` and `serde_json` readers behind
  trusted wrappers).
- `app/` — the `lconn` console and what needs the operating system: the
  TCP `Connection` (`connect`, `query`, `query_with_args`, `send_async`),
  which moves bytes and hands them to the library, file reading and
  writing, the terminal, floating-point spellings.
- `tests/` — tests of the library on concrete values.
