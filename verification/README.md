# n0qlog

A viewer for qlog traces of QUIC connections. The analyses that the viewer
shows are a library whose behaviour is stated in contracts and proved with
Verus; the program around it reads files, parses JSON and draws.

## Layout

- `src/` — the verified library.
  - `model` — the events of a trace as plain values; timestamps appear as
    order keys, and every reported time is the index of an event.
  - `records` — which serialization a file uses, how its records are cut
    apart and normalized, which parsed records make up the trace, event
    names.
  - `correlation`, `table` — acknowledgements, losses, reorderings, time
    gaps, congestion and ECN periods, and the laws that link them.
  - `stats` — packet, byte and per-stream counts of a connection.
  - `event_list` — categories, filters, filter choices, keyboard selection.
  - `packetization` — packets and frames laid out on a byte axis.
  - `multiplexing` — STREAM frame segments per stream.
  - `congestion` — the congestion graph's integer series and thinning.
  - `sequence`, `arrows`, `ordering` — packets and arrows of the sequence
    diagram, arrow labels and fan-out, tuples, metrics event kinds, frame
    tags, a stable merge sort.
  - `metrics` — which metrics events are shown, variant names, the colours
    of event names.
  - `frames`, `text` — names, byte formatting and string helpers.
  - Each analysis whose totals must fit in `u64` has a checker beside it
    (`statistics_fit`, `byte_layout_fits`, `series_fits`,
    `stream_data_fits`) that tells exactly when they do.
- `tests/` — tests of the library on concrete traces.
- `app/` — the program: command line, file reading and JSON parsing, the
  conversion of parsed events, floating-point values and the egui interface.
