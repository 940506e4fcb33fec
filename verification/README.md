# dash

An in-memory time-series database. Points arrive over HTTP, are kept in
compressed chunks for a limited time, and are read back as evenly spaced rows.

The library under `src/` is verified with Verus. It holds everything that
computes or decides; `app/` is the server around it: settings from the
environment, the clock, locks, routes and JSON.

| Module | What it is about |
| --- | --- |
| `bits` | strings of bits in bytes, written and read |
| `codec` | the chunk format, as it is written and as it is read |
| `gorilla` | the encoder and the decoder of chunks |
| `resample` | turning points into rows |
| `series` | one series: sealed chunks and a head |
| `retention` | what a series keeps, and what a query gives back of it |
| `catalog` | all series by name, and what each operation does to them |
| `shard`, `store` | the store itself |
| `names`, `glob` | names, their order and their segments; wildcards |
| `find` | browsing names level by level |
| `number`, `time_range`, `request`, `settings`, `clock` | what requests and settings say |

Values are 64-bit floating point numbers. The library sees them as their bits:
it stores, compares and gives them back, and computes nothing with them.

The store is used through one lock. A caller that keeps a series in use between
two calls says so with `Store::hold_series`, so that no sweep removes it.

The server reads `index.html`, `uPlot.iife.min.js` and `uPlot.min.css` from the
directory `assets` when it starts.
