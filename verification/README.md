# BLF Decoder

Decodes CAN bus logs: a BLF file (Vector Binary Logging Format) is read against
a DBC signal database and written as a table, in CSV or Parquet.

The logic is a library verified with Verus; the program around it does the
input and output.

## What it does

- Reads BLF files piece by piece: `LOGG` header, `LOG_CONTAINER` objects (stored
  or zlib), and the CAN objects inside and outside of them (`CAN_MESSAGE`,
  `CAN_MESSAGE2`, `CAN_FD_MESSAGE`, `CAN_FD_MESSAGE_64`). Everything else is
  skipped.
- Reads DBC files: `BO_`, `SG_` and `SIG_VALTYPE_`, with Intel and Motorola byte
  order, signed and IEEE values, multiplexors, units.
- Decodes frames to one column per signal. Names that occur in several messages
  are qualified as `Message.Signal`. J1939 databases match by parameter group.
- Writes one row per frame, or rows on a fixed grid in which every signal keeps
  its latest value.

## Usage

Without arguments the program opens a window with a job queue. On the command
line:

```
blf_decoder --blf input.blf --dbc database.dbc --out ./output --format csv
blf_decoder --blf input.blf --dbc database.dbc --out ./output --format parquet
```

The output file is named after the BLF file. The command line writes one row
per frame, with the time in seconds since the Unix epoch.

## Layout

| Part | Content |
|---|---|
| `src/bytes.rs`, `src/calendar.rs`, `src/text.rs`, `src/lexer.rs`, `src/clock.rs` | numbers, dates and text |
| `src/frame.rs`, `src/inflate.rs`, `src/blf.rs`, `src/blf_laws.rs` | the log file |
| `src/dbc.rs`, `src/dbc_laws.rs` | the signal database |
| `src/bits.rs`, `src/decode.rs`, `src/decode_laws.rs` | decoding |
| `src/shape.rs`, `src/shape_laws.rs` | resampling |
| `src/export/` | CSV lines and Parquet row groups |
| `src/convert.rs`, `src/convert_laws.rs`, `src/messages.rs` | the conversion, step by step |
| `src/config.rs`, `src/job.rs`, `src/queue.rs`, `src/queue_laws.rs`, `src/paths.rs`, `src/cli.rs` | settings, jobs, queue and command line |
| `app/` | files, window, threads, and floating point |
| `tests/` | tests of the library |

Values leave the library as integers or IEEE bits, with the factor and offset
of their column in decimal notation; times leave it as whole nanoseconds. The
program turns both into floating point.

Every contract in `src/` is proved, except for a few outside functions that are
taken at their word. They are `String::push`, `String::from_utf8_lossy`,
`str::to_lowercase`, `Path::file_stem`, `Path::extension`, `Path::join` and the
zlib decoder of `flate2`; each is wrapped in one place with a comment that says
what is claimed of it. The files ending in `_laws.rs` state what holds across
several functions.
