# mastercurve

Creep-rupture master curves: from tests at given temperatures and stresses to a life curve,
its uncertainty, and a judgement on every prediction made with it.

The library is written in Verus. Each function states what it asks of its inputs and what it
returns for them, and the proofs are checked together with the code. Functions named `law_...`
state what holds of several calls, or of the library as a whole.

## Layout

- `src/number` holds binary64 numbers as bit patterns, with addition, multiplication, division
  and comparison proved to round correctly, and the laws that later proofs use: what keeps the
  order (`order.rs`), and how far a result lies from the exact one (`error.rs`, `sums.rs`,
  `bounds.rs`).
- `src/host.rs` says what a caller supplies: elementary functions and the printing of numbers.
- `src/normal.rs`, `src/linalg.rs` and `src/simplex.rs` hold the numerical methods.
  `src/normal/values.rs` bounds the error function at chosen arguments and about 6, and
  `src/normal/rise.rs` says how far it keeps the order of its arguments.
- `src/models.rs`, `src/ingest.rs` and `src/stats` validate samples, fit them by maximum
  likelihood with right-censored times and variable loads, and predict.
- `src/specimen.rs` and `src/fit` do the same for the bench, with bounded parameters, heat
  offsets and a full report.
- `src/json.rs`, `src/server.rs`, `src/db.rs` and `src/cli.rs` hold what the service decides.
- `app` is the program: arguments, SQLite and HTTP.
- `tests` runs the library on concrete values.

What is taken on trust is marked `external_body` or `assume_specification` and documented
where it stands: `serde_json`, the clock, the `Debug` form of a string, and `String::push`.
