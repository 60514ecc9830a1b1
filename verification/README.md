# lau-provenance

Decision provenance: every change is recorded with its intent, the model
that made it, the alternatives considered, the trade-offs and debt accepted,
the files it touches and whether tests passed. Entries render to and read
from a `.logic_provenance.md` markdown format, live in a queryable ledger,
and a pre-commit hook checks that staged files have an entry.

The library under `src/` is verified with Verus:

- `text` — the character-level model of the string operations the format
  uses (`trim`, `find`, `lines`, decimal numbers) and their implementations.
- `entry` — `Alternative` and `ProvenanceEntry`, their views, construction,
  setters and validation.
- `markdown` — rendering, the one-line summary, and reading markdown back.
- `ledger` — `ProvenanceLedger` queries, rendering and statistics.
- `hook` — `ProvenanceHook`: commit validation and enforcement.
- `error` — the error types and their messages.
- `roundtrip` — the proof that rendering then reading gives the entry back.
- `laws` — further properties that relate several functions.

The conservation cost is a floating-point number; the library keeps its
bit pattern and takes its rendered text as an argument. `app/` holds the
serde-enabled copies of the types and the code that formats, parses and
sums the cost.
