# smart_quiz

The verified core of a desktop practice application for a question bank (PLC
certification exams): grading, practice sessions, exam composition, spreadsheet and
bank-package import, duplicate detection, the document search corpus, and a few
path and logging helpers. Each function in `src/` carries a Verus contract, and the
properties that span functions are stated and proved as `law_*` proof functions in
the module they concern.

Layout:

- `src/` — the library, verified by Verus.
  - `session.rs` grading, sessions, drafts, finishing a session, dashboard statistics
  - `compose.rs` blueprint composition decisions and candidate queries
  - `excel.rs` spreadsheet rows to questions, import plan, score sheet
  - `bank.rs` bank packages: format check, asset entries, chapter insertion, queries
  - `dedup.rs` normalised stems, SimHash, exact and near-duplicate groups
  - `docs.rs` document titles, chunking, jieba segmentation, match expressions, snippets
  - `print.rs` paper sections by question type
  - `backup.rs` backup form, diagnostics log selection
  - `protocol.rs` asset request routing and percent-decoding
  - `telemetry.rs` command log entries, path redaction, log tails
  - `text.rs` character helpers and the trusted boundary to `std`
- `tests/` — tests of the library.
- `app/` — the application around it: SQLite, archives, workbooks, logging.
