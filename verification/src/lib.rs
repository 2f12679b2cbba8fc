//! Verified core of a question-bank practice application: answer grading and
//! sessions, exam composition, bank-package and spreadsheet import, duplicate
//! detection, the document search corpus, printing, backups, and a few path, URI and
//! logging helpers.
mod text;
pub mod backup;
pub mod bank;
pub mod compose;
pub mod docs;
pub mod session;
pub mod dedup;
pub mod protocol;
pub mod telemetry;
pub mod excel;
pub mod print;
