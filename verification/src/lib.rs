//! SurrealDB schema migration runner.
//!
//! Migration files live in two folders, `up/` and `down/`, as paired `<name>.surql`
//! files (same stem in both). They are sorted by name; use a zero-padded numeric prefix
//! (`0001_`, `0002_`, ...) to control the order.
//!
//! The runner works statement by statement:
//!   1. It splits each file into top-level statements (respecting strings, comments and
//!      `{ ... }` blocks).
//!   2. It runs each statement on its own and stops at the first error.
//!   3. When every statement of a file has been accepted, it looks at the tables of the
//!      database and verifies that every table that the file defines exists.
//!   4. Only then does it write the marker of the migration to the `_migrations` table.
//!      A partial apply leaves no marker, so that the next `up` applies the migration
//!      again.
//!
//! The runner does not talk to the database itself: a [`Run`] says what it asks, and
//! goes on with the reply. See [`migrator`].
//!
//! What holds of the library as a whole is stated and proved in [`text_laws`] (of texts
//! and the order of names), [`reading`], [`splitting`] and [`rereading`] (of the statements
//! of a text), [`wording`] and [`definitions`] (of its words and the tables it defines),
//! [`file_laws`] and [`record_laws`] (of the files and the records), [`laws`], [`causes`]
//! and [`requests`] (of every run, whatever the database replies), [`markers`], [`undo`] and
//! [`batches`] (of the markers, with a database that keeps them).

pub mod batches;
pub mod causes;
pub mod conversation;
pub mod definitions;
pub mod error;
pub mod file_laws;
pub mod files;
pub mod history;
pub mod laws;
pub mod markers;
pub mod migrator;
pub mod plan;
pub mod protocol;
pub mod reading;
pub mod record_laws;
pub mod requests;
pub mod rereading;
pub mod splitting;
pub mod surql;
pub mod tables;
pub mod text;
pub mod text_laws;
pub mod undo;
pub mod wording;

pub use error::MigrationError;
pub use files::{File, Files};
pub use history::{MigrationRecord, MigrationStatus};
pub use migrator::{Migrator, Progress, Report, Run};
pub use protocol::{Reply, Request};
