//! Garbage marking for a content-addressed store.
//!
//! The store holds immutable objects that refer to one another. Given a
//! snapshot of the store's records and a retention window, this crate works
//! out which objects must stay (everything that a recently registered object
//! depends on, directly or not) and which objects and archives may go.
//! Nothing is deleted here: the outcome is a list.
//!
//! The steps, each in a module of its own:
//!
//! - `record` builds the record store from the listing. Identifiers are
//!   brought to their canonical key (`ident`) and numbered (`intern`). Of
//!   several records for one object the first is kept.
//! - `closure` says what the closure of an object is, over the reference
//!   graph of `graph`; `engine` computes closures, each once. References to
//!   identifiers that the store does not hold are passed over and listed by
//!   the store; a reference that closes a cycle contributes the object it
//!   names and nothing more.
//! - `retention` reads the retention window and selects the roots: the
//!   objects that entered the store after the cutoff.
//! - `sweep` keeps the closures of the roots and gives the rest, objects and
//!   archives, for deletion.
//! - `report` renders the outcome.

mod clock;
pub mod closure;
pub mod engine;
pub mod graph;
pub mod ident;
pub mod intern;
pub mod record;
pub mod report;
pub mod retention;
pub mod select;
pub mod sweep;
