//! An encrypted record store keyed by identifier.
//!
//! Each record holds a payload sealed under a key that is stretched from a
//! password. Opening a record checks the authentication tag and an embedded
//! password witness, and repeated failures lock the identifier for a while.
//! The table of records is plain data: callers hand its text in and take the
//! updated text back.
//!
//! The store itself is in [`store`] and [`store_proofs`], with [`record`]
//! and [`table`] for the stored text, [`guard`] for the lockout, [`witness`]
//! for the password witness, and [`kdf`], [`cipher`], [`encoding`] and
//! [`entropy`] for what other crates compute. [`blob_table`] is a second, simpler table format.
//! [`viewer`], [`sorting`], [`palette`] and [`messages`] hold the state and
//! the rules of the windows that show a table.

pub mod blob_table;
pub mod bytes;
pub mod chars;
pub mod cipher;
pub mod decimal;
pub mod encoding;
pub mod entropy;
pub mod guard;
pub mod kdf;
pub mod limits;
pub mod messages;
pub mod palette;
pub mod record;
pub mod sorting;
pub mod store;
pub mod store_proofs;
pub mod table;
pub mod text;
pub mod viewer;
pub mod witness;
