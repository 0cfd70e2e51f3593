//! A verified execution engine for a BRC20-style token-transfer protocol.
//!
//! Operations (deploy, mint, inscribe-transfer, transfer) arrive as JSON
//! payloads carried by chain inscriptions. The engine decodes each payload,
//! validates it against the accumulated ledger state, applies it, and emits
//! an immutable receipt. All arithmetic goes through a bounded-precision
//! decimal type whose operations are checked, never wrapping or rounding.

//! The modules, leaves first: [`num`] and [`num_text`] hold the bounded
//! decimal and its textual form; [`json`] and [`operation`] decode
//! payloads; [`ledger`] holds the registry, balances and locks; [`engine`]
//! applies operations and emits receipts; [`events`] reshapes receipts for
//! query consumers.

pub mod conservation;
pub mod engine;
pub mod error;
pub mod events;
pub mod json;
pub mod ledger;
pub mod num;
pub mod num_text;
pub mod operation;

pub use engine::{Context, Receipt};
pub use error::BRC20Error;
pub use ledger::Ledger;
pub use num::Num;
pub use operation::Operation;
