//! Applier for HFST optimized-lookup transducers (`.hfstol`).

mod alphabet;
mod encoding;
mod error;
mod flag_state;
mod header;
mod lookup;
mod paths;
mod text;
mod transducer;

pub use alphabet::{Alphabet, FlagDiacriticOperation, FlagOp};
pub use error::{Error, Result};
pub use header::Header;
pub use transducer::{Analysis, Transducer};
