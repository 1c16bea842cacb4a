//! Keeps the registry credentials of a Docker client configuration in a vault,
//! shows which of them is in use for each registry, and switches between them.
//!
//! The modules, from the ground up: the order on strings (`text`), the sorted
//! collections (`sorted`, `map`), the credential record (`record`), the
//! decoding of its token (`token`), the two stores and their merge
//! (`parser`), the index of the vault (`state`), what is shown of it
//! (`listing`), and the switch of the record in use (`switch`).

pub mod text;
pub mod sorted;
pub mod map;
pub mod record;
pub mod token;
pub mod parser;
pub mod state;
pub mod listing;
pub mod switch;
