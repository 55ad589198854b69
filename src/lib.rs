//! Conversion of a compiler's debug metadata graph into a deduplicated table
//! of type records for a bytecode runtime's type format.
//!
//! - `sanitize`: type names into identifiers of the format's alphabet.
//! - `meta`: the metadata graph that a pass reads.
//! - `enums`: how an enum is lowered.
//! - `btf`: the output table and the identity keys it is deduplicated by.
//! - `graph`: conditions on the graph under which a pass succeeds.
//! - `lower`: the lowering pass and its driver.
//! - `message`: the text of a diagnostic message.
pub mod btf;
pub mod enums;
pub mod error;
pub mod graph;
pub mod lower;
pub mod message;
pub mod meta;
pub mod sanitize;
