//! Boschloo's unconditional exact test on 2x2 tables: the verified core.
//!
//! The library holds the exact, integer part of the test: reading a table
//! `a,b,c,d`, the lines of a batch file, the choice of tail, the sample space
//! of tables that share the observed column totals, and the support of the
//! hypergeometric distribution that orders those tables.

pub mod alternative;
pub mod batch;
pub mod hypergeom;
pub mod sample_space;
pub mod table;
pub mod text;

pub use alternative::{Alternative, AlternativeArg};
pub use batch::{batch_table_lines, parse_batch_line, trim_ascii, BatchLineError};
pub use hypergeom::{binom_in_support, hypergeom_support};
pub use sample_space::{has_empty_column, SampleSpace};
pub use table::{parse_table, TableError};
