//! The line format of a sample stream.
//!
//! A stream is a run of bytes cut into lines by line feeds, and each line
//! holds one number or none. `literal` reads a line, `lines` a text line by
//! line, `partition` cuts a text between lines, and `region` reads the
//! partitions side by side.

pub mod lines;
pub mod literal;
pub mod partition;
pub mod region;

pub use lines::{chunk_tokens, parse_chunk, tokens_of};
pub use literal::{
    check_decimal, is_space, line_token, parse_hex, parse_line, trim, Literal, Token, LINE_FEED,
};
pub use partition::{is_partition, partition_boundaries, partition_cuts, partition_tokens};
pub use region::{parse_partition, parse_region, parse_region_among};
