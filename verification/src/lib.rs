//! Build-time translator for a line-oriented network-probe payload database:
//! port selectors paired with escaped byte payloads are parsed, joined by
//! source line, and assembled into a deterministically ordered table.
//!
//! The pipeline runs strictly forward: raw bytes are split into trimmed,
//! numbered definition lines; each line yields an ordered port set and a
//! decoded payload; the two derivations are joined by line number into a
//! table keyed by port set, ordered ascending; the table is serialized as
//! loadable source text.

pub mod scan;
pub mod warn;
pub mod lines;
pub mod fields;
pub mod ports;
pub mod payload;
pub mod table;
pub mod emit;
pub mod pipeline;

pub use emit::generate_code;
pub use pipeline::build_table;
pub use fields::split_fields;
pub use table::{port_payload_map, table_get};
pub use payload::{encode_payload, parser, payloads_v};
pub use ports::{parse_port, ports_v, selector_to_ports};
pub use lines::parse_file_data;
pub use warn::Warning;
