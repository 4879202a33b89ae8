//! Verified core of a hosts-file manager: parsing the system hosts file into
//! structured entries, serializing entries back to text, grouping entries for
//! incremental appends, duplicate detection, and the pure path/name
//! computations behind loading, saving and backing the file up.
//!
//! All file and process I/O lives outside this crate; the library works on
//! plain text and returns plain text, so every rule it applies is verified.

pub mod emit;
pub mod entry;
pub mod laws;
pub mod ops;
pub mod parse;
pub mod text;

pub use ops::plan_add;
pub use ops::append_line;
pub use ops::resolve_hosts_path;
pub use ops::backup_file_name;
pub use ops::spec_backup_name;
pub use ops::dec_digits;

pub use emit::banner_text;
pub use emit::serialize;
pub use emit::serialize_incremental;
pub use emit::spec_serialize;
pub use emit::spec_incremental;
pub use emit::spec_banner;
pub use emit::line_of;

pub use entry::HostEntry;
pub use entry::HostForm;
pub use entry::HostsError;
pub use entry::EntryV;
pub use entry::has_mapping;
pub use entry::contains_mapping;
pub use entry::valid_hostname;
pub use entry::wf_entry;
pub use parse::parse;
pub use parse::parse_line;
pub use parse::spec_parse;
pub use parse::spec_line_entries;
pub use text::is_ws_char;
pub use text::is_digit_char;
pub use text::is_ipv4_shaped;
pub use text::is_ipv4_token;
