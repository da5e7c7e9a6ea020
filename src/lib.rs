//! Detection and repair of Windows drive paths that shell quoting and escaping
//! would corrupt before a command runs.

pub mod bytes;
pub mod classify;
pub mod hedging;
pub mod normalize;
pub mod path;
pub mod scan;

pub use bytes::{is_alnum, is_letter, is_path_char};
pub use scan::{quote_states, step, Quote, ScanState};
pub use path::{drive_paths, next_drive_path, separator_runs, DrivePath};
pub use classify::{
    check_dev_stdin, check_node_eval_backslash_paths, check_trailing_backslash_quote,
    check_unquoted_backslash_paths, classify, find_device_hazard, find_node_eval_pos,
    find_quote_collision, find_script_path, find_unquoted_loss, HazardFinding, HazardKind,
};
pub use normalize::{normalize, FixKind, FixOutcome};
pub use hedging::{empty_seen, scan_lowered, scan_text};
