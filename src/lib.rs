pub mod error;
pub mod front;
pub mod key_code;
pub mod parcel;
pub mod scanner;
pub mod table;
pub mod text;

pub use error::{ErrorView, ParseError};
pub use front::{
    color_scheme, dark_mode_cookie, prefers_dark_from_cookie, resolve_prefers_dark, search_rolls,
    toggle_label,
};
pub use key_code::{parse_print_key_code, PrintKeyCode};
pub use parcel::{MailingAddress, Parcel, ParcelAddress, Roll};
pub use scanner::{scan_blocks, split_lines, MARKER_RUN};
pub use table::{assemble_table, parse_parcels, ParcelTable};
