//! Shovel Knight spreadsheet (`.stb` / `.stm`) and localization (`.stl`) table formats.

pub mod bytes_read;
pub mod conversion;
pub mod csv_format;
pub mod csv_parse;
pub mod edit_laws;
pub mod error;
pub mod groups;
pub mod hash;
pub mod inner_cell_editor;
pub mod layout_lemmas;
pub mod stb_csv;
pub mod stb_format;
pub mod stb_inner_cells;
pub mod stb_laws;
pub mod stb_line;
pub mod stb_read;
pub mod stl;
pub mod strings;
pub mod table;
pub mod table_line;
pub mod text;
pub mod text_out;

pub use error::{StbError, StbTablesValidation, TablesMismatchKind};
pub use hash::stb_hash;
pub use inner_cell_editor::InnerCellEditor;
pub use stb_inner_cells::StbInnerCells;
pub use stb_line::StbLine;
pub use stl::Stl;
pub use table::{Stb, StbView};
pub use table_line::{LineReplaceMode, TableLine};
