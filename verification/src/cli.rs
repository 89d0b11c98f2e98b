//! The command line as plain values: what the program is asked to do.
use vstd::prelude::*;

verus! {

/// Browse a todo tree, or convert its tickets.
pub struct Cli {
    pub command: Option<Command>,
    /// Project root or todo directory.
    pub path: Option<std::path::PathBuf>,
    /// Disable filesystem watch and auto-reload.
    pub no_watch: bool,
}

pub enum Command {
    /// Convert JSON tickets to TOON. Source `.json` files are removed unless `--keep`.
    JsonToon(ConvertArgs),
    /// Convert TOON tickets to JSON. Source `.toon` files are removed unless `--keep`.
    ToonJson(ConvertArgs),
}

pub struct ConvertArgs {
    /// Single file or directory. Defaults to nearest .todo/todo dir under cwd.
    pub path: Option<std::path::PathBuf>,
    /// Preview changes without writing or deleting.
    pub dry_run: bool,
    /// Keep source file after successful conversion.
    pub keep: bool,
    /// Overwrite destination if it already exists.
    pub force: bool,
    /// Suppress per-file output.
    pub quiet: bool,
}

} // verus!
