use vstd::prelude::*;

verus! {

/// The command-line request: a file to work on, the operating mode, an
/// optional process name, and whether to open the interactive shell.  The
/// argument parsing itself lives outside the library; this type carries its
/// result.
#[derive(Debug, Clone)]
pub struct Cli {
    pub file_path: Option<String>,
    pub mode: Mode,
    pub process_name: Option<String>,
    pub repl: bool,
}

/// The supported operating modes.
#[derive(Debug, Clone, Copy, PartialEq, Eq, Structural)]
pub enum Mode {
    Parse,
    AnalyseTrace,
    Bugreport,
}

} // verus!
