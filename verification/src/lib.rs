//! Native Windows shims for Cygwin programs: what they decide and compute.
//!
//! - [`bridge`] and [`bash_search`]: how Cygwin's Bash is found, and how
//!   arguments reach it unchanged.
//! - [`git`] and [`tex`]: what each shim runs.
//! - [`invocation`] and [`short_names`]: the command line of a TeX program.
//! - [`diagnostics`], [`known_paths`], [`mapper`] and [`cygpath`]: the paths in
//!   its output.
//! - [`artifacts`], [`records`], [`synctex_file`], [`postprocess`] and
//!   [`replace_file`]: the paths in the files that it writes.
//! - [`native_path`], [`os_text`], [`path_map`], [`text`], [`bytes`],
//!   [`decimal`] and [`lists`]: what the others are written with.
//!
//! Nothing here reads a file, runs a process or looks at the environment. Where
//! a decision depends on that, a function says what has to be found out, and
//! another takes the answer.

pub mod artifacts;
pub mod bash_search;
pub mod bridge;
pub mod bytes;
pub mod cygpath;
pub mod decimal;
pub mod diagnostics;
pub mod git;
pub mod invocation;
pub mod known_paths;
pub mod lists;
pub mod mapper;
pub mod native_path;
pub mod os_text;
pub mod path_map;
pub mod postprocess;
pub mod records;
pub mod replace_file;
pub mod short_names;
pub mod synctex_file;
pub mod tex;
pub mod text;
