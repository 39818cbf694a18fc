//! A small `make`-style task runner: a build description (targets and
//! variables read from a YAML tree), the expansion of `$(...)` forms in
//! command strings, and the post-order linearisation of a goal's commands.

pub mod model;
pub mod chain;
pub mod text;
pub mod expand;
pub mod parse;
pub mod load;

pub use expand::{RMakeCoreCommand, find_and_replace};
pub use model::{RMake, RMakeError, RMakeTarget, RMakeVariable, ShellOutput, YamlValue};
pub use text::{split_lines, split_words};
