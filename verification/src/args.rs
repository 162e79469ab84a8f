//! What the command line asks for.

use vstd::prelude::*;

verus! {

/// The command line: one of the two commands.
#[derive(Debug, PartialEq)]
pub struct JoxideArgs {
    pub sub_command: JoxideSubcommand,
}

/// The two commands.
#[derive(Debug, PartialEq)]
pub enum JoxideSubcommand {
    Format(FormatArgs),
    Validate(ValidateArgs),
}

/// Format a file.
#[derive(Debug, PartialEq)]
pub struct FormatArgs {
    /// The number of spaces for each level of nesting.
    pub indent_length: usize,
    /// Whether the file is changed, instead of its new text being shown.
    pub write: bool,
    /// The path of the file.
    pub file: String,
}

/// Check a file for syntax errors.
#[derive(Debug, PartialEq)]
pub struct ValidateArgs {
    /// The path of the file.
    pub file: String,
}

impl JoxideSubcommand {
    /// The path that the command names.
    pub fn file(&self) -> (file: &String)
        ensures
            *file == match *self {
                JoxideSubcommand::Format(args) => args.file,
                JoxideSubcommand::Validate(args) => args.file,
            },
    {
        match self {
            JoxideSubcommand::Format(args) => &args.file,
            JoxideSubcommand::Validate(args) => &args.file,
        }
    }
}

} // verus!
