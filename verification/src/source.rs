//! Choosing where the text to search comes from.

use vstd::prelude::*;

verus! {

/// The single origin of the text for one run.
#[derive(Debug, Clone, PartialEq, Eq)]
pub enum Source {
    /// The text was given literally.
    Inline(String),
    /// The text is the content of the file at this path.
    File(String),
    /// The text is read from standard input.
    Stdin,
}

/// A configuration that names more than one origin.
#[derive(Debug, Clone, Copy, PartialEq, Eq)]
pub enum ConfigError {
    /// Both inline text and a file path were supplied.
    ConflictingSources,
}

impl ConfigError {
    /// The diagnostic shown to the user.
    pub fn message(&self) -> (text: &'static str)
        ensures
            text@ == "Cannot use both input and file"@,
    {
        "Cannot use both input and file"
    }
}

/// What `select_source` yields for the two optional settings.
pub open spec fn selected(input: Option<String>, file: Option<String>) -> Result<
    Source,
    ConfigError,
> {
    match (input, file) {
        (Some(text), None) => Ok(Source::Inline(text)),
        (None, Some(path)) => Ok(Source::File(path)),
        (None, None) => Ok(Source::Stdin),
        (Some(_), Some(_)) => Err(ConfigError::ConflictingSources),
    }
}

/// Picks the origin of the text from the optional inline text and the optional
/// file path. With neither, standard input is read. Naming both is rejected
/// here, before anything is opened or read.
pub fn select_source(input: Option<String>, file: Option<String>) -> (chosen: Result<
    Source,
    ConfigError,
>)
    ensures
        chosen == selected(input, file),
        chosen is Err <==> input is Some && file is Some,
{
    match (input, file) {
        (Some(text), None) => Ok(Source::Inline(text)),
        (None, Some(path)) => Ok(Source::File(path)),
        (None, None) => Ok(Source::Stdin),
        (Some(_), Some(_)) => Err(ConfigError::ConflictingSources),
    }
}

} // verus!
