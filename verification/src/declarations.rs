//! Shared declarations: process status codes, the narration `Event` stream
//! and the advisory `Warning` stream, with their spec-level views.

use vstd::prelude::*;

verus! {

/// Status code of a run that completed normally.
pub const SUCCESS: u8 = 0;

/// Status code for a malformed command line.
pub const BAD_COMMAND_LINE_ERROR: u8 = 1;

/// Status code for any fatal condition met while assembling the
/// performance: an unreadable file, an empty script or configuration file,
/// zero scenes produced, or a first scene without a title.
pub const SCRIPT_GENERATION_ERROR: u8 = 2;

/// One line of the rendered narration. The caller prints these in order:
/// `Blank` as an empty line, `Title` and `Dialogue` as their text,
/// `Speaker(name)` as the name followed by a period, `Enter(name)` and
/// `Exit(name)` as bracketed stage directions.
#[derive(PartialEq, Eq, Debug)]
pub enum Event {
    Blank,
    Title(String),
    Speaker(String),
    Dialogue(String),
    Enter(String),
    Exit(String),
}

/// Spec-level view of an [`Event`]: the same shape over `Seq<char>`.
pub enum EventV {
    Blank,
    Title(Seq<char>),
    Speaker(Seq<char>),
    Dialogue(Seq<char>),
    Enter(Seq<char>),
    Exit(Seq<char>),
}

impl DeepView for Event {
    type V = EventV;

    open spec fn deep_view(&self) -> EventV {
        match self {
            Event::Blank => EventV::Blank,
            Event::Title(t) => EventV::Title(t@),
            Event::Speaker(n) => EventV::Speaker(n@),
            Event::Dialogue(t) => EventV::Dialogue(t@),
            Event::Enter(n) => EventV::Enter(n@),
            Event::Exit(n) => EventV::Exit(n@),
        }
    }
}

/// An advisory irregularity. Warnings are produced only when diagnostic
/// mode is active and never alter control flow.
#[derive(PartialEq, Eq, Debug)]
pub enum Warning {
    /// A dialogue line whose first token is not a valid line number;
    /// carries the offending token.
    InvalidLineNumber(String),
    /// A cast-configuration line with other than two tokens; carries the
    /// actual token count.
    ConfigTokenCount(usize),
    /// A scene marker with no title text after it.
    MissingSceneTitle,
    /// Extra tokens after a configuration-file name in the script file;
    /// carries the extra tokens joined with single spaces.
    ExtraScriptTokens(String),
    /// A line number that no performer claims, noticed during recitation.
    MissingLineNumber(usize),
    /// A line number claimed again after the expected counter passed it.
    DuplicateLineNumber(usize),
}

/// Spec-level view of a [`Warning`].
pub enum WarningV {
    InvalidLineNumber(Seq<char>),
    ConfigTokenCount(usize),
    MissingSceneTitle,
    ExtraScriptTokens(Seq<char>),
    MissingLineNumber(usize),
    DuplicateLineNumber(usize),
}

impl DeepView for Warning {
    type V = WarningV;

    open spec fn deep_view(&self) -> WarningV {
        match self {
            Warning::InvalidLineNumber(t) => WarningV::InvalidLineNumber(t@),
            Warning::ConfigTokenCount(n) => WarningV::ConfigTokenCount(*n),
            Warning::MissingSceneTitle => WarningV::MissingSceneTitle,
            Warning::ExtraScriptTokens(t) => WarningV::ExtraScriptTokens(t@),
            Warning::MissingLineNumber(n) => WarningV::MissingLineNumber(*n),
            Warning::DuplicateLineNumber(n) => WarningV::DuplicateLineNumber(*n),
        }
    }
}

} // verus!
