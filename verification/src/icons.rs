//! The icons of the user interface and their code points in the icon font,
//! and the title of the welcome screen.

use vstd::prelude::*;

verus! {

/// An icon of the user interface.
#[derive(Clone, Copy, Debug, PartialEq, Eq, Structural)]
pub enum Icon {
    Undo,
    Redo,
    Open,
    New,
    Save,
    Close,
    Check,
    Error,
    Cogs,
    Edit,
    Download,
    Delete,
    Add,
    SortDown,
    SortUp,
    SortLettersDown,
    SortLettersUp,
    SortNumbersDown,
    SortNumbersUp,
    Spinner,
    Magic,
    Wrench,
    Dials,
    Docs,
}

/// The code point of an icon in the icon font.
pub open spec fn icon_code(ico: Icon) -> char {
    match ico {
        Icon::Undo => '\u{E801}',
        Icon::Redo => '\u{E800}',
        Icon::Open => '\u{F115}',
        Icon::New => '\u{E804}',
        Icon::Save => '\u{E803}',
        Icon::Close => '\u{E802}',
        Icon::Check => '\u{E805}',
        Icon::Error => '\u{E806}',
        Icon::Cogs => '\u{E807}',
        Icon::Edit => '\u{E808}',
        Icon::Download => '\u{E809}',
        Icon::Delete => '\u{E80A}',
        Icon::Add => '\u{E80B}',
        Icon::SortDown => '\u{F161}',
        Icon::SortUp => '\u{F160}',
        Icon::SortLettersDown => '\u{F15E}',
        Icon::SortLettersUp => '\u{F15D}',
        Icon::SortNumbersDown => '\u{F163}',
        Icon::SortNumbersUp => '\u{F163}',
        Icon::Spinner => '\u{F110}',
        Icon::Magic => '\u{F0D0}',
        Icon::Wrench => '\u{E80C}',
        Icon::Dials => '\u{F1DE}',
        Icon::Docs => '\u{F0C5}',
    }
}

/// The code point of an icon in the icon font.
pub fn codepoint(ico: Icon) -> (r: char)
    ensures
        r == icon_code(ico),
{
    match ico {
        Icon::Undo => '\u{E801}',
        Icon::Redo => '\u{E800}',
        Icon::Open => '\u{F115}',
        Icon::New => '\u{E804}',
        Icon::Save => '\u{E803}',
        Icon::Close => '\u{E802}',
        Icon::Check => '\u{E805}',
        Icon::Error => '\u{E806}',
        Icon::Cogs => '\u{E807}',
        Icon::Edit => '\u{E808}',
        Icon::Download => '\u{E809}',
        Icon::Delete => '\u{E80A}',
        Icon::Add => '\u{E80B}',
        Icon::SortDown => '\u{F161}',
        Icon::SortUp => '\u{F160}',
        Icon::SortLettersDown => '\u{F15E}',
        Icon::SortLettersUp => '\u{F15D}',
        Icon::SortNumbersDown => '\u{F163}',
        Icon::SortNumbersUp => '\u{F163}',
        Icon::Spinner => '\u{F110}',
        Icon::Magic => '\u{F0D0}',
        Icon::Wrench => '\u{E80C}',
        Icon::Dials => '\u{F1DE}',
        Icon::Docs => '\u{F0C5}',
    }
}

/// The title of the welcome screen.
pub fn title() -> (r: String)
    ensures
        r@ == "Collomatique"@,
{
    String::from_str("Collomatique")
}

} // verus!
