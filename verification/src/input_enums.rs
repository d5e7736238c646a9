//! The three input fields a caller can edit, and the editor's modes.

use vstd::prelude::*;

verus! {

/// The mode the editor is in while the user drives a search/replace session.
pub enum InputMode {
    Normal,
    Editing,
    Refine,
}

/// Represents the different types of input boxes.
#[derive(PartialEq, Eq, Structural)]
pub enum InputBox {
    Search,
    Replace,
    Filepath,
}

impl InputBox {
    /// Returns the next input box in the sequence.
    pub fn next(&self) -> (r: Self)
        ensures
            r == (match self {
                InputBox::Search => InputBox::Replace,
                InputBox::Replace => InputBox::Filepath,
                InputBox::Filepath => InputBox::Search,
            }),
    {
        match self {
            Self::Search => Self::Replace,
            Self::Replace => Self::Filepath,
            Self::Filepath => Self::Search,
        }
    }

    /// Returns the previous input box in the sequence.
    pub fn prev(&self) -> (r: Self)
        ensures
            r == (match self {
                InputBox::Search => InputBox::Filepath,
                InputBox::Replace => InputBox::Search,
                InputBox::Filepath => InputBox::Replace,
            }),
    {
        match self {
            Self::Search => Self::Filepath,
            Self::Replace => Self::Search,
            Self::Filepath => Self::Replace,
        }
    }

    /// Returns the position of the input box.
    pub fn pos(&self) -> (r: usize)
        ensures
            r == (match self {
                InputBox::Search => 0usize,
                InputBox::Replace => 1usize,
                InputBox::Filepath => 2usize,
            }),
    {
        match self {
            Self::Search => 0,
            Self::Replace => 1,
            Self::Filepath => 2,
        }
    }

    /// Returns the title of the input box.
    pub fn title(&self) -> (r: String)
        ensures
            r@ == (match self {
                InputBox::Search => "Search"@,
                InputBox::Replace => "Replace"@,
                InputBox::Filepath => "FilePath"@,
            }),
    {
        match self {
            Self::Search => "Search".to_owned(),
            Self::Replace => "Replace".to_owned(),
            Self::Filepath => "FilePath".to_owned(),
        }
    }
}

} // verus!
