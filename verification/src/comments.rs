//! Cell comments: threaded comments, their authors, and the text runs of legacy comments.

use vstd::prelude::*;

verus! {

/// Threaded comment (Office 365+) on a cell
#[derive(Debug, Clone, PartialEq)]
pub struct ThreadedComment {
    /// Unique identifier (GUID)
    pub id: String,
    pub cell_ref: String,
    /// Reference to Person via persons() - GUID
    pub person_id: String,
    pub text: String,
    /// If this is a reply, the parent comment's GUID
    pub parent_id: Option<String>,
    pub timestamp: Option<String>,
}

/// Person metadata for threaded comments
#[derive(Debug, Clone, PartialEq)]
pub struct Person {
    /// Unique identifier (GUID)
    pub id: String,
    pub display_name: String,
    /// Email or username
    pub user_id: Option<String>,
}

/// A formatted text segment in a legacy comment
#[derive(Debug, Clone, PartialEq)]
pub struct RichTextRun {
    pub text: String,
    pub bold: bool,
    pub italic: bool,
    /// RGB hex color (e.g., "FF0000" for red)
    pub color: Option<String>,
}

} // verus!
