//! What the extraction produces: authors, their works, the links of a work,
//! and the finished record of one work.

use vstd::prelude::*;
use crate::chars::ends_with;

verus! {

/// An author of the index page.
#[derive(Debug, Clone, PartialEq, Eq)]
pub struct Author {
    pub id: String,
    pub name: String,
    pub page_path: String,
}

/// The text of an author, field by field.
pub struct AuthorView {
    pub id: Seq<char>,
    pub name: Seq<char>,
    pub page_path: Seq<char>,
}

impl View for Author {
    type V = AuthorView;

    open spec fn view(&self) -> AuthorView {
        AuthorView { id: self.id@, name: self.name@, page_path: self.page_path@ }
    }
}

/// A work listed on an author's page.
#[derive(Debug, Clone, PartialEq, Eq)]
pub struct Work {
    pub id: String,
    pub title: String,
    pub page_path: String,
}

/// The text of a work, field by field.
pub struct WorkView {
    pub id: Seq<char>,
    pub title: Seq<char>,
    pub page_path: Seq<char>,
}

impl View for Work {
    type V = WorkView;

    open spec fn view(&self) -> WorkView {
        WorkView { id: self.id@, title: self.title@, page_path: self.page_path@ }
    }
}

/// The archive of a work and, where the card names one, its page to read.
#[derive(Debug, Clone, PartialEq, Eq)]
pub struct WorkLink {
    pub zip_path: String,
    pub html_link: Option<String>,
}

/// The text of the links of a work, field by field.
pub struct WorkLinkView {
    pub zip_path: Seq<char>,
    pub html_link: Option<Seq<char>>,
}

/// The view of an optional string.
pub open spec fn opt_view(s: Option<String>) -> Option<Seq<char>> {
    match s {
        Some(t) => Some(t@),
        None => None,
    }
}

/// A copy of an optional string.
pub fn copy_opt(s: &Option<String>) -> (out: Option<String>)
    ensures
        opt_view(out) == opt_view(*s),
{
    match s {
        Some(t) => Some(t.clone()),
        None => None,
    }
}

impl WorkLinkView {
    /// The archive is a `.zip`, and not the TTZ variant of one.
    pub open spec fn well_formed(self) -> bool {
        ends_with(self.zip_path, ".zip"@) && !ends_with(self.zip_path, "ttz.zip"@)
    }
}

impl View for WorkLink {
    type V = WorkLinkView;

    open spec fn view(&self) -> WorkLinkView {
        WorkLinkView { zip_path: self.zip_path@, html_link: opt_view(self.html_link) }
    }
}

/// One row of the finished table.
#[derive(Debug, Clone, PartialEq, Eq)]
pub struct WorkRecord {
    pub author: String,
    pub title: String,
    pub text: String,
    pub url: Option<String>,
}

/// The text of a record, field by field.
pub struct WorkRecordView {
    pub author: Seq<char>,
    pub title: Seq<char>,
    pub text: Seq<char>,
    pub url: Option<Seq<char>>,
}

impl View for WorkRecord {
    type V = WorkRecordView;

    open spec fn view(&self) -> WorkRecordView {
        WorkRecordView {
            author: self.author@,
            title: self.title@,
            text: self.text@,
            url: opt_view(self.url),
        }
    }
}

} // verus!
