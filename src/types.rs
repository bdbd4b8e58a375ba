//! The records the library hands around: pages, response envelopes, and the
//! categoriser capability.
use vstd::prelude::*;

verus! {

/// One page of the export: its title, numeric id (zero when unset), cleaned text, and the
/// target title when the page is a redirect.
pub struct Article {
    pub title: String,
    pub content: String,
    pub id: u64,
    pub redirect: Option<String>,
}

/// A page as values: title, content, id, redirect target.
pub type ArticleView = (Seq<char>, Seq<char>, u64, Option<Seq<char>>);

impl View for Article {
    type V = ArticleView;

    open spec fn view(&self) -> ArticleView {
        (
            self.title@,
            self.content@,
            self.id,
            match self.redirect {
                Some(t) => Some(t@),
                None => None,
            },
        )
    }
}

impl Article {
    /// A page with nothing assigned yet.
    pub fn empty() -> (r: Article)
        ensures
            r.title@ == Seq::<char>::empty(),
            r.content@ == Seq::<char>::empty(),
            r.id == 0,
            r.redirect.is_none(),
            r@ == (Seq::<char>::empty(), Seq::<char>::empty(), 0u64, None::<Seq<char>>),
    {
        Article { title: String::new(), content: String::new(), id: 0, redirect: None }
    }

    /// A field-by-field copy.
    pub fn duplicate(&self) -> (r: Article)
        ensures
            r.title@ == self.title@,
            r.content@ == self.content@,
            r.id == self.id,
            r.redirect.is_some() == self.redirect.is_some(),
            r.redirect.is_some() ==> r.redirect->0@ == self.redirect->0@,
            r@ == self@,
    {
        let redirect = match &self.redirect {
            Some(t) => Some(t.clone()),
            None => None,
        };
        Article {
            title: self.title.clone(),
            content: self.content.clone(),
            id: self.id,
            redirect,
        }
    }
}

pub struct ServerInfo {
    pub name: String,
    pub version: String,
}

pub struct Resource {
    pub uri: String,
    pub name: String,
    pub description: String,
    pub mime_type: String,
}

pub struct ResourceResponse {
    pub uri: String,
    pub mime_type: String,
    pub text: String,
}

pub struct ToolContent {
    pub content_type: String,
    pub text: String,
}

pub struct ToolResponse {
    pub content: Vec<ToolContent>,
}

impl ToolResponse {
    /// A response whose payload is one text-typed block.
    pub fn from_text(text: String) -> (r: ToolResponse)
        ensures
            r.content@.len() == 1,
            r.content@[0].content_type@ == "text"@,
            r.content@[0].text@ == text@,
    {
        let block = ToolContent { content_type: String::from_str("text"), text };
        let mut content: Vec<ToolContent> = Vec::new();
        content.push(block);
        ToolResponse { content }
    }
}

/// Sorts an article into zero or more categories by its title and content.
pub trait ArticleCategorizer {
    fn categorize(&self, title: &str, content: &str) -> Vec<String>;
}

/// The categoriser that puts no article in any category.
pub struct NoCategorizer;

impl ArticleCategorizer for NoCategorizer {
    fn categorize(&self, title: &str, content: &str) -> Vec<String> {
        Vec::new()
    }
}

} // verus!
