//! Tickets as the library reads them.
use vstd::prelude::*;

verus! {

/// A value inside an object item of a section, as far as the renderer reads
/// it: a boolean, a string, or anything else.
#[derive(Debug)]
pub enum JsonField {
    Bool(bool),
    Text(String),
    Other,
}

/// One element of a section's content list.
#[derive(Debug)]
pub enum SectionItem {
    /// A string element.
    Text(String),
    /// An object element, as its key/value pairs.
    Object(Vec<(String, JsonField)>),
    /// Any other element.
    Other,
}

/// The content of a section.
#[derive(Debug)]
pub enum SectionContent {
    /// A string.
    Text(String),
    /// A list.
    Items(Vec<SectionItem>),
    /// Anything else, or nothing.
    Other,
}

#[derive(Debug)]
pub struct Section {
    pub subtitle: String,
    pub kind: Option<String>,
    pub content: SectionContent,
}

#[derive(Debug)]
pub struct TicketRaw {
    pub title: Option<String>,
    pub name: Option<String>,
    pub description: String,
    pub status: String,
    pub priority: String,
    pub estimate: String,
    pub sections: Vec<Section>,
}

impl TicketRaw {
    /// Nothing set: what a missing or unreadable ticket file gives.
    pub open spec fn is_blank(&self) -> bool {
        &&& self.title is None
        &&& self.name is None
        &&& self.description@.len() == 0
        &&& self.status@.len() == 0
        &&& self.priority@.len() == 0
        &&& self.estimate@.len() == 0
        &&& self.sections@.len() == 0
    }
}

impl Default for TicketRaw {
    fn default() -> (r: TicketRaw)
        ensures
            r.is_blank(),
    {
        TicketRaw {
            title: None,
            name: None,
            description: String::new(),
            status: String::new(),
            priority: String::new(),
            estimate: String::new(),
            sections: Vec::new(),
        }
    }
}

#[derive(Debug)]
pub struct Ticket {
    pub title: String,
    pub path: std::path::PathBuf,
    pub raw: TicketRaw,
    pub children: Vec<Ticket>,
}

impl Ticket {
    /// Neither a description nor sections.
    pub fn raw_is_empty(&self) -> (r: bool)
        ensures
            r == (self.raw.description@.len() == 0 && self.raw.sections@.len() == 0),
    {
        self.raw.description.as_str().is_empty() && self.raw.sections.len() == 0
    }

    /// Has subtickets.
    pub fn has_children(&self) -> (r: bool)
        ensures
            r == (self.children@.len() > 0),
    {
        self.children.len() > 0
    }
}

} // verus!
