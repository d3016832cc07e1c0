//! The document model: top-level entries, sections and section entries.

use vstd::prelude::*;

verus! {

/// An INI file is an ordered list of top-level entries.
pub type IniFile = Vec<Entry>;

/// A top-level entry: a section or a comment.
#[derive(Debug, Clone, PartialEq, Eq)]
pub enum Entry {
    Section(Section),
    Comment(String),
}

/// A named section with its ordered sub-entries.
#[derive(Debug, Clone, PartialEq, Eq)]
pub struct Section {
    pub name: String,
    pub entries: Vec<SectionEntry>,
}

/// A sub-entry of a section: a comment or a key with its value.
#[derive(Debug, Clone, PartialEq, Eq)]
pub enum SectionEntry {
    Comment(String),
    Key(String, String),
}

/// What a section entry denotes: its variant and its text.
pub enum SectionEntryModel {
    Comment(Seq<char>),
    Key(Seq<char>, Seq<char>),
}

/// What a section denotes: its name and the models of its entries, in order.
pub struct SectionModel {
    pub name: Seq<char>,
    pub entries: Seq<SectionEntryModel>,
}

/// What a top-level entry denotes.
pub enum EntryModel {
    Section(SectionModel),
    Comment(Seq<char>),
}

impl View for SectionEntry {
    type V = SectionEntryModel;

    open spec fn view(&self) -> SectionEntryModel {
        match self {
            SectionEntry::Comment(c) => SectionEntryModel::Comment(c@),
            SectionEntry::Key(k, v) => SectionEntryModel::Key(k@, v@),
        }
    }
}

/// The models of a list of section entries.
pub open spec fn section_entries_view(es: Seq<SectionEntry>) -> Seq<SectionEntryModel> {
    es.map_values(|e: SectionEntry| e@)
}

impl View for Section {
    type V = SectionModel;

    open spec fn view(&self) -> SectionModel {
        SectionModel { name: self.name@, entries: section_entries_view(self.entries@) }
    }
}

impl View for Entry {
    type V = EntryModel;

    open spec fn view(&self) -> EntryModel {
        match self {
            Entry::Section(s) => EntryModel::Section(s@),
            Entry::Comment(c) => EntryModel::Comment(c@),
        }
    }
}

/// The model of a whole document.
pub open spec fn document_view(d: Seq<Entry>) -> Seq<EntryModel> {
    d.map_values(|e: Entry| e@)
}

} // verus!
