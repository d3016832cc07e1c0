//! Renders a document as INI text: one line per comment, key and section
//! header, and a blank line after each section.

use vstd::prelude::*;
use vstd::string::*;
use crate::ini_format::{
    document_view, section_entries_view, Entry, EntryModel, Section, SectionEntry,
    SectionEntryModel, SectionModel,
};

verus! {

/// The line of a section entry: `; comment` or `name = value`.
pub open spec fn section_entry_text(e: SectionEntryModel) -> Seq<char> {
    match e {
        SectionEntryModel::Comment(c) => seq![';', ' '] + c + seq!['\n'],
        SectionEntryModel::Key(k, v) => k + seq![' ', '=', ' '] + v + seq!['\n'],
    }
}

/// The lines of a list of section entries, in order.
pub open spec fn section_entries_text(es: Seq<SectionEntryModel>) -> Seq<char>
    decreases es.len(),
{
    if es.len() == 0 {
        seq![]
    } else {
        section_entry_text(es[0]) + section_entries_text(es.drop_first())
    }
}

/// The lines of a section: its header line, then its entries' lines.
pub open spec fn section_text(s: SectionModel) -> Seq<char> {
    seq!['['] + s.name + seq![']', '\n'] + section_entries_text(s.entries)
}

/// The text of a top-level entry: a comment line, or a section's lines
/// followed by a blank line.
pub open spec fn entry_text(e: EntryModel) -> Seq<char> {
    match e {
        EntryModel::Comment(c) => seq![';', ' '] + c + seq!['\n'],
        EntryModel::Section(s) => section_text(s) + seq!['\n'],
    }
}

/// The text of a whole document.
pub open spec fn document_text(d: Seq<EntryModel>) -> Seq<char>
    decreases d.len(),
{
    if d.len() == 0 {
        seq![]
    } else {
        entry_text(d[0]) + document_text(d.drop_first())
    }
}

pub proof fn lemma_section_entries_text_append(a: Seq<SectionEntryModel>, b: Seq<SectionEntryModel>)
    ensures
        section_entries_text(a + b) == section_entries_text(a) + section_entries_text(b),
    decreases a.len(),
{
    if a.len() == 0 {
        assert(a + b =~= b);
        assert(seq![] + section_entries_text(b) =~= section_entries_text(b));
    } else {
        assert((a + b).drop_first() =~= a.drop_first() + b);
        lemma_section_entries_text_append(a.drop_first(), b);
        assert(section_entries_text(a + b) =~= section_entries_text(a) + section_entries_text(b));
    }
}

pub proof fn lemma_document_text_append(a: Seq<EntryModel>, b: Seq<EntryModel>)
    ensures
        document_text(a + b) == document_text(a) + document_text(b),
    decreases a.len(),
{
    if a.len() == 0 {
        assert(a + b =~= b);
        assert(seq![] + document_text(b) =~= document_text(b));
    } else {
        assert((a + b).drop_first() =~= a.drop_first() + b);
        lemma_document_text_append(a.drop_first(), b);
        assert(document_text(a + b) =~= document_text(a) + document_text(b));
    }
}

fn write_section_entry(entry: &SectionEntry, out: &mut String)
    ensures
        final(out)@ == old(out)@ + section_entry_text(entry@),
{
    proof {
        reveal_strlit("; ");
        reveal_strlit(" = ");
        reveal_strlit("\n");
    }
    match entry {
        SectionEntry::Comment(c) => {
            out.append("; ");
            out.append(c.as_str());
            out.append("\n");
        },
        SectionEntry::Key(k, v) => {
            out.append(k.as_str());
            out.append(" = ");
            out.append(v.as_str());
            out.append("\n");
        },
    }
    assert(final(out)@ =~= old(out)@ + section_entry_text(entry@));
}

fn write_section(section: &Section, out: &mut String)
    ensures
        final(out)@ == old(out)@ + section_text(section@),
{
    proof {
        reveal_strlit("[");
        reveal_strlit("]\n");
    }
    out.append("[");
    out.append(section.name.as_str());
    out.append("]\n");
    let ghost head = out@;
    let mut i: usize = 0;
    while i < section.entries.len()
        invariant
            i <= section.entries@.len(),
            out@ == head + section_entries_text(
                section_entries_view(section.entries@.take(i as int)),
            ),
        decreases section.entries@.len() - i,
    {
        let ghost before = section_entries_view(section.entries@.take(i as int));
        write_section_entry(&section.entries[i], out);
        proof {
            let one = seq![section.entries@[i as int]@];
            assert(section_entries_view(section.entries@.take(i + 1)) =~= before + one);
            lemma_section_entries_text_append(before, one);
            assert(section_entries_text(one.drop_first()) == Seq::<char>::empty());
        }
        i = i + 1;
    }
    assert(section.entries@.take(i as int) =~= section.entries@);
    assert(out@ =~= old(out)@ + section_text(section@));
}

/// The INI text of `ini_file`.
pub fn write_ini_file(ini_file: &Vec<Entry>) -> (r: String)
    ensures
        r@ == document_text(document_view(ini_file@)),
{
    proof {
        reveal_strlit("");
    }
    let mut out = String::from_str("");
    let mut i: usize = 0;
    while i < ini_file.len()
        invariant
            i <= ini_file@.len(),
            out@ == document_text(document_view(ini_file@.take(i as int))),
        decreases ini_file@.len() - i,
    {
        let ghost before = document_view(ini_file@.take(i as int));
        let ghost prev = out@;
        match &ini_file[i] {
            Entry::Section(section) => {
                proof {
                    reveal_strlit("\n");
                }
                write_section(section, &mut out);
                out.append("\n");
                assert(out@ =~= prev + entry_text(EntryModel::Section(section@)));
            },
            Entry::Comment(c) => {
                proof {
                    reveal_strlit("; ");
                    reveal_strlit("\n");
                }
                out.append("; ");
                out.append(c.as_str());
                out.append("\n");
                assert(ini_file@[i as int]@ == EntryModel::Comment(c@));
                assert(out@ =~= prev + entry_text(EntryModel::Comment(c@)));
            },
        }
        proof {
            let one = seq![ini_file@[i as int]@];
            assert(document_view(ini_file@.take(i + 1)) =~= before + one);
            lemma_document_text_append(before, one);
            assert(document_text(one.drop_first()) == Seq::<char>::empty());
            assert(document_text(one) =~= entry_text(ini_file@[i as int]@));
        }
        i = i + 1;
    }
    assert(ini_file@.take(i as int) =~= ini_file@);
    out
}

} // verus!
