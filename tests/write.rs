use ini::ini_format::{Entry, Section, SectionEntry};
use ini::reader::IniReader;
use ini::writer::write_ini_file;

#[test]
fn empty_section_is_header_and_blank_line() {
    let doc = vec![Entry::Section(Section { name: "S".to_string(), entries: vec![] })];
    assert_eq!(write_ini_file(&doc), "[S]\n\n");
}

#[test]
fn empty_document_is_empty_text() {
    assert_eq!(write_ini_file(&vec![]), "");
}

#[test]
fn sample_document() {
    let mut section1 = Section { name: "Section1".to_string(), entries: Vec::new() };
    section1.entries.push(SectionEntry::Key("key".to_string(), "value".to_string()));
    section1.entries.push(SectionEntry::Comment("This is a section comment".to_string()));
    let doc = vec![Entry::Comment("This is a root comment".to_string()), Entry::Section(section1)];
    assert_eq!(
        write_ini_file(&doc),
        "; This is a root comment\n[Section1]\nkey = value\n; This is a section comment\n\n"
    );
}

#[test]
fn parsed_document_reads_back() {
    let input = "; top\n\n[A]\nk=v\n  ; c  \nname =  some value \n[B]\n[C]\nx=\n";
    let doc = IniReader::new(input).parse().unwrap();
    let text = write_ini_file(&doc);
    assert_eq!(
        text,
        "; top\n[A]\nk = v\n; c\nname = some value\n\n[B]\n\n[C]\nx = \n\n"
    );
    assert_eq!(IniReader::new(&text).parse(), Ok(doc));
}

#[test]
fn section_lines_then_one_blank_line() {
    let section = Section {
        name: "A".to_string(),
        entries: vec![
            SectionEntry::Key("k".to_string(), "v".to_string()),
            SectionEntry::Comment("c".to_string()),
        ],
    };
    assert_eq!(write_ini_file(&vec![Entry::Section(section)]), "[A]\nk = v\n; c\n\n");
}
