use ini::grammar::{ParseError, Rule};
use ini::ini_format::{Entry, Section, SectionEntry};
use ini::reader::{IniReader, ParseResult};

fn parse(input: &str) -> ParseResult {
    IniReader::new(input).parse()
}

fn comment(text: &str) -> Entry {
    Entry::Comment(text.to_string())
}

fn section(name: &str, entries: Vec<SectionEntry>) -> Entry {
    Entry::Section(Section { name: name.to_string(), entries })
}

fn key(name: &str, value: &str) -> SectionEntry {
    SectionEntry::Key(name.to_string(), value.to_string())
}

fn section_comment(text: &str) -> SectionEntry {
    SectionEntry::Comment(text.to_string())
}

#[test]
fn empty_input_gives_empty_document() {
    assert_eq!(parse(""), Ok(vec![]));
}

#[test]
fn blank_input_gives_empty_document() {
    assert_eq!(parse("  \n\t\r\n"), Ok(vec![]));
}

#[test]
fn single_comment() {
    assert_eq!(parse("; hello\n"), Ok(vec![comment("hello")]));
}

#[test]
fn section_with_one_key() {
    assert_eq!(parse("[A]\nk = v\n"), Ok(vec![section("A", vec![key("k", "v")])]));
}

#[test]
fn key_and_value_are_trimmed() {
    assert_eq!(parse("[A]\nk=v\n"), Ok(vec![section("A", vec![key("k", "v")])]));
    assert_eq!(parse("[A]\nk =  v \n"), Ok(vec![section("A", vec![key("k", "v")])]));
}

#[test]
fn two_sections_with_comment_and_key() {
    assert_eq!(
        parse("[A]\n; c\nk=v\n[B]\n"),
        Ok(vec![
            section("A", vec![section_comment("c"), key("k", "v")]),
            section("B", vec![]),
        ])
    );
}

#[test]
fn unclosed_header_at_end_of_input() {
    assert_eq!(parse("[A\n"), Err(ParseError::Io { rule: Rule::Section, expected: ']' }));
}

#[test]
fn unclosed_header_absorbs_following_lines() {
    assert_eq!(
        parse("[A\nmore text\n"),
        Err(ParseError::Io { rule: Rule::Section, expected: ']' })
    );
    assert_eq!(parse("[A\nb]\n"), Ok(vec![section("A\nb", vec![])]));
}

#[test]
fn key_before_any_section() {
    assert_eq!(
        parse("k = v\n"),
        Err(ParseError::Syntax { rule: Rule::Section, expected: '[', found: 'k' })
    );
}

#[test]
fn comment_without_newline_at_end() {
    assert_eq!(parse("; x"), Err(ParseError::Io { rule: Rule::Comment, expected: '\n' }));
}

#[test]
fn key_without_equals_sign() {
    assert_eq!(parse("[A]\nfoo\n"), Err(ParseError::Io { rule: Rule::Key, expected: '=' }));
}

#[test]
fn key_without_newline_at_end() {
    assert_eq!(parse("[A]\nk=v"), Err(ParseError::Io { rule: Rule::Key, expected: '\n' }));
}

#[test]
fn text_after_header_is_an_error() {
    assert_eq!(
        parse("[A] x\n"),
        Err(ParseError::Syntax { rule: Rule::Section, expected: '\n', found: 'x' })
    );
}

#[test]
fn header_without_newline_at_end() {
    assert_eq!(parse("[A]"), Err(ParseError::Io { rule: Rule::Section, expected: '\n' }));
}

#[test]
fn error_after_good_entries_gives_no_document() {
    assert_eq!(
        parse("; top\n[A]\nk=v\n[B] junk\n"),
        Err(ParseError::Syntax { rule: Rule::Section, expected: '\n', found: 'j' })
    );
}

#[test]
fn blank_lines_and_carriage_returns() {
    assert_eq!(
        parse("\r\n[A] \r\n\r\n  k = v\r\n\n; note \r\n"),
        Ok(vec![section("A", vec![key("k", "v"), section_comment("note")])])
    );
}

#[test]
fn section_name_is_raw() {
    assert_eq!(parse("[ My Sec ]\n"), Ok(vec![section(" My Sec ", vec![])]));
    assert_eq!(parse("[]\n"), Ok(vec![section("", vec![])]));
}

#[test]
fn comment_after_section_belongs_to_it() {
    assert_eq!(
        parse("; top\n[A]\n; in\n"),
        Ok(vec![comment("top"), section("A", vec![section_comment("in")])])
    );
}

#[test]
fn empty_key_name_and_value() {
    assert_eq!(parse("[A]\n=\n"), Ok(vec![section("A", vec![key("", "")])]));
    assert_eq!(parse("[A]\na = b = c\n"), Ok(vec![section("A", vec![key("a", "b = c")])]));
}

#[test]
fn non_ascii_text() {
    assert_eq!(
        parse("[Café]\nnom = crème brûlée\n"),
        Ok(vec![section("Café", vec![key("nom", "crème brûlée")])])
    );
}

#[test]
fn blanks_after_tokens_are_skipped() {
    assert_eq!(
        parse("[ A ]\t \r\n;\t  note\t\n k \t= \t v w \t\r\n"),
        Ok(vec![section(" A ", vec![section_comment("note"), key("k", "v w")])])
    );
}
