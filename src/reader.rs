//! A recursive-descent parser for INI text. A cursor over the input's
//! characters serves as the one-character lookahead; each production returns
//! what it recognised, and the caller assembles the tree.

use vstd::prelude::*;
use vstd::string::*;
use crate::grammar::{
    comment, document, key, match_char, parse_ini, rest_of_line, section_body, section_header,
    skip_blanks, span_until, trim, trim_end, trim_start, is_blank, is_space, ParseError, Rule,
    lemma_comment_shrinks, lemma_document_trim, lemma_header_shrinks, lemma_key_shrinks,
    lemma_section_body_shrinks, lemma_section_body_trim, lemma_trim_start_idempotent,
    lemma_trim_start_len, lemma_document_skip_blanks, lemma_rest_of_line_skip_blanks,
    lemma_section_body_skip_blanks, lemma_skip_blanks_len,
};
use crate::ini_format::{
    document_view, section_entries_view, Entry, IniFile, Section, SectionEntry,
    SectionEntryModel, EntryModel,
};

verus! {

/// The outcome of [`IniReader::parse`]: the document, or the first error.
pub type ParseResult = Result<IniFile, ParseError>;

/// A parser over one input text.
pub struct IniReader {
    text: String,
    chars: Vec<char>,
    pos: usize,
}

fn is_blank_char(c: char) -> (r: bool)
    ensures
        r == is_blank(c),
{
    c == ' ' || c == '\t' || c == '\r'
}

fn is_space_char(c: char) -> (r: bool)
    ensures
        r == is_space(c),
{
    c == ' ' || c == '\t' || c == '\r' || c == '\n'
}

impl IniReader {
    /// The cursor is within the input, and the characters are those of the text.
    pub closed spec fn wf(&self) -> bool {
        &&& self.chars@ == self.text@
        &&& self.pos <= self.chars@.len()
    }

    /// The characters not yet read.
    pub closed spec fn rest(&self) -> Seq<char> {
        self.chars@.skip(self.pos as int)
    }

    /// A reader at the start of `input`.
    pub fn new(input: &str) -> (r: IniReader)
        ensures
            r.wf(),
            r.rest() == input@,
    {
        let n = input.unicode_len();
        let mut chars: Vec<char> = Vec::new();
        let mut i: usize = 0;
        while i < n
            invariant
                n == input@.len(),
                i <= n,
                chars@ == input@.take(i as int),
            decreases n - i,
        {
            chars.push(input.get_char(i));
            i = i + 1;
            assert(chars@ =~= input@.take(i as int));
        }
        assert(chars@ =~= input@);
        assert(chars@.skip(0) =~= chars@);
        IniReader { text: String::from_str(input), chars, pos: 0 }
    }

    /// The lookahead character, if any input is left.
    fn next_char(&self) -> (r: Option<char>)
        requires
            self.wf(),
        ensures
            r == (if self.rest().len() > 0 {
                Some(self.rest()[0])
            } else {
                None::<char>
            }),
    {
        if self.pos < self.chars.len() {
            Some(self.chars[self.pos])
        } else {
            None
        }
    }

    /// Moves past the lookahead character, skipping nothing.
    fn advance(&mut self)
        requires
            old(self).wf(),
            old(self).rest().len() > 0,
        ensures
            final(self).wf(),
            final(self).text == old(self).text,
            final(self).rest() == old(self).rest().drop_first(),
            final(self).pos == old(self).pos + 1,
    {
        let n = self.chars.len();
        assert(old(self).rest().len() == n - self.pos);
        self.pos = self.pos + 1;
        assert(self.chars@.skip(self.pos as int) =~= old(self).rest().drop_first());
    }

    /// Skips spaces, tabs and carriage returns.
    fn skip_blanks(&mut self)
        requires
            old(self).wf(),
        ensures
            final(self).wf(),
            final(self).text == old(self).text,
            final(self).rest() == skip_blanks(old(self).rest()),
    {
        while self.pos < self.chars.len() && is_blank_char(self.chars[self.pos])
            invariant
                self.wf(),
                self.text == old(self).text,
                skip_blanks(self.rest()) == skip_blanks(old(self).rest()),
            decreases self.chars@.len() - self.pos,
        {
            self.advance();
        }
    }

    /// Moves past the lookahead character, then past the spaces, tabs and
    /// carriage returns that follow it.
    fn get_next_char(&mut self)
        requires
            old(self).wf(),
            old(self).rest().len() > 0,
        ensures
            final(self).wf(),
            final(self).text == old(self).text,
            final(self).rest() == skip_blanks(old(self).rest().drop_first()),
    {
        self.advance();
        self.skip_blanks();
    }

    /// Skips blanks and newlines.
    fn skip_spaces(&mut self)
        requires
            old(self).wf(),
        ensures
            final(self).wf(),
            final(self).text == old(self).text,
            final(self).rest() == trim_start(old(self).rest()),
    {
        while self.pos < self.chars.len() && is_space_char(self.chars[self.pos])
            invariant
                self.wf(),
                self.text == old(self).text,
                trim_start(self.rest()) == trim_start(old(self).rest()),
            decreases self.chars@.len() - self.pos,
        {
            self.advance();
        }
    }

    /// Moves up to the first `c`, or to the end of the input.
    fn skip_until(&mut self, c: char)
        requires
            old(self).wf(),
        ensures
            final(self).wf(),
            final(self).text == old(self).text,
            final(self).pos == old(self).pos + span_until(old(self).rest(), c),
    {
        while self.pos < self.chars.len() && self.chars[self.pos] != c
            invariant
                self.wf(),
                self.text == old(self).text,
                old(self).pos <= self.pos,
                span_until(old(self).rest(), c) == (self.pos - old(self).pos) + span_until(
                    self.rest(),
                    c,
                ),
            decreases self.chars@.len() - self.pos,
        {
            self.advance();
        }
    }

    /// Consumes the token `c` and nothing after it. On an error nothing is
    /// consumed.
    fn expect_token(&mut self, c: char, rule: Rule) -> (r: Result<(), ParseError>)
        requires
            old(self).wf(),
        ensures
            final(self).wf(),
            final(self).text == old(self).text,
            match match_char(old(self).rest(), c, rule) {
                Ok(t) => r is Ok && final(self).rest() == t,
                Err(e) => r == Err::<(), ParseError>(e) && *final(self) == *old(self),
            },
    {
        match self.next_char() {
            None => Err(ParseError::Io { rule, expected: c }),
            Some(d) => {
                if d != c {
                    Err(ParseError::Syntax { rule, expected: c, found: d })
                } else {
                    self.advance();
                    Ok(())
                }
            },
        }
    }

    /// Consumes the token `c` and the blanks after it, so that the lookahead
    /// is the next character that is not a blank. On an error nothing is
    /// consumed.
    fn match_token(&mut self, c: char, rule: Rule) -> (r: Result<(), ParseError>)
        requires
            old(self).wf(),
        ensures
            final(self).wf(),
            final(self).text == old(self).text,
            match match_char(old(self).rest(), c, rule) {
                Ok(t) => r is Ok && final(self).rest() == skip_blanks(t),
                Err(e) => r == Err::<(), ParseError>(e) && *final(self) == *old(self),
            },
    {
        match self.next_char() {
            None => Err(ParseError::Io { rule, expected: c }),
            Some(d) => {
                if d != c {
                    Err(ParseError::Syntax { rule, expected: c, found: d })
                } else {
                    self.get_next_char();
                    Ok(())
                }
            },
        }
    }

    /// The characters from `start` to `end`, trimmed.
    fn trimmed(&self, start: usize, end: usize) -> (r: String)
        requires
            self.wf(),
            start <= end <= self.chars@.len(),
        ensures
            r@ == trim(self.chars@.subrange(start as int, end as int)),
    {
        let ghost t = self.chars@.subrange(start as int, end as int);
        let mut a = start;
        while a < end && is_space_char(self.chars[a])
            invariant
                self.wf(),
                start <= a <= end <= self.chars@.len(),
                trim_start(t) == trim_start(self.chars@.subrange(a as int, end as int)),
            decreases end - a,
        {
            assert(self.chars@.subrange(a as int, end as int).drop_first() =~= self.chars@.subrange(
                a + 1,
                end as int,
            ));
            a = a + 1;
        }
        assert(trim_start(t) == self.chars@.subrange(a as int, end as int));
        let mut b = end;
        while b > a && is_space_char(self.chars[b - 1])
            invariant
                self.wf(),
                start <= a <= b <= end <= self.chars@.len(),
                trim(t) == trim_end(self.chars@.subrange(a as int, b as int)),
            decreases b - a,
        {
            assert(self.chars@.subrange(a as int, b as int).drop_last() =~= self.chars@.subrange(
                a as int,
                b - 1,
            ));
            b = b - 1;
        }
        String::from_str(self.text.as_str().substring_char(a, b))
    }

    /// The trimmed rest of the current line; its newline is consumed, and the
    /// blanks after it.
    fn read_rest(&mut self, rule: Rule) -> (r: Result<String, ParseError>)
        requires
            old(self).wf(),
        ensures
            final(self).wf(),
            final(self).text == old(self).text,
            match rest_of_line(old(self).rest(), rule) {
                Ok((v, t)) => r matches Ok(s) && s@ == v && final(self).rest() == skip_blanks(t),
                Err(e) => r == Err::<String, ParseError>(e),
            },
    {
        let ghost t0 = self.rest();
        let start = self.pos;
        self.skip_until('\n');
        let end = self.pos;
        assert(t0.take((end - start) as int) =~= self.chars@.subrange(start as int, end as int));
        assert(t0.skip((end - start) as int) =~= self.rest());
        match self.match_token('\n', rule) {
            Ok(()) => Ok(self.trimmed(start, end)),
            Err(e) => Err(e),
        }
    }

    /// `comment`: a `;` and the trimmed rest of its line.
    fn parse_comment(&mut self) -> (r: Result<String, ParseError>)
        requires
            old(self).wf(),
        ensures
            final(self).wf(),
            final(self).text == old(self).text,
            match comment(old(self).rest()) {
                Ok((c, t)) => r matches Ok(s) && s@ == c && final(self).rest() == skip_blanks(t),
                Err(e) => r == Err::<String, ParseError>(e),
            },
    {
        proof {
            if old(self).rest().len() > 0 {
                lemma_rest_of_line_skip_blanks(old(self).rest().drop_first(), Rule::Comment);
            }
        }
        match self.match_token(';', Rule::Comment) {
            Ok(()) => self.read_rest(Rule::Comment),
            Err(e) => Err(e),
        }
    }

    /// `key`: the name up to the first `=`, and the value after it.
    fn parse_key(&mut self) -> (r: Result<SectionEntry, ParseError>)
        requires
            old(self).wf(),
        ensures
            final(self).wf(),
            final(self).text == old(self).text,
            match key(old(self).rest()) {
                Ok((k, t)) => r matches Ok(e) && e@ == k && final(self).rest() == skip_blanks(t),
                Err(e) => r == Err::<SectionEntry, ParseError>(e),
            },
    {
        let ghost t0 = self.rest();
        let start = self.pos;
        self.skip_until('=');
        let end = self.pos;
        assert(t0.take((end - start) as int) =~= self.chars@.subrange(start as int, end as int));
        assert(t0.skip((end - start) as int) =~= self.rest());
        proof {
            if self.rest().len() > 0 {
                lemma_rest_of_line_skip_blanks(self.rest().drop_first(), Rule::Key);
            }
        }
        match self.match_token('=', Rule::Key) {
            Ok(()) => {
                let name = self.trimmed(start, end);
                match self.read_rest(Rule::Key) {
                    Ok(value) => Ok(SectionEntry::Key(name, value)),
                    Err(e) => Err(e),
                }
            },
            Err(e) => Err(e),
        }
    }

    /// `section_header`: the raw name between `[` and `]`, then the newline.
    /// Nothing is consumed when the input does not start with `[`.
    fn parse_section_name(&mut self) -> (r: Result<String, ParseError>)
        requires
            old(self).wf(),
        ensures
            final(self).wf(),
            final(self).text == old(self).text,
            match section_header(old(self).rest()) {
                Ok((n, t)) => r matches Ok(s) && s@ == n && final(self).rest() == skip_blanks(t),
                Err(e) => r == Err::<String, ParseError>(e),
            },
            match_char(old(self).rest(), '[', Rule::Section) is Err ==> *final(self) == *old(self),
    {
        match self.expect_token('[', Rule::Section) {
            Ok(()) => {},
            Err(e) => {
                return Err(e);
            },
        }
        let ghost t0 = self.rest();
        let start = self.pos;
        self.skip_until(']');
        let end = self.pos;
        assert(t0.take((end - start) as int) =~= self.chars@.subrange(start as int, end as int));
        assert(t0.skip((end - start) as int) =~= self.rest());
        match self.match_token(']', Rule::Section) {
            Ok(()) => {},
            Err(e) => {
                return Err(e);
            },
        }
        match self.match_token('\n', Rule::Section) {
            Ok(()) => Ok(String::from_str(self.text.as_str().substring_char(start, end))),
            Err(e) => Err(e),
        }
    }

    /// `section`: a header, then comments and keys up to the next `[` or the
    /// end of the input.
    fn parse_section(&mut self) -> (r: Result<Section, ParseError>)
        requires
            old(self).wf(),
        ensures
            final(self).wf(),
            final(self).text == old(self).text,
            match section_header(old(self).rest()) {
                Ok((n, t)) => match section_body(t, seq![]) {
                    Ok((es, t2)) => r matches Ok(s) && s@.name == n && s@.entries == es
                        && final(self).rest() == t2,
                    Err(e) => r == Err::<Section, ParseError>(e),
                },
                Err(e) => r == Err::<Section, ParseError>(e),
            },
    {
        let name = match self.parse_section_name() {
            Ok(n) => n,
            Err(e) => {
                return Err(e);
            },
        };
        let ghost t = section_header(old(self).rest())->Ok_0.1;
        let mut entries: Vec<SectionEntry> = Vec::new();
        assert(section_entries_view(entries@) =~= seq![]);
        proof {
            lemma_section_body_skip_blanks(t, seq![]);
        }
        loop
            invariant
                self.wf(),
                self.text == old(self).text,
                section_header(old(self).rest()) == Ok::<_, ParseError>((name@, t)),
                section_body(t, seq![]) == section_body(
                    self.rest(),
                    section_entries_view(entries@),
                ),
            ensures
                self.wf(),
                self.text == old(self).text,
                section_header(old(self).rest()) == Ok::<_, ParseError>((name@, t)),
                section_body(t, seq![]) == Ok::<_, ParseError>(
                    (section_entries_view(entries@), self.rest()),
                ),
            decreases self.rest().len(),
        {
            let ghost before = self.rest();
            proof {
                lemma_section_body_trim(before, section_entries_view(entries@));
                lemma_trim_start_idempotent(before);
                lemma_trim_start_len(before);
            }
            self.skip_spaces();
            let ghost u = self.rest();
            match self.next_char() {
                None => {
                    break ;
                },
                Some(c) => {
                    if c == '[' {
                        break ;
                    } else if c == ';' {
                        proof {
                            lemma_comment_shrinks(u);
                        }
                        match self.parse_comment() {
                            Ok(text) => {
                                let ghost acc = section_entries_view(entries@);
                                entries.push(SectionEntry::Comment(text));
                                assert(section_entries_view(entries@) =~= acc.push(
                                    SectionEntryModel::Comment(text@),
                                ));
                                proof {
                                    lemma_skip_blanks_len(comment(u)->Ok_0.1);
                                    lemma_section_body_skip_blanks(
                                        comment(u)->Ok_0.1,
                                        section_entries_view(entries@),
                                    );
                                }
                            },
                            Err(e) => {
                                assert(section_body(u, section_entries_view(entries@)) == Err::<
                                    (Seq<SectionEntryModel>, Seq<char>),
                                    ParseError,
                                >(e));
                                return Err(e);
                            },
                        }
                    } else {
                        proof {
                            lemma_key_shrinks(u);
                        }
                        match self.parse_key() {
                            Ok(entry) => {
                                let ghost acc = section_entries_view(entries@);
                                entries.push(entry);
                                assert(section_entries_view(entries@) =~= acc.push(entry@));
                                proof {
                                    lemma_skip_blanks_len(key(u)->Ok_0.1);
                                    lemma_section_body_skip_blanks(
                                        key(u)->Ok_0.1,
                                        section_entries_view(entries@),
                                    );
                                }
                            },
                            Err(e) => {
                                assert(section_body(u, section_entries_view(entries@)) == Err::<
                                    (Seq<SectionEntryModel>, Seq<char>),
                                    ParseError,
                                >(e));
                                return Err(e);
                            },
                        }
                    }
                },
            }
        }
        Ok(Section { name, entries })
    }

    /// Reads the whole input: top-level comments and sections, in order, up
    /// to the end of the input. The first error ends the parse, and no part of
    /// the document is returned with it.
    pub fn parse(&mut self) -> (r: ParseResult)
        requires
            old(self).wf(),
        ensures
            final(self).wf(),
            match parse_ini(old(self).rest()) {
                Ok(d) => r matches Ok(v) && document_view(v@) == d && final(self).rest().len()
                    == 0,
                Err(e) => r == Err::<IniFile, ParseError>(e),
            },
    {
        let ghost t = self.rest();
        let mut ini: IniFile = Vec::new();
        assert(document_view(ini@) =~= seq![]);
        loop
            invariant
                self.wf(),
                t == old(self).rest(),
                document(t, seq![]) == document(self.rest(), document_view(ini@)),
            ensures
                self.wf(),
                t == old(self).rest(),
                self.rest().len() == 0,
                document(t, seq![]) == Ok::<_, ParseError>(document_view(ini@)),
            decreases self.rest().len(),
        {
            let ghost before = self.rest();
            proof {
                lemma_document_trim(before, document_view(ini@));
                lemma_trim_start_idempotent(before);
                lemma_trim_start_len(before);
            }
            self.skip_spaces();
            let ghost u = self.rest();
            match self.next_char() {
                None => {
                    break ;
                },
                Some(c) => {
                    if c == ';' {
                        proof {
                            lemma_comment_shrinks(u);
                        }
                        match self.parse_comment() {
                            Ok(text) => {
                                let ghost acc = document_view(ini@);
                                ini.push(Entry::Comment(text));
                                assert(document_view(ini@) =~= acc.push(EntryModel::Comment(text@)));
                                proof {
                                    lemma_skip_blanks_len(comment(u)->Ok_0.1);
                                    lemma_document_skip_blanks(
                                        comment(u)->Ok_0.1,
                                        document_view(ini@),
                                    );
                                }
                            },
                            Err(e) => {
                                assert(document(u, document_view(ini@)) == Err::<
                                    Seq<EntryModel>,
                                    ParseError,
                                >(e));
                                return Err(e);
                            },
                        }
                    } else {
                        proof {
                            lemma_header_shrinks(u);
                            if let Ok((_, r)) = section_header(u) {
                                lemma_section_body_shrinks(r, seq![]);
                            }
                        }
                        match self.parse_section() {
                            Ok(section) => {
                                let ghost acc = document_view(ini@);
                                ini.push(Entry::Section(section));
                                assert(document_view(ini@) =~= acc.push(
                                    EntryModel::Section(section@),
                                ));
                            },
                            Err(e) => {
                                assert(document(u, document_view(ini@)) == Err::<
                                    Seq<EntryModel>,
                                    ParseError,
                                >(e));
                                return Err(e);
                            },
                        }
                    }
                },
            }
        }
        Ok(ini)
    }
}

} // verus!
