//! The INI grammar, stated as spec functions over the characters that remain
//! to be read. Each production takes the remaining input and gives back what
//! it recognised together with the input that follows it, or the error.
//!
//! ```text
//! document       := (comment | section)*
//! comment        := ';' rest_of_line
//! section        := section_header (comment | key)*
//! section_header := '[' char_except(']')* ']' '\n'
//! key            := char_except('=')* '=' rest_of_line
//! rest_of_line   := non_newline* '\n'
//! ```
//!
//! Before the `'\n'` that closes a section header, spaces, tabs and carriage
//! returns are skipped. Where a production is chosen (at the top level and
//! inside a section) all of those and newlines too are skipped, so blank lines
//! may separate entries.

use vstd::prelude::*;
use crate::ini_format::{EntryModel, SectionEntryModel, SectionModel};

verus! {

/// The grammar rule that was being read when an error came.
#[derive(Debug, Clone, Copy, PartialEq, Eq)]
pub enum Rule {
    Comment,
    Section,
    Key,
}

/// Why a parse failed.
#[derive(Debug, Clone, Copy, PartialEq, Eq)]
pub enum ParseError {
    /// `rule` needed `expected` where the input holds `found`.
    Syntax { rule: Rule, expected: char, found: char },
    /// The input ended where `rule` still needed `expected`.
    Io { rule: Rule, expected: char },
}

/// Space, tab or carriage return: skipped before a line's closing newline.
pub open spec fn is_blank(c: char) -> bool {
    c == ' ' || c == '\t' || c == '\r'
}

/// A blank or a newline: trimmed from texts and skipped between entries.
pub open spec fn is_space(c: char) -> bool {
    is_blank(c) || c == '\n'
}

/// `t` without its leading blanks.
pub open spec fn skip_blanks(t: Seq<char>) -> Seq<char>
    decreases t.len(),
{
    if t.len() > 0 && is_blank(t[0]) {
        skip_blanks(t.drop_first())
    } else {
        t
    }
}

/// `t` without its leading spaces.
pub open spec fn trim_start(t: Seq<char>) -> Seq<char>
    decreases t.len(),
{
    if t.len() > 0 && is_space(t[0]) {
        trim_start(t.drop_first())
    } else {
        t
    }
}

/// `t` without its trailing spaces.
pub open spec fn trim_end(t: Seq<char>) -> Seq<char>
    decreases t.len(),
{
    if t.len() > 0 && is_space(t.last()) {
        trim_end(t.drop_last())
    } else {
        t
    }
}

/// `t` without leading and trailing spaces.
pub open spec fn trim(t: Seq<char>) -> Seq<char> {
    trim_end(trim_start(t))
}

/// The number of characters of `t` before the first `c` (all of them if
/// there is none).
pub open spec fn span_until(t: Seq<char>, c: char) -> nat
    decreases t.len(),
{
    if t.len() == 0 || t[0] == c {
        0
    } else {
        1 + span_until(t.drop_first(), c)
    }
}

/// Consumes the token `c` at the front of `t`.
pub open spec fn match_char(t: Seq<char>, c: char, rule: Rule) -> Result<Seq<char>, ParseError> {
    if t.len() == 0 {
        Err(ParseError::Io { rule, expected: c })
    } else if t[0] != c {
        Err(ParseError::Syntax { rule, expected: c, found: t[0] })
    } else {
        Ok(t.drop_first())
    }
}

/// `rest_of_line`: the trimmed text up to the next newline, which is consumed.
pub open spec fn rest_of_line(t: Seq<char>, rule: Rule) -> Result<(Seq<char>, Seq<char>), ParseError> {
    let n = span_until(t, '\n');
    match match_char(t.skip(n as int), '\n', rule) {
        Ok(r) => Ok((trim(t.take(n as int)), r)),
        Err(e) => Err(e),
    }
}

/// `comment`: the trimmed text of a comment line.
pub open spec fn comment(t: Seq<char>) -> Result<(Seq<char>, Seq<char>), ParseError> {
    match match_char(t, ';', Rule::Comment) {
        Ok(r) => rest_of_line(r, Rule::Comment),
        Err(e) => Err(e),
    }
}

/// `key`: the trimmed name before the first `=` and the trimmed value after it.
pub open spec fn key(t: Seq<char>) -> Result<(SectionEntryModel, Seq<char>), ParseError> {
    let n = span_until(t, '=');
    match match_char(t.skip(n as int), '=', Rule::Key) {
        Ok(r) => match rest_of_line(r, Rule::Key) {
            Ok((v, r2)) => Ok((SectionEntryModel::Key(trim(t.take(n as int)), v), r2)),
            Err(e) => Err(e),
        },
        Err(e) => Err(e),
    }
}

/// `section_header`: the raw name between `[` and the first `]`.
pub open spec fn section_header(t: Seq<char>) -> Result<(Seq<char>, Seq<char>), ParseError> {
    match match_char(t, '[', Rule::Section) {
        Ok(r) => {
            let n = span_until(r, ']');
            match match_char(r.skip(n as int), ']', Rule::Section) {
                Ok(r2) => match match_char(skip_blanks(r2), '\n', Rule::Section) {
                    Ok(r3) => Ok((r.take(n as int), r3)),
                    Err(e) => Err(e),
                },
                Err(e) => Err(e),
            }
        },
        Err(e) => Err(e),
    }
}

/// The entries of a section body, appended to `acc`, and the input left when
/// the body ends: at the end of the input or at a `[`.
pub open spec fn section_body(t: Seq<char>, acc: Seq<SectionEntryModel>) -> Result<
    (Seq<SectionEntryModel>, Seq<char>),
    ParseError,
>
    decreases t.len(),
{
    let u = trim_start(t);
    if u.len() == 0 || u[0] == '[' {
        Ok((acc, u))
    } else if u[0] == ';' {
        match comment(u) {
            Ok((c, r)) => {
                proof {
                    lemma_trim_start_len(t);
                    lemma_comment_shrinks(u);
                }
                section_body(r, acc.push(SectionEntryModel::Comment(c)))
            },
            Err(e) => Err(e),
        }
    } else {
        match key(u) {
            Ok((e, r)) => {
                proof {
                    lemma_trim_start_len(t);
                    lemma_key_shrinks(u);
                }
                section_body(r, acc.push(e))
            },
            Err(e) => Err(e),
        }
    }
}

/// The entries of a document, appended to `acc`.
pub open spec fn document(t: Seq<char>, acc: Seq<EntryModel>) -> Result<Seq<EntryModel>, ParseError>
    decreases t.len(),
{
    let u = trim_start(t);
    if u.len() == 0 {
        Ok(acc)
    } else if u[0] == ';' {
        match comment(u) {
            Ok((c, r)) => {
                proof {
                    lemma_trim_start_len(t);
                    lemma_comment_shrinks(u);
                }
                document(r, acc.push(EntryModel::Comment(c)))
            },
            Err(e) => Err(e),
        }
    } else {
        match section_header(u) {
            Ok((name, r)) => match section_body(r, seq![]) {
                Ok((es, r2)) => {
                    proof {
                        lemma_trim_start_len(t);
                        lemma_header_shrinks(u);
                        lemma_section_body_shrinks(r, seq![]);
                    }
                    document(r2, acc.push(EntryModel::Section(SectionModel { name, entries: es })))
                },
                Err(e) => Err(e),
            },
            Err(e) => Err(e),
        }
    }
}

/// The document that the input `t` denotes, or the first error in it.
pub open spec fn parse_ini(t: Seq<char>) -> Result<Seq<EntryModel>, ParseError> {
    document(t, seq![])
}

pub proof fn lemma_trim_start_len(t: Seq<char>)
    ensures
        trim_start(t).len() <= t.len(),
        trim_start(t) == t.skip(t.len() - trim_start(t).len()),
    decreases t.len(),
{
    if t.len() > 0 && is_space(t[0]) {
        lemma_trim_start_len(t.drop_first());
        assert(t.drop_first().skip(t.drop_first().len() - trim_start(t).len()) =~= t.skip(
            t.len() - trim_start(t).len(),
        ));
    } else {
        assert(t.skip(0) =~= t);
    }
}

pub proof fn lemma_trim_start_idempotent(t: Seq<char>)
    ensures
        trim_start(trim_start(t)) == trim_start(t),
        trim_start(t).len() == 0 || !is_space(trim_start(t)[0]),
    decreases t.len(),
{
    if t.len() > 0 && is_space(t[0]) {
        lemma_trim_start_idempotent(t.drop_first());
    }
}

/// Spaces before a section body change nothing.
pub proof fn lemma_section_body_trim(t: Seq<char>, acc: Seq<SectionEntryModel>)
    ensures
        section_body(trim_start(t), acc) == section_body(t, acc),
{
    lemma_trim_start_idempotent(t);
}

/// Spaces before a document change nothing.
pub proof fn lemma_document_trim(t: Seq<char>, acc: Seq<EntryModel>)
    ensures
        document(trim_start(t), acc) == document(t, acc),
{
    lemma_trim_start_idempotent(t);
}

/// Blanks skipped first change nothing of where spaces end.
pub proof fn lemma_trim_start_skip_blanks(t: Seq<char>)
    ensures
        trim_start(skip_blanks(t)) == trim_start(t),
    decreases t.len(),
{
    if t.len() > 0 && is_blank(t[0]) {
        lemma_trim_start_skip_blanks(t.drop_first());
    }
}

/// Blanks before a section body change nothing.
pub proof fn lemma_section_body_skip_blanks(t: Seq<char>, acc: Seq<SectionEntryModel>)
    ensures
        section_body(skip_blanks(t), acc) == section_body(t, acc),
{
    lemma_trim_start_skip_blanks(t);
}

/// Blanks before a document change nothing.
pub proof fn lemma_document_skip_blanks(t: Seq<char>, acc: Seq<EntryModel>)
    ensures
        document(skip_blanks(t), acc) == document(t, acc),
{
    lemma_trim_start_skip_blanks(t);
}

/// Blanks at the start of a line change nothing of its trimmed text.
pub proof fn lemma_rest_of_line_skip_blanks(t: Seq<char>, rule: Rule)
    ensures
        rest_of_line(skip_blanks(t), rule) == rest_of_line(t, rule),
    decreases t.len(),
{
    if t.len() > 0 && is_blank(t[0]) {
        let d = t.drop_first();
        lemma_rest_of_line_skip_blanks(d, rule);
        let n = span_until(d, '\n') as int;
        lemma_span_until(d, '\n');
        assert(span_until(t, '\n') == n + 1);
        assert(t.skip(n + 1) =~= d.skip(n));
        let x = t.take(n + 1);
        assert(x[0] == t[0]);
        assert(x.drop_first() =~= d.take(n));
        assert(trim_start(x) == trim_start(d.take(n)));
    }
}

pub proof fn lemma_skip_blanks_len(t: Seq<char>)
    ensures
        skip_blanks(t).len() <= t.len(),
        skip_blanks(t) == t.skip(t.len() - skip_blanks(t).len()),
    decreases t.len(),
{
    if t.len() > 0 && is_blank(t[0]) {
        lemma_skip_blanks_len(t.drop_first());
        assert(t.drop_first().skip(t.drop_first().len() - skip_blanks(t).len()) =~= t.skip(
            t.len() - skip_blanks(t).len(),
        ));
    } else {
        assert(t.skip(0) =~= t);
    }
}

pub proof fn lemma_span_until(t: Seq<char>, c: char)
    ensures
        span_until(t, c) <= t.len(),
        span_until(t, c) < t.len() ==> t[span_until(t, c) as int] == c,
        forall|k: int| 0 <= k < span_until(t, c) ==> t[k] != c,
    decreases t.len(),
{
    if t.len() > 0 && t[0] != c {
        lemma_span_until(t.drop_first(), c);
        assert forall|k: int| 0 <= k < span_until(t, c) implies t[k] != c by {
            if k > 0 {
                assert(t[k] == t.drop_first()[k - 1]);
            }
        }
    }
}

pub proof fn lemma_rest_of_line_shrinks(t: Seq<char>, rule: Rule)
    ensures
        rest_of_line(t, rule) matches Ok((_, r)) ==> r.len() < t.len(),
{
    lemma_span_until(t, '\n');
}

pub proof fn lemma_comment_shrinks(t: Seq<char>)
    ensures
        comment(t) matches Ok((_, r)) ==> r.len() < t.len(),
{
    if t.len() > 0 {
        lemma_rest_of_line_shrinks(t.drop_first(), Rule::Comment);
    }
}

pub proof fn lemma_key_shrinks(t: Seq<char>)
    ensures
        key(t) matches Ok((_, r)) ==> r.len() < t.len(),
{
    let n = span_until(t, '=');
    lemma_span_until(t, '=');
    if n < t.len() {
        lemma_rest_of_line_shrinks(t.skip(n as int).drop_first(), Rule::Key);
    }
}

pub proof fn lemma_header_shrinks(t: Seq<char>)
    ensures
        section_header(t) matches Ok((_, r)) ==> r.len() < t.len(),
{
    if t.len() > 0 {
        let r = t.drop_first();
        let n = span_until(r, ']');
        lemma_span_until(r, ']');
        if n < r.len() {
            lemma_skip_blanks_len(r.skip(n as int).drop_first());
        }
    }
}

pub proof fn lemma_section_body_shrinks(t: Seq<char>, acc: Seq<SectionEntryModel>)
    ensures
        section_body(t, acc) matches Ok((_, r)) ==> r.len() <= t.len(),
    decreases t.len(),
{
    let u = trim_start(t);
    lemma_trim_start_len(t);
    if u.len() == 0 || u[0] == '[' {
    } else if u[0] == ';' {
        lemma_comment_shrinks(u);
        if let Ok((c, r)) = comment(u) {
            lemma_section_body_shrinks(r, acc.push(SectionEntryModel::Comment(c)));
        }
    } else {
        lemma_key_shrinks(u);
        if let Ok((e, r)) = key(u) {
            lemma_section_body_shrinks(r, acc.push(e));
        }
    }
}

/// A section name is every character between `[` and the first `]`, newlines
/// included: a header left open absorbs the lines that follow it.
pub proof fn lemma_header_name_is_raw(name: Seq<char>, rest: Seq<char>)
    requires
        forall|i: int| 0 <= i < name.len() ==> name[i] != ']',
    ensures
        section_header(seq!['['] + name + seq![']', '\n'] + rest) == Ok::<_, ParseError>(
            (name, rest),
        ),
{
    let t = seq!['['] + name + seq![']', '\n'] + rest;
    let r = t.drop_first();
    assert(r =~= name + (seq![']', '\n'] + rest));
    lemma_span_until(r, ']');
    let n = span_until(r, ']') as int;
    if n < name.len() {
        assert(r[n] == name[n]);
    }
    assert(r[name.len() as int] == ']');
    assert(n == name.len());
    assert(r.take(n) =~= name);
    let r2 = r.skip(n).drop_first();
    assert(r2 =~= seq!['\n'] + rest);
    assert(skip_blanks(r2) == r2);
    assert(r2.drop_first() =~= rest);
}

/// Input that opens a header and never closes it ends in an input error: the
/// section rule still expected `]` when the input ran out.
pub proof fn lemma_unclosed_header(name: Seq<char>)
    requires
        forall|i: int| 0 <= i < name.len() ==> name[i] != ']',
    ensures
        parse_ini(seq!['['] + name) == Err::<Seq<EntryModel>, ParseError>(
            ParseError::Io { rule: Rule::Section, expected: ']' },
        ),
{
    let t = seq!['['] + name;
    assert(t[0] == '[');
    assert(trim_start(t) == t);
    let r = t.drop_first();
    assert(r =~= name);
    lemma_span_until(r, ']');
    let n = span_until(r, ']') as int;
    assert(n == name.len());
    assert(r.skip(n).len() == 0);
}

} // verus!
