//! Reading back what the writer wrote. The writer escapes nothing, so the law
//! holds of documents whose texts carry none of the format's markers, and whose
//! shape is one that the parser can give: trimmed texts, and no top-level
//! comment after a section (the parser reads such a comment into the section).

use vstd::prelude::*;
use crate::grammar::{
    comment, document, is_space, key, parse_ini, rest_of_line, section_body, section_header,
    span_until, match_char, trim, ParseError, trim_end, trim_start, Rule, lemma_comment_shrinks,
    lemma_header_shrinks, lemma_key_shrinks, lemma_section_body_shrinks,
    lemma_trim_start_idempotent, lemma_trim_start_len, lemma_span_until,
    lemma_header_name_is_raw,
};
use crate::ini_format::{EntryModel, SectionEntryModel, SectionModel};
use crate::writer::{document_text, section_entries_text, section_entry_text};

verus! {

/// A character with a meaning in the format.
pub open spec fn is_marker(c: char) -> bool {
    c == ';' || c == '[' || c == ']' || c == '=' || c == '\n'
}

/// A text without markers.
pub open spec fn plain(t: Seq<char>) -> bool {
    forall|i: int| 0 <= i < t.len() ==> !is_marker(#[trigger] t[i])
}

/// A text without leading or trailing spaces.
pub open spec fn trimmed(t: Seq<char>) -> bool {
    t.len() == 0 || (!is_space(t[0]) && !is_space(t.last()))
}

pub open spec fn section_entry_plain(e: SectionEntryModel) -> bool {
    match e {
        SectionEntryModel::Comment(c) => plain(c),
        SectionEntryModel::Key(k, v) => plain(k) && plain(v),
    }
}

pub open spec fn section_entry_trimmed(e: SectionEntryModel) -> bool {
    match e {
        SectionEntryModel::Comment(c) => trimmed(c),
        SectionEntryModel::Key(k, v) => trimmed(k) && trimmed(v),
    }
}

pub open spec fn entry_plain(e: EntryModel) -> bool {
    match e {
        EntryModel::Comment(c) => plain(c),
        EntryModel::Section(s) => plain(s.name) && forall|j: int|
            0 <= j < s.entries.len() ==> section_entry_plain(#[trigger] s.entries[j]),
    }
}

pub open spec fn entry_trimmed(e: EntryModel) -> bool {
    match e {
        EntryModel::Comment(c) => trimmed(c),
        EntryModel::Section(s) => forall|j: int|
            0 <= j < s.entries.len() ==> section_entry_trimmed(#[trigger] s.entries[j]),
    }
}

/// No text of the document holds a marker.
pub open spec fn document_plain(d: Seq<EntryModel>) -> bool {
    forall|i: int| 0 <= i < d.len() ==> entry_plain(#[trigger] d[i])
}

/// The document has the shape of a parser's output: every comment, key and
/// value is trimmed, and no top-level comment follows a section.
pub open spec fn normal_form(d: Seq<EntryModel>) -> bool {
    &&& forall|i: int| 0 <= i < d.len() ==> entry_trimmed(#[trigger] d[i])
    &&& forall|i: int, j: int|
        0 <= i < j < d.len() && (#[trigger] d[i]) is Section ==> (#[trigger] d[j]) is Section
}

proof fn lemma_span_prefix(x: Seq<char>, c: char, y: Seq<char>)
    requires
        forall|i: int| 0 <= i < x.len() ==> x[i] != c,
    ensures
        span_until(x + seq![c] + y, c) == x.len(),
        (x + seq![c] + y).take(x.len() as int) == x,
        (x + seq![c] + y).skip(x.len() as int) == seq![c] + y,
    decreases x.len(),
{
    let t = x + seq![c] + y;
    if x.len() > 0 {
        assert(t[0] == x[0]);
        assert(t.drop_first() =~= x.drop_first() + seq![c] + y);
        lemma_span_prefix(x.drop_first(), c, y);
    } else {
        assert(t[0] == c);
    }
    assert(t.take(x.len() as int) =~= x);
    assert(t.skip(x.len() as int) =~= seq![c] + y);
}

proof fn lemma_trim_unchanged(v: Seq<char>)
    requires
        trimmed(v),
    ensures
        trim(v) == v,
{
}

proof fn lemma_trim_space_before(v: Seq<char>)
    requires
        trimmed(v),
    ensures
        trim(seq![' '] + v) == v,
{
    let t = seq![' '] + v;
    assert(t[0] == ' ');
    assert(t.drop_first() =~= v);
    assert(trim_start(t) == trim_start(v));
    assert(trim_start(v) == v);
    assert(trim_end(v) == v);
}

proof fn lemma_trim_space_after(k: Seq<char>)
    requires
        trimmed(k),
    ensures
        trim(k + seq![' ']) == k,
{
    let t = k + seq![' '];
    assert(t.drop_last() =~= k);
    assert(t.last() == ' ');
    assert(trim_end(k) == k);
    if k.len() == 0 {
        assert(t[0] == ' ');
        assert(t.drop_first() =~= k);
        assert(trim_start(k) == k);
        assert(trim_start(t) == k);
    } else {
        assert(t[0] == k[0]);
        assert(trim_start(t) == t);
        assert(trim_end(t) == trim_end(k));
    }
}

proof fn lemma_trim_end_prefix(y: Seq<char>)
    ensures
        trim_end(y).len() <= y.len(),
        trim_end(y) == y.take(trim_end(y).len() as int),
        trim_end(y).len() > 0 ==> !is_space(trim_end(y).last()),
    decreases y.len(),
{
    if y.len() > 0 && is_space(y.last()) {
        lemma_trim_end_prefix(y.drop_last());
        assert(y.drop_last().take(trim_end(y).len() as int) =~= y.take(trim_end(y).len() as int));
    } else {
        assert(y.take(y.len() as int) =~= y);
    }
}

/// What `trim` gives is trimmed.
proof fn lemma_trim_trimmed(x: Seq<char>)
    ensures
        trimmed(trim(x)),
{
    let y = trim_start(x);
    lemma_trim_start_idempotent(x);
    lemma_trim_end_prefix(y);
    if trim_end(y).len() > 0 {
        assert(trim_end(y)[0] == y[0]);
    }
}

proof fn lemma_rest_of_line_text(x: Seq<char>, rest: Seq<char>, rule: Rule)
    requires
        forall|i: int| 0 <= i < x.len() ==> x[i] != '\n',
    ensures
        rest_of_line(x + seq!['\n'] + rest, rule) == Ok::<_, crate::grammar::ParseError>(
            (trim(x), rest),
        ),
{
    lemma_span_prefix(x, '\n', rest);
    assert((seq!['\n'] + rest).drop_first() =~= rest);
}

proof fn lemma_comment_text(c: Seq<char>, rest: Seq<char>)
    requires
        plain(c),
        trimmed(c),
    ensures
        comment(seq![';', ' '] + c + seq!['\n'] + rest) == Ok::<
            _,
            crate::grammar::ParseError,
        >((c, rest)),
{
    let t = seq![';', ' '] + c + seq!['\n'] + rest;
    let x = seq![' '] + c;
    assert(t.drop_first() =~= x + seq!['\n'] + rest);
    assert forall|i: int| 0 <= i < x.len() implies x[i] != '\n' by {
        if i > 0 {
            assert(x[i] == c[i - 1]);
        }
    }
    lemma_rest_of_line_text(x, rest, Rule::Comment);
    lemma_trim_space_before(c);
}

proof fn lemma_key_text(x: Seq<char>, v: Seq<char>, rest: Seq<char>)
    requires
        forall|i: int| 0 <= i < x.len() ==> x[i] != '=',
        plain(v),
        trimmed(v),
    ensures
        key(x + seq!['=', ' '] + v + seq!['\n'] + rest) == Ok::<_, crate::grammar::ParseError>(
            (SectionEntryModel::Key(trim(x), v), rest),
        ),
{
    let y = seq![' '] + v + seq!['\n'] + rest;
    assert(x + seq!['=', ' '] + v + seq!['\n'] + rest =~= x + seq!['='] + y);
    lemma_span_prefix(x, '=', y);
    assert((seq!['='] + y).drop_first() =~= y);
    let z = seq![' '] + v;
    assert(y =~= z + seq!['\n'] + rest);
    assert forall|i: int| 0 <= i < z.len() implies z[i] != '\n' by {
        if i > 0 {
            assert(z[i] == v[i - 1]);
        }
    }
    lemma_rest_of_line_text(z, rest, Rule::Key);
    lemma_trim_space_before(v);
}

proof fn lemma_header_text(n: Seq<char>, rest: Seq<char>)
    requires
        plain(n),
    ensures
        section_header(seq!['['] + n + seq![']', '\n'] + rest) == Ok::<
            _,
            crate::grammar::ParseError,
        >((n, rest)),
{
    assert forall|i: int| 0 <= i < n.len() implies n[i] != ']' by {
        assert(!is_marker(n[i]));
    }
    lemma_header_name_is_raw(n, rest);
}

/// The lines of section entries, followed by text that ends the section (its
/// end, or the next header), read back as those entries in their order, and
/// the body stops where the following text starts.
pub proof fn lemma_section_body_text(
    es: Seq<SectionEntryModel>,
    tail: Seq<char>,
    acc: Seq<SectionEntryModel>,
)
    requires
        forall|j: int| 0 <= j < es.len() ==> section_entry_plain(#[trigger] es[j]),
        forall|j: int| 0 <= j < es.len() ==> section_entry_trimmed(#[trigger] es[j]),
        trim_start(tail).len() == 0 || trim_start(tail)[0] == '[',
    ensures
        section_body(section_entries_text(es) + tail, acc) == Ok::<_, crate::grammar::ParseError>(
            (acc + es, trim_start(tail)),
        ),
    decreases es.len(),
{
    lemma_trim_start_idempotent(tail);
    if es.len() == 0 {
        assert(section_entries_text(es) + tail =~= tail);
        assert(acc + es =~= acc);
        lemma_trim_start_idempotent(tail);
    } else {
        let e = es[0];
        let more = section_entries_text(es.drop_first()) + tail;
        assert(section_entries_text(es) + tail =~= section_entry_text(e) + more);
        assert(section_entry_plain(es[0]) && section_entry_trimmed(es[0]));
        assert forall|j: int| 0 <= j < es.drop_first().len() implies section_entry_plain(
            #[trigger] es.drop_first()[j],
        ) && section_entry_trimmed(es.drop_first()[j]) by {
            assert(es.drop_first()[j] == es[j + 1]);
            assert(section_entry_plain(es[j + 1]) && section_entry_trimmed(es[j + 1]));
        }
        let t = section_entry_text(e) + more;
        match e {
            SectionEntryModel::Comment(c) => {
                assert(t =~= seq![';', ' '] + c + seq!['\n'] + more);
                assert(t[0] == ';');
                assert(trim_start(t) == t);
                lemma_comment_text(c, more);
            },
            SectionEntryModel::Key(k, v) => {
                assert forall|i: int| 0 <= i < k.len() implies k[i] != '=' by {
                    assert(!is_marker(k[i]));
                }
                if k.len() == 0 {
                    assert(t =~= seq![' '] + (seq!['=', ' '] + v + seq!['\n'] + more));
                    assert(t.drop_first() =~= seq!['=', ' '] + v + seq!['\n'] + more);
                    let u = t.drop_first();
                    assert(u[0] == '=');
                    assert(trim_start(u) == u);
                    assert(trim_start(t) == u);
                    assert(u =~= k + seq!['=', ' '] + v + seq!['\n'] + more);
                    lemma_key_text(k, v, more);
                    lemma_trim_unchanged(k);
                } else {
                    let x = k + seq![' '];
                    assert(t =~= x + seq!['=', ' '] + v + seq!['\n'] + more);
                    assert(t[0] == k[0]);
                    assert(!is_marker(k[0]));
                    assert(trim_start(t) == t);
                    assert forall|i: int| 0 <= i < x.len() implies x[i] != '=' by {
                        if i < k.len() {
                            assert(x[i] == k[i]);
                        }
                    }
                    lemma_key_text(x, v, more);
                    lemma_trim_space_after(k);
                }
            },
        }
        lemma_section_body_text(es.drop_first(), tail, acc.push(e));
        assert(acc.push(e) + es.drop_first() =~= acc + es);
    }
}

proof fn lemma_document_text(d: Seq<EntryModel>, acc: Seq<EntryModel>)
    requires
        document_plain(d),
        normal_form(d),
    ensures
        document(document_text(d), acc) == Ok::<_, crate::grammar::ParseError>(acc + d),
    decreases d.len(),
{
    let t = document_text(d);
    if d.len() == 0 {
        assert(acc + d =~= acc);
    } else {
        let e = d[0];
        let rest = document_text(d.drop_first());
        let dd = d.drop_first();
        assert(entry_plain(d[0]) && entry_trimmed(d[0]));
        assert forall|i: int| 0 <= i < dd.len() implies entry_plain(#[trigger] dd[i]) by {
            assert(dd[i] == d[i + 1]);
            assert(entry_plain(d[i + 1]));
        }
        assert forall|i: int| 0 <= i < dd.len() implies entry_trimmed(#[trigger] dd[i]) by {
            assert(dd[i] == d[i + 1]);
            assert(entry_trimmed(d[i + 1]));
        }
        assert forall|i: int, j: int|
            0 <= i < j < dd.len() && (#[trigger] dd[i]) is Section implies (
            #[trigger] dd[j]) is Section by {
            assert(dd[i] == d[i + 1] && dd[j] == d[j + 1]);
        }
        match e {
            EntryModel::Comment(c) => {
                assert(t =~= seq![';', ' '] + c + seq!['\n'] + rest);
                assert(t[0] == ';');
                assert(trim_start(t) == t);
                lemma_comment_text(c, rest);
            },
            EntryModel::Section(s) => {
                // Everything after a section is a section, so its text is empty
                // or starts with `[`.
                assert(rest.len() == 0 || rest[0] == '[') by {
                    if dd.len() > 0 {
                        assert(d[1] is Section);
                        assert(dd[0] == d[1]);
                        let s2 = dd[0]->Section_0;
                        assert(rest =~= (seq!['['] + s2.name + seq![']', '\n']
                            + section_entries_text(s2.entries) + seq!['\n']) + document_text(
                            dd.drop_first(),
                        ));
                    }
                }
                let tail = seq!['\n'] + rest;
                assert(tail.drop_first() =~= rest);
                assert(trim_start(rest) == rest);
                assert(trim_start(tail) == rest);
                let body = section_entries_text(s.entries) + tail;
                assert(t =~= seq!['['] + s.name + seq![']', '\n'] + body);
                assert(t[0] == '[');
                assert(trim_start(t) == t);
                lemma_header_text(s.name, body);
                lemma_section_body_text(s.entries, tail, seq![]);
                assert(seq![] + s.entries =~= s.entries);
            },
        }
        lemma_document_text(dd, acc.push(e));
        assert(acc.push(e) + dd =~= acc + d);
    }
}

proof fn lemma_comment_trimmed(u: Seq<char>)
    ensures
        comment(u) matches Ok((c, _)) ==> trimmed(c),
{
    if u.len() > 0 {
        let r = u.drop_first();
        lemma_trim_trimmed(r.take(span_until(r, '\n') as int));
    }
}

proof fn lemma_key_trimmed(u: Seq<char>)
    ensures
        key(u) matches Ok((e, _)) ==> section_entry_trimmed(e),
{
    let n = span_until(u, '=');
    lemma_trim_trimmed(u.take(n as int));
    if n < u.len() {
        let r = u.skip(n as int).drop_first();
        let m = span_until(r, '\n');
        lemma_trim_trimmed(r.take(m as int));
        if let Ok((e, _)) = key(u) {
            assert(match_char(u.skip(n as int), '=', Rule::Key) == Ok::<_, ParseError>(r));
            assert(rest_of_line(r, Rule::Key) matches Ok((v, _)) && v == trim(r.take(m as int)));
            assert(e == SectionEntryModel::Key(trim(u.take(n as int)), trim(r.take(m as int))));
        }
    } else {
        lemma_span_until(u, '=');
        assert(u.skip(n as int).len() == 0);
    }
}

/// A section body gives trimmed entries, and ends at the end of the input or
/// at a `[`.
proof fn lemma_section_body_shape(t: Seq<char>, acc: Seq<SectionEntryModel>)
    requires
        forall|j: int| 0 <= j < acc.len() ==> section_entry_trimmed(#[trigger] acc[j]),
    ensures
        section_body(t, acc) matches Ok((es, r)) ==> (forall|j: int|
            0 <= j < es.len() ==> section_entry_trimmed(#[trigger] es[j])) && (r.len() == 0
            || r[0] == '['),
    decreases t.len(),
{
    let u = trim_start(t);
    lemma_trim_start_len(t);
    if u.len() == 0 || u[0] == '[' {
    } else if u[0] == ';' {
        lemma_comment_shrinks(u);
        lemma_comment_trimmed(u);
        if let Ok((c, r)) = comment(u) {
            let acc2 = acc.push(SectionEntryModel::Comment(c));
            assert forall|j: int| 0 <= j < acc2.len() implies section_entry_trimmed(
                #[trigger] acc2[j],
            ) by {
                if j < acc.len() {
                    assert(acc2[j] == acc[j]);
                }
            }
            lemma_section_body_shape(r, acc2);
        }
    } else {
        lemma_key_shrinks(u);
        lemma_key_trimmed(u);
        if let Ok((e, r)) = key(u) {
            let acc2 = acc.push(e);
            assert forall|j: int| 0 <= j < acc2.len() implies section_entry_trimmed(
                #[trigger] acc2[j],
            ) by {
                if j < acc.len() {
                    assert(acc2[j] == acc[j]);
                }
            }
            lemma_section_body_shape(r, acc2);
        }
    }
}

proof fn lemma_document_shape(t: Seq<char>, acc: Seq<EntryModel>)
    requires
        normal_form(acc),
        acc.len() > 0 && acc.last() is Section ==> t.len() == 0 || t[0] == '[',
    ensures
        document(t, acc) matches Ok(d) ==> normal_form(d),
    decreases t.len(),
{
    let u = trim_start(t);
    lemma_trim_start_len(t);
    if u.len() == 0 {
    } else if u[0] == ';' {
        if acc.len() > 0 && acc.last() is Section {
            assert(trim_start(t) == t);
        }
        lemma_comment_shrinks(u);
        lemma_comment_trimmed(u);
        if let Ok((c, r)) = comment(u) {
            let acc2 = acc.push(EntryModel::Comment(c));
            assert forall|i: int| 0 <= i < acc2.len() implies entry_trimmed(#[trigger] acc2[i]) by {
                if i < acc.len() {
                    assert(acc2[i] == acc[i]);
                }
            }
            assert forall|i: int, j: int|
                0 <= i < j < acc2.len() && (#[trigger] acc2[i]) is Section implies (
                #[trigger] acc2[j]) is Section by {
                assert(acc2[i] == acc[i]);
                if j == acc.len() {
                    assert(acc[i] is Section ==> acc[acc.len() - 1] is Section);
                } else {
                    assert(acc2[j] == acc[j]);
                }
            }
            lemma_document_shape(r, acc2);
        }
    } else {
        lemma_header_shrinks(u);
        if let Ok((name, r)) = section_header(u) {
            lemma_section_body_shrinks(r, seq![]);
            lemma_section_body_shape(r, seq![]);
            if let Ok((es, r2)) = section_body(r, seq![]) {
                let acc2 = acc.push(EntryModel::Section(SectionModel { name, entries: es }));
                assert forall|i: int| 0 <= i < acc2.len() implies entry_trimmed(
                    #[trigger] acc2[i],
                ) by {
                    if i < acc.len() {
                        assert(acc2[i] == acc[i]);
                    }
                }
                assert forall|i: int, j: int|
                    0 <= i < j < acc2.len() && (#[trigger] acc2[i]) is Section implies (
                    #[trigger] acc2[j]) is Section by {
                    assert(acc2[i] == acc[i]);
                    if j < acc.len() {
                        assert(acc2[j] == acc[j]);
                    }
                }
                lemma_document_shape(r2, acc2);
            }
        }
    }
}

/// Every document that the parser gives is in normal form.
pub proof fn lemma_parse_normal_form(input: Seq<char>)
    ensures
        parse_ini(input) matches Ok(d) ==> normal_form(d),
{
    lemma_document_shape(input, seq![]);
}

/// Writing a document in normal form whose texts hold no marker, then reading
/// the text, gives the document back.
pub proof fn lemma_write_then_parse(d: Seq<EntryModel>)
    requires
        document_plain(d),
        normal_form(d),
    ensures
        parse_ini(document_text(d)) == Ok::<_, crate::grammar::ParseError>(d),
{
    lemma_document_text(d, seq![]);
    assert(seq![] + d =~= d);
}

/// Round trip: when the parser reads a document from `input`, and no text in
/// it holds `;`, `[`, `]`, `=` or a newline, writing that document and parsing
/// the text gives the same document.
pub proof fn lemma_round_trip(input: Seq<char>)
    requires
        parse_ini(input) is Ok,
        document_plain(parse_ini(input)->Ok_0),
    ensures
        parse_ini(document_text(parse_ini(input)->Ok_0)) == parse_ini(input),
{
    lemma_parse_normal_form(input);
    lemma_write_then_parse(parse_ini(input)->Ok_0);
}

} // verus!
