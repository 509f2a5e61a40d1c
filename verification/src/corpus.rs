//! Documents, and the record-oriented text format in which a corpus is kept.
//!
//! A corpus text is a sequence of lines. A line that starts with `#url` and a
//! white-space character gives the identifier of the current record, one
//! that starts with `#content` and a white-space character gives its text;
//! both values are the rest of the line without surrounding white space. A
//! line of white space alone, and the end of the text, close the current
//! record. A closed record becomes a document when both of its values are
//! present and not empty; otherwise it is dropped. Other lines are ignored.

use crate::text::{
    chars_of, is_marked, lemma_prefix_len_ends, lemma_suffix_len_ends, mark_whitespace,
    prefix_len, string_from_chars, suffix_len, whitespace_marks,
};
use vstd::prelude::*;

verus! {

/// A document of the corpus: an identifier for display and the raw text.
#[derive(Debug, PartialEq, Eq)]
pub struct Document {
    pub id: String,
    pub text: String,
}

/// What a `Document` holds, as sequences of characters.
pub struct DocumentView {
    pub id: Seq<char>,
    pub text: Seq<char>,
}

impl View for Document {
    type V = DocumentView;

    open spec fn view(&self) -> DocumentView {
        DocumentView { id: self.id@, text: self.text@ }
    }
}

impl DeepView for Document {
    type V = DocumentView;

    open spec fn deep_view(&self) -> DocumentView {
        self@
    }
}

/// The predicate that holds of every character but the line feed.
pub open spec fn within_line() -> spec_fn((char, bool)) -> bool {
    |m: (char, bool)| m.0 != '\n'
}

/// The lines of a text: the stretches between line feeds. A text without a
/// line feed is one line, and a text that ends in a line feed has an empty
/// last line.
pub open spec fn lines_of(marked: Seq<(char, bool)>) -> Seq<Seq<(char, bool)>>
    decreases marked.len(),
    via lines_of_decreases
{
    let n = prefix_len(marked, within_line()) as int;
    if n >= marked.len() {
        seq![marked]
    } else {
        seq![marked.take(n)] + lines_of(marked.skip(n + 1))
    }
}

#[via_fn]
proof fn lines_of_decreases(marked: Seq<(char, bool)>) {
}

/// The tag that opens a line with a document's identifier.
pub open spec fn url_tag() -> Seq<char> {
    seq!['#', 'u', 'r', 'l']
}

/// The tag that opens a line with a document's text.
pub open spec fn content_tag() -> Seq<char> {
    seq!['#', 'c', 'o', 'n', 't', 'e', 'n', 't']
}

/// Whether `line` starts with `tag` and a white-space character.
pub open spec fn has_tag(line: Seq<(char, bool)>, tag: Seq<char>) -> bool {
    &&& line.len() > tag.len()
    &&& chars_of(line.take(tag.len() as int)) == tag
    &&& line[tag.len() as int].1
}

/// The characters of `marked` without the white space at its start and end.
pub open spec fn trimmed(marked: Seq<(char, bool)>) -> Seq<char> {
    let lead = prefix_len(marked, is_marked()) as int;
    let trail = suffix_len(marked, is_marked()) as int;
    if lead >= marked.len() {
        Seq::empty()
    } else {
        chars_of(marked.subrange(lead, marked.len() - trail))
    }
}

/// Whether `line` holds white space alone.
pub open spec fn is_blank(line: Seq<(char, bool)>) -> bool {
    prefix_len(line, is_marked()) == line.len()
}

/// The state of reading a corpus text: the documents read so far, and the
/// values of the record that is still open.
pub struct Reading {
    pub documents: Seq<DocumentView>,
    pub id: Seq<char>,
    pub text: Seq<char>,
}

/// The state before the first line.
pub open spec fn start_of_reading() -> Reading {
    Reading { documents: Seq::empty(), id: Seq::empty(), text: Seq::empty() }
}

/// Closes the open record: it becomes a document if it has both an
/// identifier and a text, and the next record starts with neither.
pub open spec fn close_record(r: Reading) -> Reading {
    Reading {
        documents: if r.id.len() > 0 && r.text.len() > 0 {
            r.documents.push(DocumentView { id: r.id, text: r.text })
        } else {
            r.documents
        },
        id: Seq::empty(),
        text: Seq::empty(),
    }
}

/// The state after one more line.
pub open spec fn read_line(r: Reading, line: Seq<(char, bool)>) -> Reading {
    if has_tag(line, url_tag()) {
        Reading { id: trimmed(line.skip(url_tag().len() as int)), ..r }
    } else if has_tag(line, content_tag()) {
        Reading { text: trimmed(line.skip(content_tag().len() as int)), ..r }
    } else if is_blank(line) {
        close_record(r)
    } else {
        r
    }
}

/// The state after all of `lines`, read in order.
pub open spec fn read_lines(r: Reading, lines: Seq<Seq<(char, bool)>>) -> Reading
    decreases lines.len(),
{
    if lines.len() == 0 {
        r
    } else {
        read_lines(read_line(r, lines[0]), lines.drop_first())
    }
}

/// The documents that a corpus text holds, in the order of their records.
/// Each character of the text is marked with whether it is white space.
pub open spec fn records_of(marked: Seq<(char, bool)>) -> Seq<DocumentView> {
    close_record(read_lines(start_of_reading(), lines_of(marked))).documents
}

/// Whether each of `documents` has an identifier and a text that are not
/// empty.
pub open spec fn are_complete(documents: Seq<DocumentView>) -> bool {
    forall|k: int|
        0 <= k < documents.len() ==> (#[trigger] documents[k]).id.len() > 0 && documents[k].text.len()
            > 0
}

proof fn lemma_closing_keeps_complete(r: Reading)
    requires
        are_complete(r.documents),
    ensures
        are_complete(close_record(r).documents),
{
    let closed = close_record(r).documents;
    assert forall|k: int| 0 <= k < closed.len() implies (#[trigger] closed[k]).id.len() > 0
        && closed[k].text.len() > 0 by {
        if k < r.documents.len() {
            assert(closed[k] == r.documents[k]);
        }
    }
}

proof fn lemma_reading_keeps_complete(r: Reading, lines: Seq<Seq<(char, bool)>>)
    requires
        are_complete(r.documents),
    ensures
        are_complete(read_lines(r, lines).documents),
    decreases lines.len(),
{
    if lines.len() > 0 {
        lemma_closing_keeps_complete(r);
        lemma_reading_keeps_complete(read_line(r, lines[0]), lines.drop_first());
    }
}

/// No record without an identifier or without a text becomes a document.
pub proof fn lemma_records_are_complete(marked: Seq<(char, bool)>)
    ensures
        are_complete(records_of(marked)),
{
    lemma_reading_keeps_complete(start_of_reading(), lines_of(marked));
    lemma_closing_keeps_complete(read_lines(start_of_reading(), lines_of(marked)));
}

/// Where the characters from `start` up to `end` hold no line feed and one
/// stands at `end`, they are the first line of the text from `start` on, and
/// the other lines are those of the text behind that line feed.
proof fn lemma_line_found(marked: Seq<(char, bool)>, start: int, end: int)
    requires
        0 <= start <= end < marked.len(),
        forall|k: int| start <= k < end ==> marked[k].0 != '\n',
        marked[end].0 == '\n',
    ensures
        lines_of(marked.skip(start)) == seq![marked.subrange(start, end)] + lines_of(
            marked.skip(end + 1),
        ),
{
    let rest = marked.skip(start);
    let n = end - start;
    assert forall|k: int| 0 <= k < n implies within_line()(#[trigger] rest[k]) by {
        assert(rest[k] == marked[start + k]);
    }
    assert(rest[n] == marked[end]);
    lemma_prefix_len_ends(rest, within_line(), n);
    assert(rest.take(n) =~= marked.subrange(start, end));
    assert(rest.skip(n + 1) =~= marked.skip(end + 1));
}

/// Where no line feed stands from `start` on, the rest of the text is its
/// last line.
proof fn lemma_last_line(marked: Seq<(char, bool)>, start: int)
    requires
        0 <= start <= marked.len(),
        forall|k: int| start <= k < marked.len() ==> marked[k].0 != '\n',
    ensures
        lines_of(marked.skip(start)) == seq![marked.skip(start)],
{
    let rest = marked.skip(start);
    assert forall|k: int| 0 <= k < rest.len() implies within_line()(#[trigger] rest[k]) by {
        assert(rest[k] == marked[start + k]);
    }
    lemma_prefix_len_ends(rest, within_line(), rest.len() as int);
}

/// The reader of a corpus text, between two lines.
struct Reader {
    documents: Vec<Document>,
    id: String,
    text: String,
}

impl Reader {
    spec fn view(&self) -> Reading {
        Reading { documents: self.documents.deep_view(), id: self.id@, text: self.text@ }
    }

    fn new() -> (reader: Reader)
        ensures
            reader@ == start_of_reading(),
    {
        let reader = Reader { documents: Vec::new(), id: String::new(), text: String::new() };
        proof {
            assert(reader.documents.deep_view() =~= Seq::<DocumentView>::empty());
        }
        reader
    }

    fn close_record(self) -> (reader: Reader)
        ensures
            reader@ == close_record(self@),
    {
        let mut documents = self.documents;
        let ghost before = documents.deep_view();
        if !self.id.as_str().is_empty() && !self.text.as_str().is_empty() {
            documents.push(Document { id: self.id, text: self.text });
            proof {
                assert(documents.deep_view() =~= before.push(
                    DocumentView { id: self.id@, text: self.text@ },
                ));
            }
        }
        Reader { documents, id: String::new(), text: String::new() }
    }

    fn read_line(self, line: &Vec<(char, bool)>) -> (reader: Reader)
        ensures
            reader@ == read_line(self@, line@),
    {
        proof {
            assert(url_tag().len() == 4);
            assert(content_tag().len() == 8);
            assert(line@.skip(0) =~= line@);
        }
        if starts_with_url_tag(line) {
            let id = trimmed_from(line, 4);
            Reader { documents: self.documents, id, text: self.text }
        } else if starts_with_content_tag(line) {
            let text = trimmed_from(line, 8);
            Reader { documents: self.documents, id: self.id, text }
        } else if first_unmarked(line, 0) == line.len() {
            self.close_record()
        } else {
            self
        }
    }
}

fn starts_with_url_tag(line: &Vec<(char, bool)>) -> (found: bool)
    ensures
        found == has_tag(line@, url_tag()),
{
    let found = line.len() > 4 && line[0].0 == '#' && line[1].0 == 'u' && line[2].0 == 'r'
        && line[3].0 == 'l' && line[4].1;
    proof {
        if line.len() > 4 {
            let head = chars_of(line@.take(4));
            if found {
                assert(head =~= url_tag());
            } else if line[4].1 {
                assert(head[0] == line[0].0 && head[1] == line[1].0 && head[2] == line[2].0
                    && head[3] == line[3].0);
                assert(head != url_tag());
            }
        }
    }
    found
}

fn starts_with_content_tag(line: &Vec<(char, bool)>) -> (found: bool)
    ensures
        found == has_tag(line@, content_tag()),
{
    let found = line.len() > 8 && line[0].0 == '#' && line[1].0 == 'c' && line[2].0 == 'o'
        && line[3].0 == 'n' && line[4].0 == 't' && line[5].0 == 'e' && line[6].0 == 'n'
        && line[7].0 == 't' && line[8].1;
    proof {
        if line.len() > 8 {
            let head = chars_of(line@.take(8));
            if found {
                assert(head =~= content_tag());
            } else if line[8].1 {
                assert(head[0] == line[0].0 && head[1] == line[1].0 && head[2] == line[2].0
                    && head[3] == line[3].0 && head[4] == line[4].0 && head[5] == line[5].0
                    && head[6] == line[6].0 && head[7] == line[7].0);
                assert(head != content_tag());
            }
        }
    }
    found
}

/// The place of the first unmarked character of `line` at or behind `from`,
/// or the length of `line` where there is none.
fn first_unmarked(line: &Vec<(char, bool)>, from: usize) -> (at: usize)
    requires
        from <= line.len(),
    ensures
        at == from + prefix_len(line@.skip(from as int), is_marked()),
        from <= at <= line.len(),
        at < line.len() ==> !line@[at as int].1,
{
    let mut at: usize = from;
    while at < line.len() && line[at].1
        invariant
            from <= at <= line.len(),
            forall|k: int| from <= k < at ==> line@[k].1,
        decreases line.len() - at,
    {
        at += 1;
    }
    proof {
        let rest = line@.skip(from as int);
        assert forall|k: int| 0 <= k < at - from implies is_marked()(#[trigger] rest[k]) by {
            assert(rest[k] == line@[from + k]);
        }
        if at < line.len() {
            assert(rest[at - from] == line@[at as int]);
        }
        lemma_prefix_len_ends(rest, is_marked(), at - from);
    }
    at
}

/// The characters of `line` from `from` on, without the white space at
/// their start and end.
fn trimmed_from(line: &Vec<(char, bool)>, from: usize) -> (field: String)
    requires
        from <= line.len(),
    ensures
        field@ == trimmed(line@.skip(from as int)),
{
    let first = first_unmarked(line, from);
    if first >= line.len() {
        return String::new();
    }
    let mut end: usize = line.len();
    while end > first + 1 && line[end - 1].1
        invariant
            first < end <= line.len(),
            !line@[first as int].1,
            forall|k: int| end <= k < line.len() ==> line@[k].1,
        decreases end,
    {
        end -= 1;
    }
    let ghost rest = line@.skip(from as int);
    proof {
        assert(!line@[end - 1].1);
        assert forall|k: int| rest.len() - (line.len() - end) <= k < rest.len() implies is_marked()(
            #[trigger] rest[k],
        ) by {
            assert(rest[k] == line@[from + k]);
        }
        assert(rest[rest.len() - (line.len() - end) - 1] == line@[end - 1]);
        lemma_suffix_len_ends(rest, is_marked(), line.len() - end);
    }
    let mut chars: Vec<char> = Vec::new();
    let mut k: usize = first;
    while k < end
        invariant
            first <= k <= end <= line.len(),
            chars@ == chars_of(line@.subrange(first as int, k as int)),
        decreases end - k,
    {
        chars.push(line[k].0);
        proof {
            assert(chars@ =~= chars_of(line@.subrange(first as int, k + 1)));
        }
        k += 1;
    }
    proof {
        assert(rest.subrange(first - from, rest.len() - (line.len() - end)) =~= line@.subrange(
            first as int,
            end as int,
        ));
    }
    string_from_chars(&chars)
}

/// Reads the documents of a corpus text whose characters are marked with
/// whether they are white space.
pub fn parse_marked(marked: &Vec<(char, bool)>) -> (documents: Vec<Document>)
    ensures
        documents.deep_view() == records_of(marked@),
{
    let mut reader = Reader::new();
    let mut line: Vec<(char, bool)> = Vec::new();
    let ghost mut start: int = 0;
    let mut i: usize = 0;
    proof {
        assert(marked@.skip(0) =~= marked@);
        assert(line@ =~= marked@.subrange(0, 0));
    }
    while i < marked.len()
        invariant
            0 <= start <= i <= marked.len(),
            line@ == marked@.subrange(start, i as int),
            forall|k: int| start <= k < i ==> marked@[k].0 != '\n',
            read_lines(reader@, lines_of(marked@.skip(start))) == read_lines(
                start_of_reading(),
                lines_of(marked@),
            ),
        decreases marked.len() - i,
    {
        let m = marked[i];
        if m.0 == '\n' {
            proof {
                lemma_line_found(marked@, start, i as int);
                let lines = lines_of(marked@.skip(start));
                assert(lines[0] == line@);
                assert(lines.drop_first() =~= lines_of(marked@.skip(i + 1)));
            }
            reader = reader.read_line(&line);
            line = Vec::new();
            proof {
                start = i + 1;
                assert(line@ =~= marked@.subrange(start, i + 1));
            }
        } else {
            line.push(m);
            proof {
                assert(line@ =~= marked@.subrange(start, i + 1));
            }
        }
        i += 1;
    }
    proof {
        lemma_last_line(marked@, start);
        let lines = lines_of(marked@.skip(start));
        assert(marked@.skip(start) =~= line@);
        assert(lines[0] == line@);
        assert(lines.drop_first() =~= Seq::<Seq<(char, bool)>>::empty());
        assert(read_lines(read_line(reader@, line@), lines.drop_first()) == read_line(
            reader@,
            line@,
        ));
        assert(read_lines(reader@, lines) == read_line(reader@, line@));
    }
    reader = reader.read_line(&line);
    reader = reader.close_record();
    reader.documents
}

/// Reads the documents of a corpus text.
pub fn parse_documents(text: &str) -> (documents: Vec<Document>)
    ensures
        documents.deep_view() == records_of(whitespace_marks(text@)),
{
    let marked = mark_whitespace(text);
    parse_marked(&marked)
}

} // verus!
