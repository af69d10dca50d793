//! Tag records and their one-line form.
//!
//! The tags of a project come from an outside program, one record per line
//! of its output. Running the program and decoding its output are the
//! caller's part; what is decided here is which records become lines and
//! how a record is laid out.

use crate::text::{lemma_str_is_utf8, str_between};
use vstd::prelude::*;
use vstd::string::*;
use vstd::utf8::*;

verus! {

/// The command that lists the tags of a project.
pub const BASE_TAGS_CMD: &'static str =
    "ctags -R -x --output-format=json --fields=+n --exclude=.git --exclude=*.json --exclude=node_modules --exclude=target";

/// The width to which the name and the kind of a tag are padded.
pub const COLUMN_WIDTH: usize = 30;

/// One tag, as the tags program reports it.
pub struct TagInfo {
    pub name: String,
    pub path: String,
    /// The search pattern of the tag: the source line between a two-byte
    /// opening and a two-byte closing mark.
    pub pattern: String,
    pub line: usize,
    pub kind: String,
}

/// The programs whose output can be taken as lines.
#[derive(Clone, Copy, Debug, PartialEq, Eq, Structural)]
pub enum Executor {
    /// The tags of a project.
    ProjTags,
}

/// Whether a character is white space in the sense of Unicode, as
/// `char::is_whitespace` decides it.
pub uninterp spec fn is_whitespace(c: char) -> bool;

/// Calls `char::is_whitespace`, which tells whether the character has the
/// Unicode property White_Space.
#[verifier::external_body]
fn is_space(c: char) -> (b: bool)
    ensures
        b == is_whitespace(c),
{
    c.is_whitespace()
}

/// Calls `String::push`, which appends the character to the end of the
/// string.
#[verifier::external_body]
fn push_char(s: &mut String, c: char)
    ensures
        final(s)@ == old(s)@.push(c),
{
    s.push(c)
}

/// The character of a decimal digit.
pub open spec fn digit_char(d: nat) -> char {
    ((48 + d) as u8) as char
}

/// The decimal form of a number.
pub open spec fn decimal(n: nat) -> Seq<char>
    decreases n,
{
    if n < 10 {
        seq![digit_char(n)]
    } else {
        decimal(n / 10).push(digit_char(n % 10))
    }
}

/// `n` spaces.
pub open spec fn spaces(n: nat) -> Seq<char> {
    Seq::new(n, |i: int| ' ')
}

/// The text followed by as many spaces as it takes to fill `width`
/// characters; a text that is as long or longer stays as it is.
pub open spec fn padded(text: Seq<char>, width: nat) -> Seq<char> {
    if text.len() >= width {
        text
    } else {
        text + spaces((width - text.len()) as nat)
    }
}

/// The index of the first character at or after `i` that is not white
/// space, or the length of the text.
pub open spec fn skip_space(text: Seq<char>, i: int) -> int
    decreases text.len() - i,
{
    if 0 <= i < text.len() && is_whitespace(text[i]) {
        skip_space(text, i + 1)
    } else {
        i
    }
}

/// The index right behind the last character before `j` that is not white
/// space, but no less than `lo`.
pub open spec fn drop_space(text: Seq<char>, lo: int, j: int) -> int
    decreases j,
{
    if 0 <= lo < j <= text.len() && is_whitespace(text[j - 1]) {
        drop_space(text, lo, j - 1)
    } else {
        j
    }
}

/// The text without the white space at its beginning and at its end.
pub open spec fn trimmed(text: Seq<char>) -> Seq<char> {
    let from = skip_space(text, 0);
    text.subrange(from, drop_space(text, from, text.len() as int))
}

/// Whether a search pattern can be stripped of its marks: it has at least
/// four bytes, and a character begins behind the first two bytes and
/// before the last two.
pub open spec fn has_marks(pattern: Seq<char>) -> bool {
    let bytes = encode_utf8(pattern);
    &&& bytes.len() >= 4
    &&& is_char_boundary(bytes, 2)
    &&& is_char_boundary(bytes, bytes.len() - 2)
}

/// The search pattern without its marks.
pub open spec fn unmarked(pattern: Seq<char>) -> Seq<char> {
    let bytes = encode_utf8(pattern);
    decode_utf8(bytes.subrange(2, bytes.len() - 2))
}

/// The name of a tag with its line number.
pub open spec fn name_column(name: Seq<char>, line: nat) -> Seq<char> {
    name + seq![':'] + decimal(line)
}

/// The kind of a tag with the path of its file.
pub open spec fn kind_column(kind: Seq<char>, path: Seq<char>) -> Seq<char> {
    seq!['['] + kind + seq!['@'] + path + seq![']']
}

/// The one-line form of a tag: the name with the line number and the kind
/// with the path, each padded to a column, then the source line.
pub open spec fn tag_line(tag: TagInfo) -> Seq<char> {
    padded(name_column(tag.name@, tag.line as nat), COLUMN_WIDTH as nat) + seq![' '] + padded(
        kind_column(tag.kind@, tag.path@),
        COLUMN_WIDTH as nat,
    ) + seq![' '] + trimmed(unmarked(tag.pattern@))
}

fn push_decimal(s: &mut String, n: usize)
    ensures
        final(s)@ == old(s)@ + decimal(n as nat),
    decreases n,
{
    if n < 10 {
        let d: u8 = 48 + n as u8;
        push_char(s, d as char);
        assert(s@ =~= old(s)@ + decimal(n as nat));
    } else {
        push_decimal(s, n / 10);
        let d: u8 = 48 + (n % 10) as u8;
        push_char(s, d as char);
        assert(s@ =~= old(s)@ + decimal(n as nat));
    }
}

fn pad_to(s: &mut String, width: usize)
    ensures
        final(s)@ == padded(old(s)@, width as nat),
{
    let len = s.as_str().unicode_len();
    let ghost start = s@;
    let mut i: usize = len;
    assert(s@ =~= start + spaces(0));
    while i < width
        invariant
            len == start.len(),
            len <= i,
            i <= width || i == len,
            s@ == start + spaces((i - len) as nat),
        decreases width - i,
    {
        push_char(s, ' ');
        assert(s@ =~= start + spaces((i + 1 - len) as nat));
        i += 1;
    }
}

/// Cuts the white space off both ends of a text.
pub fn trim(text: &str) -> (r: &str)
    ensures
        r@ == trimmed(text@),
{
    let len = text.unicode_len();
    let mut from: usize = 0;
    while from < len && is_space(text.get_char(from))
        invariant
            from <= len,
            len == text@.len(),
            skip_space(text@, 0) == skip_space(text@, from as int),
        decreases len - from,
    {
        from += 1;
    }
    let mut to: usize = len;
    while to > from && is_space(text.get_char(to - 1))
        invariant
            from <= to <= len,
            len == text@.len(),
            drop_space(text@, from as int, len as int) == drop_space(
                text@,
                from as int,
                to as int,
            ),
        decreases to,
    {
        to -= 1;
    }
    text.substring_char(from, to)
}

impl TagInfo {
    /// Whether the tag can be laid out as a line: its search pattern has
    /// its marks.
    pub fn is_formattable(&self) -> (b: bool)
        ensures
            b == has_marks(self.pattern@),
    {
        let pattern = self.pattern.as_str();
        let len = pattern.as_bytes().len();
        len >= 4 && pattern.is_char_boundary(2) && pattern.is_char_boundary(len - 2)
    }

    /// Lays the tag out as one line.
    pub fn format(&self) -> (line: String)
        requires
            has_marks(self.pattern@),
        ensures
            line@ == tag_line(*self),
    {
        let mut out = String::from_str(self.name.as_str());
        push_char(&mut out, ':');
        push_decimal(&mut out, self.line);
        assert(out@ =~= name_column(self.name@, self.line as nat));
        pad_to(&mut out, COLUMN_WIDTH);
        push_char(&mut out, ' ');
        let mut kind = String::from_str("[");
        proof {
            reveal_strlit("[");
            reveal_strlit("@");
            reveal_strlit("]");
        }
        kind.append(self.kind.as_str());
        kind.append("@");
        kind.append(self.path.as_str());
        kind.append("]");
        assert(kind@ =~= kind_column(self.kind@, self.path@));
        pad_to(&mut kind, COLUMN_WIDTH);
        out.append(kind.as_str());
        push_char(&mut out, ' ');
        let pattern = self.pattern.as_str();
        let len = pattern.as_bytes().len();
        proof {
            lemma_str_is_utf8(pattern);
        }
        let middle = str_between(pattern, 2, len - 2);
        proof {
            encode_utf8_decode_utf8(middle@);
        }
        out.append(trim(middle));
        assert(out@ =~= tag_line(*self));
        out
    }
}

/// The line that a record gives: none for a record that could not be read
/// or decoded, and none for a tag whose search pattern lacks its marks.
pub open spec fn record_line(record: Option<TagInfo>) -> Option<Seq<char>> {
    match record {
        Some(tag) => if has_marks(tag.pattern@) {
            Some(tag_line(tag))
        } else {
            None
        },
        None => None,
    }
}

/// The lines for the records of a tags program, in their order. A record
/// that gives no line is skipped.
pub open spec fn tag_lines(records: Seq<Option<TagInfo>>) -> Seq<Seq<char>>
    decreases records.len(),
{
    if records.len() == 0 {
        Seq::empty()
    } else {
        match record_line(records.last()) {
            Some(line) => tag_lines(records.drop_last()).push(line),
            None => tag_lines(records.drop_last()),
        }
    }
}

/// The value of a line that may be absent.
pub open spec fn line_view(line: Option<String>) -> Option<Seq<char>> {
    match line {
        Some(l) => Some(l@),
        None => None,
    }
}

/// Lays a record out as a line, if it gives one.
pub fn format_record(record: &Option<TagInfo>) -> (line: Option<String>)
    ensures
        line_view(line) == record_line(*record),
{
    match record {
        Some(tag) => if tag.is_formattable() {
            Some(tag.format())
        } else {
            None
        },
        None => None,
    }
}

/// The values of a sequence of strings.
pub open spec fn texts(v: Seq<String>) -> Seq<Seq<char>> {
    v.map_values(|s: String| s@)
}

/// Turns the records of a tags program into lines. A record that gives
/// no line is skipped, and the records behind it still give theirs.
pub fn formatted_tags_stream(records: &Vec<Option<TagInfo>>) -> (lines: Vec<String>)
    ensures
        texts(lines@) == tag_lines(records@),
{
    let mut lines: Vec<String> = Vec::new();
    let mut i: usize = 0;
    assert(records@.subrange(0, 0) =~= Seq::empty());
    assert(texts(lines@) =~= Seq::empty());
    while i < records.len()
        invariant
            i <= records@.len(),
            texts(lines@) == tag_lines(records@.subrange(0, i as int)),
        decreases records@.len() - i,
    {
        let ghost before = texts(lines@);
        assert(records@.subrange(0, i + 1).drop_last() =~= records@.subrange(0, i as int));
        assert(records@.subrange(0, i + 1).last() == records@[i as int]);
        match format_record(&records[i]) {
            Some(line) => {
                lines.push(line);
                assert(texts(lines@) =~= before.push(line@));
            },
            None => {},
        }
        i += 1;
    }
    assert(records@.subrange(0, records@.len() as int) =~= records@);
    lines
}

/// Turns the records of the default tags command into lines.
pub fn default_formatted_tags_stream(records: &Vec<Option<TagInfo>>) -> (lines: Vec<String>)
    ensures
        texts(lines@) == tag_lines(records@),
{
    formatted_tags_stream(records)
}

/// The lines that the program gives, from the records of its output.
pub fn execute_at(executor: Executor, records: &Vec<Option<TagInfo>>) -> (lines: Vec<String>)
    ensures
        texts(lines@) == tag_lines(records@),
{
    match executor {
        Executor::ProjTags => formatted_tags_stream(records),
    }
}

impl Executor {
    /// The command line of the program.
    pub fn command(&self) -> (cmd: &'static str)
        ensures
            cmd@ == BASE_TAGS_CMD@,
    {
        match self {
            Executor::ProjTags => BASE_TAGS_CMD,
        }
    }

    /// The lines that the program gives, from the records of its output.
    pub fn execute(self, records: &Vec<Option<TagInfo>>) -> (lines: Vec<String>)
        ensures
            texts(lines@) == tag_lines(records@),
    {
        match self {
            Executor::ProjTags => formatted_tags_stream(records),
        }
    }

    /// Programs are not run from here: whoever holds the records of the
    /// output hands them to `execute`.
    pub fn execute_dyn(self) {
    }
}

} // verus!
