//! The transport boundary: the shape of a request, the choice of a handler
//! by the name of the method, and the framing of what is written back.

use crate::filter::{page, run_spec, FilterResponse, OutputView, ResponseView};
use crate::matcher::{find_next, lemma_next_index, next_index};
use crate::source::Command;
use crate::text::{
    digits_end, is_digit, lemma_ascii_is_boundary, lemma_digits_end, lemma_digits_end_is,
    lemma_str_is_utf8, same_text, str_between,
};
use vstd::prelude::*;
use vstd::string::*;
use vstd::utf8::*;

verus! {

/// The byte that ends a line.
pub const LINE_FEED: u8 = 10;

/// What a request carries besides its method: the fields that handlers
/// read.
pub struct Params {
    /// The text typed so far.
    pub query: Option<String>,
    /// The working directory of the client.
    pub cwd: Option<String>,
    /// The directory in which a search is to run.
    pub dir: Option<String>,
    /// The line under the cursor.
    pub curline: Option<String>,
    /// The width of the display, in characters.
    pub winwidth: Option<usize>,
}

/// A request.
pub struct Message {
    pub method: String,
    pub session_id: u64,
    pub id: u64,
    pub params: Params,
}

/// The handlers that a request can be routed to.
#[derive(Clone, Copy, Debug, PartialEq, Eq, Structural)]
pub enum Route {
    /// Browse a directory.
    Filer,
    /// Start a session that browses a directory.
    FilerOnInit,
    /// Set up what all sessions share.
    InitializeGlobalEnv,
    /// Start a session.
    OnInit,
    /// The query of a session changed.
    OnTyped,
    /// The selection of a session changed.
    OnMove,
    /// End a session.
    Exit,
    /// Search the contents of files.
    Grep,
    /// List files.
    Files,
    /// No handler goes by this name.
    Unknown,
}

/// The handler for a method name.
pub open spec fn route_of(method: Seq<char>) -> Route {
    if method == "filer"@ {
        Route::Filer
    } else if method == "filer/on_init"@ {
        Route::FilerOnInit
    } else if method == "initialize_global_env"@ {
        Route::InitializeGlobalEnv
    } else if method == "on_init"@ {
        Route::OnInit
    } else if method == "on_typed"@ {
        Route::OnTyped
    } else if method == "on_move"@ || method == "filer/on_move"@ {
        Route::OnMove
    } else if method == "exit"@ {
        Route::Exit
    } else if method == "grep"@ {
        Route::Grep
    } else if method == "files"@ {
        Route::Files
    } else {
        Route::Unknown
    }
}

/// Chooses the handler by the name of the method.
pub fn route(method: &str) -> (r: Route)
    ensures
        r == route_of(method@),
{
    if same_text(method, "filer") {
        Route::Filer
    } else if same_text(method, "filer/on_init") {
        Route::FilerOnInit
    } else if same_text(method, "initialize_global_env") {
        Route::InitializeGlobalEnv
    } else if same_text(method, "on_init") {
        Route::OnInit
    } else if same_text(method, "on_typed") {
        Route::OnTyped
    } else if same_text(method, "on_move") || same_text(method, "filer/on_move") {
        Route::OnMove
    } else if same_text(method, "exit") {
        Route::Exit
    } else if same_text(method, "grep") {
        Route::Grep
    } else if same_text(method, "files") {
        Route::Files
    } else {
        Route::Unknown
    }
}

/// The answer to a request that cannot be served: the id of the request
/// and what went wrong.
pub struct ErrorResponse {
    pub id: u64,
    pub error: String,
}

/// The answer to a request whose method has no handler; it names the
/// method and echoes the id of the request.
pub fn unknown_method(msg: &Message) -> (r: ErrorResponse)
    ensures
        r.id == msg.id,
        r.error@ == "unknown method: "@ + msg.method@,
{
    let mut error = String::from_str("unknown method: ");
    error.append(msg.method.as_str());
    ErrorResponse { id: msg.id, error }
}

/// Number of bytes of `data` that are equal to `needle`.
pub open spec fn count_byte(data: Seq<u8>, needle: u8) -> nat
    decreases data.len(),
{
    if data.len() == 0 {
        0
    } else {
        count_byte(data.drop_last(), needle) + if data.last() == needle {
            1nat
        } else {
            0nat
        }
    }
}

/// Calls `bytecount::count`, which returns how many bytes of the haystack
/// are equal to the needle.
#[verifier::external_body]
fn count_occurrences(data: &[u8], needle: u8) -> (n: usize)
    ensures
        n == count_byte(data@, needle),
{
    bytecount::count(data, needle)
}

/// Number of line feeds in a block of collected output: the size of the
/// unfiltered source as reported to the client.
pub fn initial_size(data: &[u8]) -> (n: usize)
    ensures
        n == count_byte(data@, LINE_FEED),
{
    count_occurrences(data, LINE_FEED)
}

/// The text that `String::from_utf8_lossy` makes of bytes.
pub uninterp spec fn lossy_text(bytes: Seq<u8>) -> Seq<char>;

/// Calls `String::from_utf8_lossy`, which turns bytes into text and puts
/// the replacement character in place of what is not valid UTF-8. Bytes
/// that are valid UTF-8 are taken as they are.
#[verifier::external_body]
fn to_text(data: &[u8]) -> (text: String)
    ensures
        text@ == lossy_text(data@),
        valid_utf8(data@) ==> text@ == decode_utf8(data@),
{
    String::from_utf8_lossy(data).into_owned()
}

/// The pieces into which the separator cuts the bytes from `from` on: one
/// more than there are separators, so the last piece is empty if the bytes
/// end in a separator.
pub open spec fn pieces_from(bytes: Seq<u8>, sep: u8, from: int) -> Seq<Seq<u8>>
    decreases bytes.len() - from,
{
    let p = next_index(bytes, sep, from);
    if from < 0 || p < from || p >= bytes.len() {
        seq![bytes.subrange(from, bytes.len() as int)]
    } else {
        seq![bytes.subrange(from, p)] + pieces_from(bytes, sep, p + 1)
    }
}

/// The bytes of each string.
pub open spec fn bytes_of(lines: Seq<String>) -> Seq<Seq<u8>> {
    lines.map_values(|s: String| encode_utf8(s@))
}

/// Cuts a text into lines at every line feed. A text that ends in a line
/// feed gives an empty last line.
pub fn split_lines(text: &str) -> (lines: Vec<String>)
    ensures
        bytes_of(lines@) == pieces_from(text.spec_bytes(), LINE_FEED, 0),
{
    let bytes = text.as_bytes();
    let n = bytes.len();
    let mut lines: Vec<String> = Vec::new();
    let mut from: usize = 0;
    proof {
        lemma_str_is_utf8(text);
        is_char_boundary_start_end_of_seq(bytes@);
    }
    assert(bytes_of(lines@) =~= Seq::empty());
    loop
        invariant_except_break
            from <= n,
            n == bytes@.len(),
            bytes@ == text.spec_bytes(),
            valid_utf8(bytes@),
            is_char_boundary(bytes@, from as int),
            is_char_boundary(bytes@, n as int),
            pieces_from(bytes@, LINE_FEED, 0) == bytes_of(lines@) + pieces_from(
                bytes@,
                LINE_FEED,
                from as int,
            ),
        ensures
            bytes_of(lines@) == pieces_from(text.spec_bytes(), LINE_FEED, 0),
        decreases n - from,
    {
        let p = find_next(bytes, LINE_FEED, from);
        let ghost before = bytes_of(lines@);
        proof {
            lemma_next_index(bytes@, LINE_FEED, from as int);
            if p < n {
                lemma_ascii_is_boundary(bytes@, p as int);
            }
        }
        let piece = str_between(text, from, p);
        lines.push(String::from_str(piece));
        assert(bytes_of(lines@) =~= before.push(bytes@.subrange(from as int, p as int)));
        if p >= n {
            assert(bytes_of(lines@) =~= before + pieces_from(bytes@, LINE_FEED, from as int));
            break;
        }
        assert(before + pieces_from(bytes@, LINE_FEED, from as int) =~= bytes_of(lines@)
            + pieces_from(bytes@, LINE_FEED, p + 1));
        from = p + 1;
    }
    lines
}

/// What answers a query on output that was collected as a whole.
pub struct CollectedReply {
    /// The id of the request.
    pub id: u64,
    /// The number of lines that were collected.
    pub initial_size: usize,
    /// The page of the best results.
    pub page: FilterResponse,
}

/// The lines of a collected output are the pieces of its text, and the
/// page reports filtering these lines by the query.
pub open spec fn answers_collected(
    lines: Seq<String>,
    data: Seq<u8>,
    query: Seq<u8>,
    number: usize,
    winwidth: Option<usize>,
    page: ResponseView,
) -> bool {
    &&& bytes_of(lines) == pieces_from(encode_utf8(lossy_text(data)), LINE_FEED, 0)
    &&& OutputView::Page(page) == run_spec(query, lines, None, Some(number), winwidth)
}

/// The reply answers request `id` for the query on the collected output:
/// it echoes the id, counts the lines collected, and its page reports
/// filtering the lines of the output by the query.
pub open spec fn replies_collected(
    reply: CollectedReply,
    id: u64,
    data: Seq<u8>,
    query: Seq<u8>,
    number: usize,
    winwidth: Option<usize>,
) -> bool {
    &&& reply.id == id
    &&& reply.initial_size == count_byte(data, LINE_FEED)
    &&& exists|lines: Seq<String>|
        answers_collected(lines, data, query, number, winwidth, reply.page@)
}

/// Answers a query on the collected output of a command: the output is
/// taken as text, cut into lines, and the lines are filtered in one call.
pub fn filter_collected(
    data: &[u8],
    query: &str,
    id: u64,
    number: usize,
    winwidth: Option<usize>,
) -> (reply: CollectedReply)
    ensures
        replies_collected(reply, id, data@, query.spec_bytes(), number, winwidth),
{
    let size = initial_size(data);
    let text = to_text(data);
    let lines = split_lines(text.as_str());
    let ghost cut = lines@;
    let page = page(query, lines, None, number, winwidth);
    let reply = CollectedReply { id, initial_size: size, page };
    assert(answers_collected(cut, data@, query.spec_bytes(), number, winwidth, reply.page@));
    reply
}

/// What a request is answered with by a server that answers from the
/// collected output of a command.
pub enum CollectedAnswer {
    /// The page for the query of the request.
    Page(CollectedReply),
    /// The request cannot be served.
    Refused(ErrorResponse),
}

/// Why a request on collected output is refused: its method has no
/// handler, or it carries no query, or the output is not yet there.
pub open spec fn collected_refusal(msg: Message) -> Seq<char> {
    if route_of(msg.method@) == Route::Unknown {
        "unknown method: "@ + msg.method@
    } else if msg.params.query is None {
        "request has no query"@
    } else {
        "the files are not listed yet"@
    }
}

/// Answers a request from the collected output of a command, if it has
/// arrived. A request with a query is answered with the page for the query
/// once the output is there, whatever its method. Every other request is
/// refused, with the id of the request and the reason.
pub fn answer_collected(data: Option<&[u8]>, msg: &Message, number: usize) -> (answer:
    CollectedAnswer)
    ensures
        match (data, msg.params.query) {
            (Some(collected), Some(query)) => answer matches CollectedAnswer::Page(reply)
                && replies_collected(
                reply,
                msg.id,
                collected@,
                encode_utf8(query@),
                number,
                msg.params.winwidth,
            ),
            _ => answer matches CollectedAnswer::Refused(e) && e.id == msg.id && e.error@
                == collected_refusal(*msg),
        },
{
    match (data, &msg.params.query) {
        (Some(collected), Some(query)) => CollectedAnswer::Page(
            filter_collected(collected, query.as_str(), msg.id, number, msg.params.winwidth),
        ),
        _ => {
            if route(msg.method.as_str()) == Route::Unknown {
                CollectedAnswer::Refused(unknown_method(msg))
            } else if msg.params.query.is_none() {
                CollectedAnswer::Refused(
                    ErrorResponse { id: msg.id, error: String::from_str("request has no query") },
                )
            } else {
                CollectedAnswer::Refused(
                    ErrorResponse {
                        id: msg.id,
                        error: String::from_str("the files are not listed yet"),
                    },
                )
            }
        },
    }
}

/// The program is the search program and the arguments make it search the
/// contents of files for the query and print one hit per line, with its
/// line and column.
pub open spec fn searches_for(program: String, args: Vec<String>, query: Seq<char>) -> bool {
    &&& program@ == "rg"@
    &&& args@.len() == 6
    &&& args@[0]@ == "--column"@
    &&& args@[1]@ == "--line-number"@
    &&& args@[2]@ == "--no-heading"@
    &&& args@[3]@ == "--color=never"@
    &&& args@[4]@ == "--smart-case"@
    &&& args@[5]@ == query
}

/// The command searches the contents of files for the query, in the
/// directory.
pub open spec fn is_grep_command(cmd: Command, query: Seq<char>, dir: Option<String>) -> bool {
    searches_for(cmd.program, cmd.args, query) && cmd.dir == dir
}

/// The command that searches the contents of files for a query.
pub fn grep_command(query: &str, dir: Option<String>) -> (cmd: Command)
    ensures
        is_grep_command(cmd, query@, dir),
{
    let mut args: Vec<String> = Vec::new();
    args.push(String::from_str("--column"));
    args.push(String::from_str("--line-number"));
    args.push(String::from_str("--no-heading"));
    args.push(String::from_str("--color=never"));
    args.push(String::from_str("--smart-case"));
    args.push(String::from_str(query));
    Command { program: String::from_str("rg"), args, dir }
}

/// The search that a request asks for: the command for its query, or
/// nothing if the request carries no query.
pub fn grep_request(msg: Message) -> (cmd: Option<Command>)
    ensures
        match msg.params.query {
            Some(query) => cmd matches Some(c) && is_grep_command(c, query@, msg.params.dir),
            None => cmd is None,
        },
{
    match msg.params.query {
        Some(query) => Some(grep_command(query.as_str(), msg.params.dir)),
        None => None,
    }
}

/// The bytes of `Content-length: `, which open every frame.
pub open spec fn header_bytes() -> Seq<u8> {
    seq![67u8, 111u8, 110u8, 116u8, 101u8, 110u8, 116u8, 45u8, 108u8, 101u8, 110u8, 103u8, 116u8, 104u8, 58u8, 32u8]
}

/// The byte of a decimal digit.
pub open spec fn digit_byte(d: nat) -> u8 {
    (48 + d) as u8
}

/// The decimal form of a number, in bytes.
pub open spec fn decimal_bytes(n: nat) -> Seq<u8>
    decreases n,
{
    if n < 10 {
        seq![digit_byte(n)]
    } else {
        decimal_bytes(n / 10).push(digit_byte(n % 10))
    }
}

/// The three line feeds between the length and the payload of a frame.
pub open spec fn frame_gap() -> Seq<u8> {
    seq![LINE_FEED, LINE_FEED, LINE_FEED]
}

/// A payload in its frame: the header with the length of the payload in
/// decimal, three line feeds, and the payload.
pub open spec fn framed(payload: Seq<u8>) -> Seq<u8> {
    header_bytes() + decimal_bytes(payload.len()) + frame_gap() + payload
}

fn push_decimal_bytes(out: &mut Vec<u8>, n: usize)
    ensures
        final(out)@ == old(out)@ + decimal_bytes(n as nat),
    decreases n,
{
    if n < 10 {
        out.push(48 + n as u8);
        assert(out@ =~= old(out)@ + decimal_bytes(n as nat));
    } else {
        push_decimal_bytes(out, n / 10);
        out.push(48 + (n % 10) as u8);
        assert(out@ =~= old(out)@ + decimal_bytes(n as nat));
    }
}

/// Puts a payload into its frame.
pub fn frame(payload: &[u8]) -> (out: Vec<u8>)
    ensures
        out@ == framed(payload@),
{
    let header: [u8; 16] = [67, 111, 110, 116, 101, 110, 116, 45, 108, 101, 110, 103, 116, 104, 58, 32];
    let mut out: Vec<u8> = Vec::new();
    let mut i: usize = 0;
    while i < 16
        invariant
            i <= 16,
            header@ == header_bytes(),
            out@ == header_bytes().subrange(0, i as int),
        decreases 16 - i,
    {
        out.push(header[i]);
        assert(out@ =~= header_bytes().subrange(0, i + 1));
        i += 1;
    }
    assert(out@ =~= header_bytes());
    push_decimal_bytes(&mut out, payload.len());
    out.push(LINE_FEED);
    out.push(LINE_FEED);
    out.push(LINE_FEED);
    let ghost head = out@;
    assert(head =~= header_bytes() + decimal_bytes(payload@.len()) + frame_gap());
    let mut j: usize = 0;
    while j < payload.len()
        invariant
            j <= payload@.len(),
            out@ == head + payload@.subrange(0, j as int),
        decreases payload@.len() - j,
    {
        out.push(payload[j]);
        assert(out@ =~= head + payload@.subrange(0, j + 1));
        j += 1;
    }
    assert(payload@.subrange(0, payload@.len() as int) =~= payload@);
    out
}

/// What stands at the beginning of a buffer of received bytes.
#[derive(Clone, Copy, Debug, PartialEq, Eq, Structural)]
pub enum Frame {
    /// The beginning of a frame; more bytes are needed.
    Partial,
    /// Bytes that are not the beginning of any frame.
    Broken,
    /// A whole frame, whose payload lies between these offsets.
    Whole { start: usize, end: usize },
}

/// The number that decimal digits stand for.
pub open spec fn number_of(digits: Seq<u8>) -> nat
    decreases digits.len(),
{
    if digits.len() == 0 {
        0
    } else {
        number_of(digits.drop_last()) * 10 + (digits.last() - 48) as nat
    }
}

/// Whether the bytes that are there of the three from `at` on are line
/// feeds.
pub open spec fn gap_so_far(buf: Seq<u8>, at: int) -> bool {
    &&& at < buf.len() ==> buf[at] == LINE_FEED
    &&& at + 1 < buf.len() ==> buf[at + 1] == LINE_FEED
    &&& at + 2 < buf.len() ==> buf[at + 2] == LINE_FEED
}

/// What stands at the beginning of a buffer.
pub open spec fn frame_of(buf: Seq<u8>) -> Frame {
    let header = header_bytes();
    if buf.len() < header.len() {
        if buf == header.subrange(0, buf.len() as int) {
            Frame::Partial
        } else {
            Frame::Broken
        }
    } else if buf.subrange(0, header.len() as int) != header {
        Frame::Broken
    } else {
        let end = digits_end(buf, header.len() as int);
        let length = number_of(buf.subrange(header.len() as int, end));
        if end == buf.len() {
            Frame::Partial
        } else if end == header.len() || length > usize::MAX || !gap_so_far(buf, end) {
            Frame::Broken
        } else if buf.len() < end + 3 + length {
            Frame::Partial
        } else {
            Frame::Whole { start: (end + 3) as usize, end: (end + 3 + length) as usize }
        }
    }
}

/// The decimal form of a number consists of digits and stands for the
/// number.
pub proof fn lemma_decimal_bytes(n: nat)
    ensures
        decimal_bytes(n).len() >= 1,
        forall|i: int| 0 <= i < decimal_bytes(n).len() ==> is_digit(#[trigger] decimal_bytes(n)[i]),
        number_of(decimal_bytes(n)) == n,
    decreases n,
{
    if n >= 10 {
        lemma_decimal_bytes(n / 10);
        let head = decimal_bytes(n / 10);
        assert(decimal_bytes(n).drop_last() =~= head);
        assert(decimal_bytes(n).last() == digit_byte(n % 10));
        assert(number_of(decimal_bytes(n)) == number_of(head) * 10 + (n % 10));
        assert forall|i: int| 0 <= i < decimal_bytes(n).len() implies is_digit(
            #[trigger] decimal_bytes(n)[i],
        ) by {
            if i < head.len() {
                assert(decimal_bytes(n)[i] == head[i]);
            }
        }
    } else {
        assert(decimal_bytes(n).drop_last() =~= Seq::<u8>::empty());
        assert(decimal_bytes(n).last() == digit_byte(n));
        assert(number_of(Seq::<u8>::empty()) == 0);
        assert(number_of(decimal_bytes(n)) == number_of(decimal_bytes(n).drop_last()) * 10 + n);
    }
}

/// Reading undoes framing: a buffer that begins with the frame of a
/// payload holds a whole frame, and between the offsets of that frame
/// lies the payload, whatever follows it.
pub proof fn lemma_frame_of_framed(payload: Seq<u8>, rest: Seq<u8>)
    requires
        framed(payload).len() + rest.len() <= usize::MAX,
    ensures
        frame_of(framed(payload) + rest) matches Frame::Whole { start, end } && start
            == framed(payload).len() - payload.len() && end == framed(payload).len() && (framed(
            payload,
        ) + rest).subrange(start as int, end as int) == payload,
{
    let buf = framed(payload) + rest;
    let digits = decimal_bytes(payload.len());
    let stop: int = 16 + digits.len() as int;
    lemma_decimal_bytes(payload.len());
    assert(buf.subrange(0, 16) =~= header_bytes());
    assert forall|i: int| 16 <= i < stop implies is_digit(#[trigger] buf[i]) by {
        assert(buf[i] == digits[i - 16]);
    }
    assert(buf[stop] == LINE_FEED);
    assert(buf[stop + 1] == LINE_FEED);
    assert(buf[stop + 2] == LINE_FEED);
    lemma_digits_end_is(buf, 16, stop);
    assert(buf.subrange(16, stop) =~= digits);
    assert(buf.subrange(stop + 3, stop + 3 + payload.len()) =~= payload);
}

/// Reads what stands at the beginning of a buffer of received bytes.
pub fn read_frame(buf: &[u8]) -> (frame: Frame)
    ensures
        frame == frame_of(buf@),
{
    let header: [u8; 16] = [67, 111, 110, 116, 101, 110, 116, 45, 108, 101, 110, 103, 116, 104, 58, 32];
    let n = buf.len();
    assert(header@ =~= header_bytes());
    let mut i: usize = 0;
    while i < 16 && i < n
        invariant
            i <= 16,
            i <= n,
            n == buf@.len(),
            header@ == header_bytes(),
            forall|j: int| 0 <= j < i ==> buf@[j] == header_bytes()[j],
        decreases 16 - i,
    {
        if buf[i] != header[i] {
            proof {
                if n < 16 {
                    assert(header_bytes().subrange(0, n as int)[i as int] == header_bytes()[i as int]);
                } else {
                    assert(buf@.subrange(0, 16)[i as int] == buf@[i as int]);
                }
            }
            return Frame::Broken;
        }
        i += 1;
    }
    if n < 16 {
        assert(buf@ =~= header_bytes().subrange(0, n as int));
        return Frame::Partial;
    }
    assert(buf@.subrange(0, 16) =~= header_bytes());
    let mut end: usize = 16;
    let mut length: usize = 0;
    let mut too_long = false;
    assert(buf@.subrange(16, 16) =~= Seq::<u8>::empty());
    while end < n && buf[end] >= 48 && buf[end] <= 57
        invariant
            16 <= end <= n,
            n == buf@.len(),
            digits_end(buf@, 16) == digits_end(buf@, end as int),
            forall|j: int| 16 <= j < end ==> is_digit(#[trigger] buf@[j]),
            !too_long ==> length == number_of(buf@.subrange(16, end as int)),
            too_long ==> number_of(buf@.subrange(16, end as int)) > usize::MAX,
        decreases n - end,
    {
        let digit: usize = (buf[end] - 48) as usize;
        proof {
            let longer = buf@.subrange(16, end + 1);
            assert(longer.drop_last() =~= buf@.subrange(16, end as int));
            assert(longer.last() == buf@[end as int]);
        }
        if !too_long {
            if length > (usize::MAX - digit) / 10 {
                too_long = true;
            } else {
                length = length * 10 + digit;
            }
        }
        end += 1;
    }
    proof {
        lemma_digits_end(buf@, end as int);
    }
    if end == n {
        return Frame::Partial;
    }
    if end == 16 || too_long {
        return Frame::Broken;
    }
    if buf[end] != LINE_FEED {
        return Frame::Broken;
    }
    if n - end >= 2 && buf[end + 1] != LINE_FEED {
        return Frame::Broken;
    }
    if n - end >= 3 && buf[end + 2] != LINE_FEED {
        return Frame::Broken;
    }
    assert(gap_so_far(buf@, end as int));
    if n - end < 3 || n - end - 3 < length {
        return Frame::Partial;
    }
    Frame::Whole { start: end + 3, end: end + 3 + length }
}

} // verus!
