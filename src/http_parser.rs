//! Incremental, resumable HTTP/1.1 request parser.
//!
//! The parser is a state machine over an accumulation buffer. Its behaviour
//! is given by the spec function `step`, which advances the machine by one
//! unit of input (a line, a body, a chunk), and `run`, which takes steps
//! until the machine waits for more input or fails. `HttpParser::parse`
//! appends the new bytes and does exactly what `run` says.
use vstd::prelude::*;
use crate::bytes::{
    append_bytes, ascii_bytes, contains, contains_seq, find_byte, find_first, lit, lower,
    parse_radix, parse_unsigned, slice_of, split_words, to_lower, to_upper, trim, trim_bytes, upper,
    words,
};
use crate::fields::{insert, lookup, FieldMap, FieldsView};

verus! {

pub struct HttpRequest {
    pub method: Vec<u8>,
    pub uri: Vec<u8>,
    pub version: Vec<u8>,
    pub headers: FieldMap,
    pub body: Vec<u8>,
    pub complete: bool,
}

pub struct RequestView {
    pub method: Seq<u8>,
    pub uri: Seq<u8>,
    pub version: Seq<u8>,
    pub headers: FieldsView,
    pub body: Seq<u8>,
    pub complete: bool,
}

impl View for HttpRequest {
    type V = RequestView;

    open spec fn view(&self) -> RequestView {
        RequestView {
            method: self.method@,
            uri: self.uri@,
            version: self.version@,
            headers: self.headers@,
            body: self.body@,
            complete: self.complete,
        }
    }
}

pub open spec fn empty_request() -> RequestView {
    RequestView {
        method: Seq::empty(),
        uri: Seq::empty(),
        version: Seq::empty(),
        headers: Seq::empty(),
        body: Seq::empty(),
        complete: false,
    }
}

impl HttpRequest {
    pub fn new() -> (r: HttpRequest)
        ensures
            r@ == empty_request(),
    {
        HttpRequest {
            method: Vec::new(),
            uri: Vec::new(),
            version: Vec::new(),
            headers: FieldMap::new(),
            body: Vec::new(),
            complete: false,
        }
    }
}

#[derive(Clone, Copy, PartialEq, Eq, Structural, Debug)]
pub enum ParserState {
    RequestLine,
    Headers,
    Body,
    Done,
}

#[derive(Clone, Copy, PartialEq, Eq, Structural, Debug)]
pub enum ChunkState {
    Size,
    Data,
    TrailingCRLF,
}

#[derive(Clone, Copy, PartialEq, Eq, Structural, Debug)]
pub enum ParseError {
    MalformedRequestLine,
    MalformedHeader,
    MalformedChunkSize,
}

pub struct HttpParser {
    state: ParserState,
    buffer: Vec<u8>,
    headers_complete: bool,
    content_length: Option<usize>,
    is_chunked: bool,
    chunk_size: usize,
    chunk_state: ChunkState,
}

pub struct ParserView {
    pub state: ParserState,
    pub buffer: Seq<u8>,
    pub headers_complete: bool,
    pub content_length: Option<usize>,
    pub is_chunked: bool,
    pub chunk_size: usize,
    pub chunk_state: ChunkState,
}

impl View for HttpParser {
    type V = ParserView;

    closed spec fn view(&self) -> ParserView {
        ParserView {
            state: self.state,
            buffer: self.buffer@,
            headers_complete: self.headers_complete,
            content_length: self.content_length,
            is_chunked: self.is_chunked,
            chunk_size: self.chunk_size,
            chunk_state: self.chunk_state,
        }
    }
}

/// A parser that has seen nothing.
pub open spec fn initial_parser() -> ParserView {
    ParserView {
        state: ParserState::RequestLine,
        buffer: Seq::empty(),
        headers_complete: false,
        content_length: None,
        is_chunked: false,
        chunk_size: 0,
        chunk_state: ChunkState::Size,
    }
}

/// What one step of the machine does.
pub enum Step {
    /// Nothing more can be done until more bytes arrive.
    Wait,
    Fail(ParseError),
    Next(ParserView, RequestView),
}

pub open spec fn crlf_at(b: Seq<u8>, i: int) -> bool {
    0 <= i && i + 1 < b.len() && b[i] == 13 && b[i + 1] == 10
}

/// Position of the first `\r\n` in `b`.
#[verifier::opaque]
pub open spec fn first_crlf(b: Seq<u8>) -> Option<int> {
    if exists|i: int| crlf_at(b, i) {
        Some(choose|i: int| crlf_at(b, i) && forall|j: int| 0 <= j < i ==> !crlf_at(b, j))
    } else {
        None
    }
}

pub open spec fn drop_front(b: Seq<u8>, n: int) -> Seq<u8> {
    b.subrange(n, b.len() as int)
}

pub open spec fn to_usize_opt(n: Option<nat>) -> Option<usize> {
    match n {
        Some(v) => Some(v as usize),
        None => None,
    }
}

/// A header line `name: value` added to `h`; a line without `:` is ignored.
pub open spec fn add_header_line(h: FieldsView, line: Seq<u8>) -> FieldsView {
    match find_first(line, 58) {
        Some(c) => insert(
            h,
            lower(trim(line.subrange(0, c))),
            trim(line.subrange(c + 1, line.len() as int)),
        ),
        None => h,
    }
}

/// The request-line step.
pub open spec fn request_line_step(p: ParserView, r: RequestView) -> Step {
    match first_crlf(p.buffer) {
        None => Step::Wait,
        Some(pos) => {
            let w = words(p.buffer.subrange(0, pos));
            if w.len() != 3 {
                Step::Fail(ParseError::MalformedRequestLine)
            } else {
                Step::Next(
                    ParserView {
                        state: ParserState::Headers,
                        buffer: drop_front(p.buffer, pos + 2),
                        ..p
                    },
                    RequestView { method: upper(w[0]), uri: w[1], version: w[2], ..r },
                )
            }
        },
    }
}

/// The decision taken at the blank line that ends the headers.
pub open spec fn end_of_headers(p: ParserView, r: RequestView) -> Step {
    let cl = match lookup(r.headers, ascii_bytes("content-length"@)) {
        Some(v) => to_usize_opt(parse_unsigned(v, 10)),
        None => p.content_length,
    };
    let ch = match lookup(r.headers, ascii_bytes("transfer-encoding"@)) {
        Some(te) => p.is_chunked || contains(lower(te), ascii_bytes("chunked"@)),
        None => p.is_chunked,
    };
    let q = ParserView { headers_complete: true, content_length: cl, is_chunked: ch, ..p };
    if cl is Some || ch {
        Step::Next(ParserView { state: ParserState::Body, ..q }, r)
    } else {
        Step::Next(ParserView { state: ParserState::Done, ..q }, RequestView { complete: true, ..r })
    }
}

/// The header step: one header line, or the end of the headers. A
/// non-empty line without `:` is an error.
pub open spec fn header_step(p: ParserView, r: RequestView) -> Step {
    match first_crlf(p.buffer) {
        None => Step::Wait,
        Some(pos) => if pos == 0 {
            end_of_headers(ParserView { buffer: drop_front(p.buffer, 2), ..p }, r)
        } else if find_first(p.buffer.subrange(0, pos), 58) is None {
            Step::Fail(ParseError::MalformedHeader)
        } else {
            Step::Next(
                ParserView { buffer: drop_front(p.buffer, pos + 2), ..p },
                RequestView {
                    headers: add_header_line(r.headers, p.buffer.subrange(0, pos)),
                    ..r
                },
            )
        },
    }
}

/// The size token of a chunk-size line: up to the first `;`, trimmed.
pub open spec fn chunk_size_token(line: Seq<u8>) -> Seq<u8> {
    match find_first(line, 59) {
        Some(s) => trim(line.subrange(0, s)),
        None => trim(line),
    }
}

/// The fixed-length body step.
pub open spec fn body_step(p: ParserView, r: RequestView) -> Step {
    match p.content_length {
        Some(n) => if p.buffer.len() >= n {
            Step::Next(
                ParserView { state: ParserState::Done, buffer: drop_front(p.buffer, n as int), ..p },
                RequestView { body: r.body + p.buffer.subrange(0, n as int), complete: true, ..r },
            )
        } else {
            Step::Wait
        },
        None => Step::Wait,
    }
}

/// The chunked body step.
pub open spec fn chunk_step(p: ParserView, r: RequestView) -> Step {
    match p.chunk_state {
        ChunkState::Size => match first_crlf(p.buffer) {
            None => Step::Wait,
            Some(pos) => match parse_unsigned(chunk_size_token(p.buffer.subrange(0, pos)), 16) {
                None => Step::Fail(ParseError::MalformedChunkSize),
                Some(n) => if n == 0 {
                    Step::Next(
                        ParserView {
                            state: ParserState::Done,
                            buffer: drop_front(p.buffer, pos + 2),
                            chunk_size: 0,
                            ..p
                        },
                        RequestView { complete: true, ..r },
                    )
                } else {
                    Step::Next(
                        ParserView {
                            chunk_state: ChunkState::Data,
                            buffer: drop_front(p.buffer, pos + 2),
                            chunk_size: n as usize,
                            ..p
                        },
                        r,
                    )
                },
            },
        },
        ChunkState::Data => if p.buffer.len() >= p.chunk_size {
            Step::Next(
                ParserView {
                    chunk_state: ChunkState::TrailingCRLF,
                    buffer: drop_front(p.buffer, p.chunk_size as int),
                    ..p
                },
                RequestView { body: r.body + p.buffer.subrange(0, p.chunk_size as int), ..r },
            )
        } else {
            Step::Wait
        },
        ChunkState::TrailingCRLF => if p.buffer.len() >= 2 {
            Step::Next(
                ParserView {
                    chunk_state: ChunkState::Size,
                    buffer: drop_front(p.buffer, 2),
                    ..p
                },
                r,
            )
        } else {
            Step::Wait
        },
    }
}

/// One step of the parser.
pub open spec fn step(p: ParserView, r: RequestView) -> Step {
    match p.state {
        ParserState::RequestLine => request_line_step(p, r),
        ParserState::Headers => header_step(p, r),
        ParserState::Body => if p.is_chunked {
            chunk_step(p, r)
        } else {
            body_step(p, r)
        },
        ParserState::Done => Step::Wait,
    }
}

/// A measure that every step decreases.
pub open spec fn measure(p: ParserView) -> nat {
    4 * p.buffer.len() + if p.state == ParserState::Done {
        0nat
    } else {
        match p.chunk_state {
            ChunkState::Size => 3nat,
            ChunkState::Data => 2nat,
            ChunkState::TrailingCRLF => 1nat,
        }
    }
}

/// The request as a parser that waits leaves it: complete once the parser is done.
pub open spec fn settle(p: ParserView, r: RequestView) -> RequestView {
    if p.state == ParserState::Done {
        RequestView { complete: true, ..r }
    } else {
        r
    }
}

/// Steps until the parser waits for input or fails.
pub open spec fn run(p: ParserView, r: RequestView) -> Result<(ParserView, RequestView), ParseError>
    decreases measure(p),
{
    match step(p, r) {
        Step::Wait => Ok((p, settle(p, r))),
        Step::Fail(e) => Err(e),
        Step::Next(p2, r2) => if measure(p2) < measure(p) {
            run(p2, r2)
        } else {
            Ok((p, r))
        },
    }
}

/// The parser after `data` has been appended to its buffer.
pub open spec fn feed(p: ParserView, data: Seq<u8>) -> ParserView {
    ParserView { buffer: p.buffer + data, ..p }
}

/// How the result of an exec step relates to the step `s` it performs.
pub open spec fn step_done(
    s: Step,
    p: ParserView,
    r: RequestView,
    res: Result<bool, ParseError>,
    p2: ParserView,
    r2: RequestView,
) -> bool {
    match res {
        Ok(true) => s == Step::Next(p2, r2),
        Ok(false) => s == Step::Wait && p2 == p && r2 == r,
        Err(e) => s == Step::Fail(e),
    }
}

proof fn lemma_first_crlf(b: Seq<u8>)
    ensures
        first_crlf(b) matches Some(i) ==> crlf_at(b, i) && forall|j: int|
            0 <= j < i ==> !crlf_at(b, j),
        first_crlf(b) is None ==> forall|j: int| !crlf_at(b, j),
{
    reveal(first_crlf);
    if exists|i: int| crlf_at(b, i) {
        let c = choose|c: int| crlf_at(b, c) && forall|j: int| 0 <= j < c ==> !crlf_at(b, j);
        assert(crlf_at(b, c) && forall|j: int| 0 <= j < c ==> !crlf_at(b, j)) by {
            let i = choose|i: int| crlf_at(b, i);
            lemma_least_crlf(b, i);
        }
    }
}

/// Some `\r\n` at or before `i` comes first.
proof fn lemma_least_crlf(b: Seq<u8>, i: int)
    requires
        crlf_at(b, i),
    ensures
        exists|c: int| crlf_at(b, c) && forall|j: int| 0 <= j < c ==> !crlf_at(b, j),
    decreases i,
{
    if exists|j: int| 0 <= j < i && crlf_at(b, j) {
        let j = choose|j: int| 0 <= j < i && crlf_at(b, j);
        lemma_least_crlf(b, j);
    } else {
        assert(forall|j: int| 0 <= j < i ==> !crlf_at(b, j));
    }
}

proof fn lemma_first_crlf_unique(b: Seq<u8>, i: int)
    requires
        crlf_at(b, i),
        forall|j: int| 0 <= j < i ==> !crlf_at(b, j),
    ensures
        first_crlf(b) == Some(i),
{
    reveal(first_crlf);
    let c = choose|c: int| crlf_at(b, c) && forall|j: int| 0 <= j < c ==> !crlf_at(b, j);
    assert(crlf_at(b, c) && forall|j: int| 0 <= j < c ==> !crlf_at(b, j));
    if c < i {
        assert(!crlf_at(b, c));
    } else if c > i {
        assert(!crlf_at(b, i));
    }
}

pub proof fn lemma_step_decreases(p: ParserView, r: RequestView)
    ensures
        step(p, r) matches Step::Next(p2, _) ==> measure(p2) < measure(p),
{
    lemma_first_crlf(p.buffer);
}

proof fn lemma_crlf_extend(b: Seq<u8>, c: Seq<u8>)
    ensures
        first_crlf(b) matches Some(i) ==> first_crlf(b + c) == Some(i),
{
    lemma_first_crlf(b);
    if let Some(i) = first_crlf(b) {
        assert(crlf_at(b + c, i));
        assert forall|j: int| 0 <= j < i implies !crlf_at(b + c, j) by {
            assert(!crlf_at(b, j));
        }
        lemma_first_crlf_unique(b + c, i);
    }
}

/// A step that the buffered bytes allow is taken the same way when more
/// bytes follow them, and the bytes that follow are left in the buffer.
pub proof fn lemma_step_extend(p: ParserView, r: RequestView, c: Seq<u8>)
    ensures
        step(p, r) matches Step::Next(p2, r2) ==> step(feed(p, c), r) == Step::Next(
            feed(p2, c),
            r2,
        ),
        step(p, r) matches Step::Fail(e) ==> step(feed(p, c), r) == Step::Fail(e),
{
    let b = p.buffer;
    lemma_crlf_extend(b, c);
    lemma_first_crlf(b);
    if let Some(pos) = first_crlf(b) {
        assert((b + c).subrange(0, pos) =~= b.subrange(0, pos));
        assert(drop_front(b + c, pos + 2) =~= drop_front(b, pos + 2) + c);
        if pos == 0 {
            assert(drop_front(b + c, 2) =~= drop_front(b, 2) + c);
        }
    }
    if p.chunk_size <= b.len() {
        assert((b + c).subrange(0, p.chunk_size as int) =~= b.subrange(0, p.chunk_size as int));
        assert(drop_front(b + c, p.chunk_size as int) =~= drop_front(b, p.chunk_size as int) + c);
    }
    if b.len() >= 2 {
        assert(drop_front(b + c, 2) =~= drop_front(b, 2) + c);
    }
    if let Some(n) = p.content_length {
        if n <= b.len() {
            assert((b + c).subrange(0, n as int) =~= b.subrange(0, n as int));
            assert(drop_front(b + c, n as int) =~= drop_front(b, n as int) + c);
        }
    }
}

/// Running the parser on a buffer and then on more bytes gives what running
/// it on the longer buffer gives; a failure stays a failure.
pub proof fn lemma_run_extend(q: ParserView, r: RequestView, c: Seq<u8>)
    ensures
        run(q, r) matches Ok((p1, r1)) ==> run(feed(p1, c), r1) == run(feed(q, c), r),
        run(q, r) matches Err(e) ==> run(feed(q, c), r) == Err::<(ParserView, RequestView), ParseError>(e),
    decreases measure(q),
{
    lemma_step_decreases(q, r);
    lemma_step_extend(q, r, c);
    lemma_step_decreases(feed(q, c), r);
    match step(q, r) {
        Step::Wait => {
            if q.state == ParserState::Done {
                assert(step(feed(q, c), settle(q, r)) == Step::Wait);
            }
        },
        Step::Fail(e) => {},
        Step::Next(q2, r2) => {
            lemma_run_extend(q2, r2, c);
        },
    }
}

/// Feeds `pieces` one after another, stopping at the first failure.
pub open spec fn feed_pieces(p: ParserView, r: RequestView, pieces: Seq<Seq<u8>>) -> Result<
    (ParserView, RequestView),
    ParseError,
>
    decreases pieces.len(),
{
    if pieces.len() == 0 {
        run(p, r)
    } else {
        match run(feed(p, pieces[0]), r) {
            Ok((p1, r1)) => feed_pieces(p1, r1, pieces.drop_first()),
            Err(e) => Err(e),
        }
    }
}

/// The parser is resumable: however the input is cut into pieces, feeding
/// the pieces one by one ends in the same parser and request (or the same
/// error) as feeding all of the input at once.
pub proof fn lemma_feed_pieces(p: ParserView, r: RequestView, pieces: Seq<Seq<u8>>)
    ensures
        feed_pieces(p, r, pieces) == run(feed(p, pieces.flatten()), r),
    decreases pieces.len(),
{
    if pieces.len() == 0 {
        assert(feed(p, pieces.flatten()) == p) by {
            assert(p.buffer + Seq::<u8>::empty() =~= p.buffer);
        }
    } else {
        let x = pieces[0];
        let rest = pieces.drop_first();
        assert(feed(p, pieces.flatten()) == feed(feed(p, x), rest.flatten())) by {
            assert(p.buffer + pieces.flatten() =~= (p.buffer + x) + rest.flatten());
        }
        lemma_run_extend(feed(p, x), r, rest.flatten());
        if let Ok((p1, r1)) = run(feed(p, x), r) {
            lemma_feed_pieces(p1, r1, rest);
        }
    }
}

/// Feeding the parser `a` and then `b` gives what feeding it `a + b` gives.
pub proof fn lemma_feed_split(p: ParserView, r: RequestView, a: Seq<u8>, b: Seq<u8>)
    ensures
        run(feed(p, a), r) matches Ok((p1, r1)) ==> run(feed(p1, b), r1) == run(
            feed(p, a + b),
            r,
        ),
        run(feed(p, a), r) is Err ==> run(feed(p, a + b), r) == run(feed(p, a), r),
{
    lemma_run_extend(feed(p, a), r, b);
    assert(feed(feed(p, a), b) == feed(p, a + b)) by {
        assert((p.buffer + a) + b =~= p.buffer + (a + b));
    }
}

impl HttpParser {
    pub fn new() -> (r: HttpParser)
        ensures
            r@ == initial_parser(),
    {
        HttpParser {
            state: ParserState::RequestLine,
            buffer: Vec::new(),
            headers_complete: false,
            content_length: None,
            is_chunked: false,
            chunk_size: 0,
            chunk_state: ChunkState::Size,
        }
    }

    /// Appends `data` and advances as far as the buffered bytes allow.
    pub fn parse(&mut self, data: &[u8], request: &mut HttpRequest) -> (res: Result<(), ParseError>)
        ensures
            match res {
                Ok(()) => run(feed(old(self)@, data@), old(request)@) == Ok::<
                    (ParserView, RequestView),
                    ParseError,
                >((final(self)@, final(request)@)),
                Err(e) => run(feed(old(self)@, data@), old(request)@) == Err::<
                    (ParserView, RequestView),
                    ParseError,
                >(e),
            },
    {
        append_bytes(&mut self.buffer, data);
        assert(self@ == feed(old(self)@, data@));
        loop
            invariant
                run(self@, request@) == run(feed(old(self)@, data@), old(request)@),
            decreases measure(self@),
        {
            let ghost p0 = self@;
            let ghost r0 = request@;
            let res = match self.state {
                ParserState::RequestLine => self.parse_request_line(request),
                ParserState::Headers => self.parse_headers(request),
                ParserState::Body => {
                    if self.is_chunked {
                        self.parse_chunked_body(request)
                    } else {
                        self.parse_body(request)
                    }
                },
                ParserState::Done => {
                    request.complete = true;
                    assert(request@ == settle(p0, r0));
                    return Ok(());
                },
            };
            proof {
                lemma_step_decreases(p0, r0);
            }
            match res {
                Err(e) => {
                    return Err(e);
                },
                Ok(false) => {
                    return Ok(());
                },
                Ok(true) => {},
            }
        }
    }

    fn find_crlf(&self) -> (r: Option<usize>)
        ensures
            r matches Some(i) ==> first_crlf(self@.buffer) == Some(i as int) && i + 1
                < self@.buffer.len(),
            r is None ==> first_crlf(self@.buffer) is None,
    {
        proof {
            reveal(first_crlf);
        }
        let n = self.buffer.len();
        if n < 2 {
            return None;
        }
        let mut i: usize = 0;
        while i + 1 < n
            invariant
                n == self.buffer@.len(),
                n >= 2,
                i + 1 <= n,
                forall|j: int| 0 <= j < i ==> !crlf_at(self.buffer@, j),
            decreases n - i,
        {
            if self.buffer[i] == 13 && self.buffer[i + 1] == 10 {
                proof {
                    lemma_first_crlf_unique(self.buffer@, i as int);
                }
                return Some(i);
            }
            i = i + 1;
        }
        None
    }

    /// Drops the first `n` buffered bytes.
    fn consume(&mut self, n: usize)
        requires
            n <= old(self)@.buffer.len(),
        ensures
            final(self)@ == (ParserView { buffer: drop_front(old(self)@.buffer, n as int), ..old(self)@ }),
    {
        let len = self.buffer.len();
        self.buffer = slice_of(self.buffer.as_slice(), n, len);
    }

    fn parse_request_line(&mut self, request: &mut HttpRequest) -> (res: Result<bool, ParseError>)
        requires
            old(self)@.state == ParserState::RequestLine,
        ensures
            step_done(
                request_line_step(old(self)@, old(request)@),
                old(self)@,
                old(request)@,
                res, final(self)@, final(request)@),
    {
        match self.find_crlf() {
            None => Ok(false),
            Some(pos) => {
                let len = self.buffer.len();
                assert(pos + 2 <= len);
                let line = slice_of(self.buffer.as_slice(), 0, pos);
                let parts = split_words(line.as_slice());
                if parts.len() != 3 {
                    return Err(ParseError::MalformedRequestLine);
                }
                let ghost w = words(line@);
                request.method = to_upper(parts[0].as_slice());
                request.uri = parts[1].clone();
                request.version = parts[2].clone();
                self.consume(pos + 2);
                self.state = ParserState::Headers;
                assert(request@ == (RequestView { method: upper(w[0]), uri: w[1], version: w[2], ..old(request)@ }));
                Ok(true)
            },
        }
    }

    /// Takes one header line, or the blank line that ends the headers.
    fn parse_headers(&mut self, request: &mut HttpRequest) -> (res: Result<bool, ParseError>)
        requires
            old(self)@.state == ParserState::Headers,
        ensures
            step_done(
                header_step(old(self)@, old(request)@),
                old(self)@,
                old(request)@,
                res, final(self)@, final(request)@),
    {
        match self.find_crlf() {
            None => Ok(false),
            Some(pos) => {
                let len = self.buffer.len();
                assert(pos + 2 <= len);
                if pos == 0 {
                    self.consume(2);
                    self.end_headers(request);
                    return Ok(true);
                }
                let line = slice_of(self.buffer.as_slice(), 0, pos);
                match find_byte(line.as_slice(), 58) {
                    Some(c) => {
                        let name = trim_bytes(slice_of(line.as_slice(), 0, c).as_slice());
                        let key = to_lower(name.as_slice());
                        let value = trim_bytes(slice_of(line.as_slice(), c + 1, pos).as_slice());
                        request.headers.insert(key, value);
                    },
                    None => {
                        return Err(ParseError::MalformedHeader);
                    },
                }
                self.consume(pos + 2);
                Ok(true)
            },
        }
    }

    /// Decides the body mode once the headers are complete.
    fn end_headers(&mut self, request: &mut HttpRequest)
        ensures
            end_of_headers(old(self)@, old(request)@) == Step::Next(final(self)@, final(request)@),
    {
        proof {
            reveal_strlit("content-length");
            reveal_strlit("transfer-encoding");
            reveal_strlit("chunked");
        }
        self.headers_complete = true;
        let cl_name = lit("content-length");
        match request.headers.get(cl_name.as_slice()) {
            Some(cl) => {
                self.content_length = parse_radix(cl.as_slice(), 10);
            },
            None => {},
        }
        let te_name = lit("transfer-encoding");
        match request.headers.get(te_name.as_slice()) {
            Some(te) => {
                let low = to_lower(te.as_slice());
                let chunked = lit("chunked");
                if contains_seq(low.as_slice(), chunked.as_slice()) {
                    self.is_chunked = true;
                }
            },
            None => {},
        }
        if self.content_length.is_some() || self.is_chunked {
            self.state = ParserState::Body;
        } else {
            self.state = ParserState::Done;
            request.complete = true;
        }
    }

    fn parse_body(&mut self, request: &mut HttpRequest) -> (res: Result<bool, ParseError>)
        requires
            old(self)@.state == ParserState::Body,
            !old(self)@.is_chunked,
        ensures
            step_done(
                body_step(old(self)@, old(request)@),
                old(self)@,
                old(request)@,
                res, final(self)@, final(request)@),
    {
        match self.content_length {
            Some(n) => {
                if self.buffer.len() >= n {
                    let part = slice_of(self.buffer.as_slice(), 0, n);
                    append_bytes(&mut request.body, part.as_slice());
                    self.consume(n);
                    self.state = ParserState::Done;
                    request.complete = true;
                    return Ok(true);
                }
                Ok(false)
            },
            None => Ok(false),
        }
    }

    fn parse_chunked_body(&mut self, request: &mut HttpRequest) -> (res: Result<bool, ParseError>)
        requires
            old(self)@.state == ParserState::Body,
            old(self)@.is_chunked,
        ensures
            step_done(
                chunk_step(old(self)@, old(request)@),
                old(self)@,
                old(request)@,
                res, final(self)@, final(request)@),
    {
        match self.chunk_state {
            ChunkState::Size => {
                match self.find_crlf() {
                    None => Ok(false),
                    Some(pos) => {
                        let len = self.buffer.len();
                        assert(pos + 2 <= len);
                        let line = slice_of(self.buffer.as_slice(), 0, pos);
                        let token = match find_byte(line.as_slice(), 59) {
                            Some(s) => trim_bytes(slice_of(line.as_slice(), 0, s).as_slice()),
                            None => trim_bytes(line.as_slice()),
                        };
                        assert(token@ == chunk_size_token(line@));
                        match parse_radix(token.as_slice(), 16) {
                            None => Err(ParseError::MalformedChunkSize),
                            Some(n) => {
                                self.chunk_size = n;
                                self.consume(pos + 2);
                                if n == 0 {
                                    self.state = ParserState::Done;
                                    request.complete = true;
                                } else {
                                    self.chunk_state = ChunkState::Data;
                                }
                                Ok(true)
                            },
                        }
                    },
                }
            },
            ChunkState::Data => {
                let n = self.chunk_size;
                if self.buffer.len() >= n {
                    let part = slice_of(self.buffer.as_slice(), 0, n);
                    append_bytes(&mut request.body, part.as_slice());
                    self.consume(n);
                    self.chunk_state = ChunkState::TrailingCRLF;
                    Ok(true)
                } else {
                    Ok(false)
                }
            },
            ChunkState::TrailingCRLF => {
                if self.buffer.len() >= 2 {
                    self.consume(2);
                    self.chunk_state = ChunkState::Size;
                    Ok(true)
                } else {
                    Ok(false)
                }
            },
        }
    }

    pub fn is_complete(&self) -> (r: bool)
        ensures
            r == (self@.state == ParserState::Done),
    {
        self.state == ParserState::Done
    }
}


/// Bytes taken by a UTF-8 character that starts with `b`.
pub open spec fn char_len(b: u8) -> int {
    if b < 0x80 {
        1
    } else if b < 0xe0 {
        2
    } else if b < 0xf0 {
        3
    } else {
        4
    }
}

/// Bytes spanned by the first `n` characters of `s` (fewer at its end).
pub open spec fn take_chars(s: Seq<u8>, n: nat) -> int
    decreases n,
{
    if n == 0 || s.len() == 0 {
        0
    } else {
        let l = if char_len(s[0]) <= s.len() {
            char_len(s[0])
        } else {
            s.len() as int
        };
        l + take_chars(s.subrange(l, s.len() as int), (n - 1) as nat)
    }
}

/// The UTF-8 encoding of the character whose code point is `b`.
pub open spec fn latin1(b: u8) -> Seq<u8> {
    if b < 0x80 {
        seq![b]
    } else {
        seq![(0xc0 + b / 64) as u8, (0x80 + b % 64) as u8]
    }
}

/// Percent-decoding of form text: `%` and the next two characters give the
/// character of that hexadecimal code (nothing when they are not hex), and
/// `+` gives a space.
pub open spec fn url_decode(s: Seq<u8>) -> Seq<u8>
    decreases s.len(),
{
    if s.len() == 0 {
        Seq::empty()
    } else if s[0] == 37 {
        let t = s.drop_first();
        let k = take_chars(t, 2);
        if 0 <= k <= t.len() {
            let rest = t.subrange(k, t.len() as int);
            match parse_unsigned(t.subrange(0, k), 16) {
                Some(v) => if v <= 255 {
                    latin1(v as u8) + url_decode(rest)
                } else {
                    url_decode(rest)
                },
                None => url_decode(rest),
            }
        } else {
            Seq::empty()
        }
    } else if s[0] == 43 {
        seq![32u8] + url_decode(s.drop_first())
    } else {
        seq![s[0]] + url_decode(s.drop_first())
    }
}

proof fn lemma_take_chars(s: Seq<u8>, n: nat)
    ensures
        0 <= take_chars(s, n) <= s.len(),
    decreases n,
{
    if n > 0 && s.len() > 0 {
        let l = if char_len(s[0]) <= s.len() {
            char_len(s[0])
        } else {
            s.len() as int
        };
        lemma_take_chars(s.subrange(l, s.len() as int), (n - 1) as nat);
    }
}

/// Length in bytes of the character at `s[i..]`, capped at the end of `s`.
fn char_span(s: &[u8], i: usize) -> (r: usize)
    requires
        i < s@.len(),
    ensures
        r as int == if char_len(s@[i as int]) <= s@.len() - i {
            char_len(s@[i as int])
        } else {
            s@.len() - i
        },
{
    let b = s[i];
    let l: usize = if b < 0x80 {
        1
    } else if b < 0xe0 {
        2
    } else if b < 0xf0 {
        3
    } else {
        4
    };
    let left = s.len() - i;
    if l <= left {
        l
    } else {
        left
    }
}

/// Decodes `%XX` escapes and `+` in query-string text.
pub fn urldecode(s: &[u8]) -> (r: Vec<u8>)
    ensures
        r@ == url_decode(s@),
{
    let mut out: Vec<u8> = Vec::new();
    let n = s.len();
    let mut i: usize = 0;
    assert(s@.subrange(0, n as int) =~= s@);
    while i < n
        invariant
            i <= n == s@.len(),
            url_decode(s@) == out@ + url_decode(s@.subrange(i as int, n as int)),
        decreases n - i,
    {
        let ghost cur = s@.subrange(i as int, n as int);
        let ghost before = out@;
        let c = s[i];
        if c == 37 {
            let ghost t = cur.drop_first();
            assert(t =~= s@.subrange(i + 1, n as int));
            let mut j = i + 1;
            if j < n {
                j = j + char_span(s, j);
                if j < n {
                    j = j + char_span(s, j);
                }
            }
            proof {
                lemma_take_chars(t, 2);
                if i + 1 < n {
                    let l1 = if char_len(t[0]) <= t.len() {
                        char_len(t[0])
                    } else {
                        t.len() as int
                    };
                    let t2 = t.subrange(l1, t.len() as int);
                    assert(t2 =~= s@.subrange(i + 1 + l1, n as int));
                    lemma_take_chars(t2, 1);
                    if t2.len() > 0 {
                        let l2 = if char_len(t2[0]) <= t2.len() {
                            char_len(t2[0])
                        } else {
                            t2.len() as int
                        };
                        assert(take_chars(t2.subrange(l2, t2.len() as int), 0) == 0);
                    }
                }
                assert(j - (i + 1) == take_chars(t, 2));
            }
            let hex = slice_of(s, i + 1, j);
            assert(hex@ =~= t.subrange(0, j - (i + 1)));
            assert(s@.subrange(j as int, n as int) =~= t.subrange(j - (i + 1), t.len() as int));
            match parse_radix(hex.as_slice(), 16) {
                Some(v) => {
                    if v <= 255 {
                        let b = v as u8;
                        if b < 0x80 {
                            out.push(b);
                        } else {
                            out.push(0xc0 + b / 64);
                            out.push(0x80 + b % 64);
                        }
                        assert(out@ =~= before + latin1(b));
                    }
                },
                None => {},
            }
            i = j;
        } else {
            if c == 43 {
                out.push(32);
            } else {
                out.push(c);
            }
            assert(cur.drop_first() =~= s@.subrange(i + 1, n as int));
            i = i + 1;
        }
    }
    assert(s@.subrange(n as int, n as int) =~= Seq::<u8>::empty());
    assert(out@ + Seq::<u8>::empty() =~= out@);
    out
}

/// One `name=value` pair of a query added to `h`, both sides decoded; a
/// pair without `=` is ignored.
pub open spec fn add_param(h: FieldsView, pair: Seq<u8>) -> FieldsView {
    match find_first(pair, 61) {
        Some(e) => insert(
            h,
            url_decode(pair.subrange(0, e)),
            url_decode(pair.subrange(e + 1, pair.len() as int)),
        ),
        None => h,
    }
}

/// The `&`-separated pairs of `s` added to `h` in order.
pub open spec fn add_params(h: FieldsView, s: Seq<u8>) -> FieldsView
    decreases s.len(),
{
    match find_first(s, 38) {
        Some(i) => if 0 <= i < s.len() {
            add_params(add_param(h, s.subrange(0, i)), s.subrange(i + 1, s.len() as int))
        } else {
            h
        },
        None => add_param(h, s),
    }
}

/// The parameters of a request target's query string.
pub open spec fn query_params(uri: Seq<u8>) -> FieldsView {
    match find_first(uri, 63) {
        Some(q) => add_params(Seq::empty(), uri.subrange(q + 1, uri.len() as int)),
        None => Seq::empty(),
    }
}

fn add_param_pair(h: &mut FieldMap, pair: &[u8])
    ensures
        final(h)@ == add_param(old(h)@, pair@),
{
    match find_byte(pair, 61) {
        Some(e) => {
            let n = pair.len();
            let k = urldecode(slice_of(pair, 0, e).as_slice());
            let v = urldecode(slice_of(pair, e + 1, n).as_slice());
            h.insert(k, v);
        },
        None => {},
    }
}

/// The decoded `name=value` parameters after the first `?` of a request
/// target; the last value of a repeated name wins.
pub fn parse_query_string(uri: &[u8]) -> (r: FieldMap)
    ensures
        r@ == query_params(uri@),
{
    let mut h = FieldMap::new();
    let q = match find_byte(uri, 63) {
        Some(q) => q,
        None => {
            return h;
        },
    };
    let len = uri.len();
    let s = slice_of(uri, q + 1, len);
    let n = s.len();
    let mut i: usize = 0;
    assert(s@.subrange(0, n as int) =~= s@);
    while i < n
        invariant
            i <= n == s@.len(),
            add_params(Seq::empty(), s@) == add_params(h@, s@.subrange(i as int, n as int)),
        decreases n - i,
    {
        let rest = slice_of(s.as_slice(), i, n);
        match find_byte(rest.as_slice(), 38) {
            Some(k) => {
                let pair = slice_of(rest.as_slice(), 0, k);
                assert(add_params(h@, rest@) == add_params(
                    add_param(h@, pair@),
                    rest@.subrange(k + 1, rest@.len() as int),
                ));
                add_param_pair(&mut h, pair.as_slice());
                assert(rest@.subrange(k + 1, rest@.len() as int) =~= s@.subrange(
                    i + k + 1,
                    n as int,
                ));
                i = i + k + 1;
            },
            None => {
                add_param_pair(&mut h, rest.as_slice());
                proof {
                    crate::bytes::lemma_find_first(Seq::<u8>::empty(), 38);
                    crate::bytes::lemma_find_first(Seq::<u8>::empty(), 61);
                }
                assert(s@.subrange(n as int, n as int) =~= Seq::<u8>::empty());
                i = n;
            },
        }
    }
    proof {
        crate::bytes::lemma_find_first(Seq::<u8>::empty(), 38);
        crate::bytes::lemma_find_first(Seq::<u8>::empty(), 61);
        assert(s@.subrange(n as int, n as int) =~= Seq::<u8>::empty());
    }
    h
}

} // verus!
