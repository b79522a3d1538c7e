//! The request parser: from the lines of a request head to a structured
//! request, or to the reason the head is malformed.

use crate::framing::MAX_HEAD_LINES;
use crate::text::{
    after_separator, decode_lossy, decode_strict, first_occurrence, lemma_first_occurrence,
    lemma_first_occurrence_after_prefix, lemma_split_pieces_len, occurs_at, split_pieces,
    split_str, splitn_pieces, splitn_str, token_text, trim_start, trimmed_start,
};
use vstd::hash_map::StringHashMap;
use vstd::prelude::*;
use vstd::utf8::*;

verus! {

/// Why a request head was rejected.
#[derive(Clone, Copy, Debug, PartialEq, Eq, Structural)]
pub enum ParseError {
    /// The first line is not three tokens, none of them empty, separated by
    /// single spaces.
    MalformedRequestLine,
    /// A header line has no `": "` between name and value.
    MalformedHeader,
    /// A header name or value is not well-formed UTF-8.
    NotText,
    /// The head holds more lines than `MAX_HEAD_LINES`.
    TooManyLines,
    /// The stream ended before the empty line that closes the head, and no
    /// line read until then is at fault.
    Incomplete,
}

/// The mathematical content of a parsed request.
pub struct RequestModel {
    pub method: Seq<char>,
    pub path: Seq<char>,
    pub protocol: Seq<char>,
    pub headers: Map<Seq<char>, Seq<char>>,
}

/// A request head, parsed. Header names are case-sensitive; of two headers
/// with one name the later one stays.
pub struct ParsedRequest {
    method: String,
    path: String,
    protocol: String,
    headers: StringHashMap<String>,
}

/// The separator between the tokens of a request line: one ASCII space.
pub open spec fn token_separator() -> Seq<u8> {
    seq![32u8]
}

/// The separator between a header's name and its value: a colon and a space.
pub open spec fn header_separator() -> Seq<u8> {
    seq![58u8, 32u8]
}

/// The three tokens of a request line, as bytes; `None` unless the line
/// splits at its spaces into exactly three pieces, none of them empty.
pub open spec fn request_line_tokens(line: Seq<u8>) -> Option<(Seq<u8>, Seq<u8>, Seq<u8>)> {
    let tokens = split_pieces(line, token_separator());
    if tokens.len() == 3 && tokens[0].len() > 0 && tokens[1].len() > 0 && tokens[2].len() > 0 {
        Some((tokens[0], tokens[1], tokens[2]))
    } else {
        None
    }
}

/// A header line cut at its first `": "`: the name, and what follows the
/// separator, not yet trimmed. `None` where the line has no separator.
pub open spec fn header_parts(line: Seq<u8>) -> Option<(Seq<u8>, Seq<u8>)> {
    match first_occurrence(line, header_separator()) {
        Some(at) => Some((line.subrange(0, at), after_separator(line, header_separator(), at))),
        None => None,
    }
}

/// A header from the bytes of its name and of its trimmed value: both must
/// be text.
pub open spec fn header_text(name: Seq<u8>, value: Seq<u8>) -> Result<
    (Seq<char>, Seq<char>),
    ParseError,
> {
    if valid_utf8(name) && valid_utf8(value) {
        Ok((decode_utf8(name), decode_utf8(value)))
    } else {
        Err(ParseError::NotText)
    }
}

/// The header that a line stands for.
pub open spec fn header_of(line: Seq<u8>) -> Result<(Seq<char>, Seq<char>), ParseError> {
    match header_parts(line) {
        Some((name, rest)) => header_text(name, trimmed_start(rest)),
        None => Err(ParseError::MalformedHeader),
    }
}

/// The headers that `lines` stand for, taken in order, or the error of the
/// first line that is no header.
pub open spec fn headers_of(lines: Seq<Seq<u8>>) -> Result<Map<Seq<char>, Seq<char>>, ParseError>
    decreases lines.len(),
{
    if lines.len() == 0 {
        Ok(Map::empty())
    } else {
        match headers_of(lines.drop_last()) {
            Err(e) => Err(e),
            Ok(headers) => match header_of(lines.last()) {
                Err(e) => Err(e),
                Ok((name, value)) => Ok(headers.insert(name, value)),
            },
        }
    }
}

/// The request that the lines of a head stand for. The first line is the
/// request line, every other one a header.
pub open spec fn request_of(lines: Seq<Seq<u8>>) -> Result<RequestModel, ParseError> {
    if lines.len() > MAX_HEAD_LINES {
        Err(ParseError::TooManyLines)
    } else if lines.len() == 0 {
        Err(ParseError::MalformedRequestLine)
    } else {
        match request_line_tokens(lines[0]) {
            None => Err(ParseError::MalformedRequestLine),
            Some((method, path, protocol)) => match headers_of(lines.subrange(1, lines.len() as int)) {
                Err(e) => Err(e),
                Ok(headers) => Ok(
                    RequestModel {
                        method: token_text(method),
                        path: token_text(path),
                        protocol: token_text(protocol),
                        headers,
                    },
                ),
            },
        }
    }
}

impl View for ParsedRequest {
    type V = RequestModel;

    closed spec fn view(&self) -> RequestModel {
        RequestModel {
            method: self.method@,
            path: self.path@,
            protocol: self.protocol@,
            headers: self.headers@.map_values(|v: String| v@),
        }
    }
}

impl ParsedRequest {
    /// The request method, the first token of the request line.
    pub fn method(&self) -> (text: &str)
        ensures
            text@ == self@.method,
    {
        self.method.as_str()
    }

    /// The request target, the second token of the request line.
    pub fn path(&self) -> (text: &str)
        ensures
            text@ == self@.path,
    {
        self.path.as_str()
    }

    /// The protocol version, the third token of the request line.
    pub fn protocol(&self) -> (text: &str)
        ensures
            text@ == self@.protocol,
    {
        self.protocol.as_str()
    }

    /// The value of the header called `name`, if the request has one.
    pub fn header(&self, name: &str) -> (value: Option<&String>)
        ensures
            match value {
                Some(v) => self@.headers.contains_key(name@) && v@ == self@.headers[name@],
                None => !self@.headers.contains_key(name@),
            },
    {
        self.headers.get(name)
    }

    /// The number of distinct header names.
    pub fn header_count(&self) -> (count: usize)
        ensures
            count == self@.headers.len(),
    {
        broadcast use vstd::hash_map::group_hash_map_axioms;

        proof {
            lemma_map_values_len(self.headers@);
        }
        self.headers.len()
    }
}

/// Splits a request line on single spaces into method, path and protocol,
/// and decodes each. A line with fewer or more than three tokens is
/// malformed, and so is one with an empty token: a space at either end, or
/// two spaces in a row.
pub fn parse_request_line(line: &[u8]) -> (parsed: Result<(String, String, String), ParseError>)
    ensures
        match request_line_tokens(line@) {
            Some((m, p, v)) => {
                &&& parsed matches Ok((method, path, protocol))
                &&& method@ == token_text(m)
                &&& path@ == token_text(p)
                &&& protocol@ == token_text(v)
            },
            None => parsed == Err::<(String, String, String), ParseError>(
                ParseError::MalformedRequestLine,
            ),
        },
{
    let sep: Vec<u8> = vec![32u8];
    assert(sep@ =~= token_separator());
    let tokens = split_str(line, sep.as_slice());
    if tokens.len() != 3 {
        return Err(ParseError::MalformedRequestLine);
    }
    if tokens[0].len() == 0 || tokens[1].len() == 0 || tokens[2].len() == 0 {
        return Err(ParseError::MalformedRequestLine);
    }
    let method = decode_lossy(tokens[0].as_slice());
    let path = decode_lossy(tokens[1].as_slice());
    let protocol = decode_lossy(tokens[2].as_slice());
    Ok((method, path, protocol))
}

/// Builds a header from the bytes of its name and of its value, already
/// trimmed: both must be well-formed UTF-8.
pub fn header_from_parts(name: Vec<u8>, value: Vec<u8>) -> (parsed: Result<
    (String, String),
    ParseError,
>)
    ensures
        match header_text(name@, value@) {
            Ok((n, v)) => parsed matches Ok((name_text, value_text)) && name_text@ == n
                && value_text@ == v,
            Err(e) => parsed == Err::<(String, String), ParseError>(e),
        },
{
    match decode_strict(name) {
        None => Err(ParseError::NotText),
        Some(name_text) => match decode_strict(value) {
            None => Err(ParseError::NotText),
            Some(value_text) => Ok((name_text, value_text)),
        },
    }
}

/// Splits a header line at its first `": "` into name and value, trims
/// leading whitespace off the value, and decodes both.
pub fn parse_header_line(line: &[u8]) -> (parsed: Result<(String, String), ParseError>)
    ensures
        match header_of(line@) {
            Ok((n, v)) => parsed matches Ok((name, value)) && name@ == n && value@ == v,
            Err(e) => parsed == Err::<(String, String), ParseError>(e),
        },
{
    let sep: Vec<u8> = vec![58u8, 32u8];
    assert(sep@ =~= header_separator());
    let mut pieces = splitn_str(line, 2, sep.as_slice());
    proof {
        reveal_with_fuel(splitn_pieces, 3);
    }
    if pieces.len() != 2 {
        return Err(ParseError::MalformedHeader);
    }
    let rest = pieces.pop().unwrap();
    let name = pieces.pop().unwrap();
    let value = trim_start(rest.as_slice());
    header_from_parts(name, value)
}

/// A space occurs at `at` in `hay` exactly when the byte there is a space.
proof fn lemma_space_occurs(hay: Seq<u8>, at: int)
    ensures
        occurs_at(hay, token_separator(), at) <==> 0 <= at < hay.len() && hay[at] == 32u8,
{
    if 0 <= at < hay.len() {
        assert(hay.subrange(at, at + 1)[0] == hay[at]);
        if hay[at] == 32u8 {
            assert(hay.subrange(at, at + 1) =~= token_separator());
        }
    }
}

/// A byte string without a space is one piece.
proof fn lemma_token_is_one_piece(token: Seq<u8>)
    requires
        !token.contains(32u8),
    ensures
        split_pieces(token, token_separator()) == seq![token],
{
    lemma_first_occurrence(token, token_separator());
    if first_occurrence(token, token_separator()) is Some {
        lemma_space_occurs(token, first_occurrence(token, token_separator())->0);
    }
}

/// A token without a space, a space, and more: the first piece is the
/// token, the other pieces are those of what follows the space.
proof fn lemma_token_then_more(token: Seq<u8>, more: Seq<u8>)
    requires
        !token.contains(32u8),
    ensures
        split_pieces(token + token_separator() + more, token_separator()) == seq![token]
            + split_pieces(more, token_separator()),
{
    let sep = token_separator();
    assert forall|j: int| 0 <= j < token.len() implies !occurs_at(token + sep, sep, j) by {
        lemma_space_occurs(token + sep, j);
    }
    lemma_first_occurrence_after_prefix(token, sep, more);
}

/// Three tokens, not empty and without spaces, joined by single spaces, are
/// a request line with just these tokens.
pub proof fn lemma_request_line_round_trip(method: Seq<u8>, path: Seq<u8>, protocol: Seq<u8>)
    requires
        method.len() > 0 && !method.contains(32u8),
        path.len() > 0 && !path.contains(32u8),
        protocol.len() > 0 && !protocol.contains(32u8),
    ensures
        request_line_tokens(
            method + token_separator() + path + token_separator() + protocol,
        ) == Some((method, path, protocol)),
{
    let sep = token_separator();
    let line = method + sep + path + sep + protocol;
    assert(line =~= method + sep + (path + sep + protocol));
    lemma_token_then_more(method, path + sep + protocol);
    lemma_token_then_more(path, protocol);
    lemma_token_is_one_piece(protocol);
}

/// Only such lines are request lines: the tokens of a request line are not
/// empty, hold no space, and joined by single spaces give back the line.
pub proof fn lemma_request_line_tokens(line: Seq<u8>)
    requires
        request_line_tokens(line) is Some,
    ensures
        ({
            let (method, path, protocol) = request_line_tokens(line)->0;
            &&& line == method + token_separator() + path + token_separator() + protocol
            &&& method.len() > 0 && !method.contains(32u8)
            &&& path.len() > 0 && !path.contains(32u8)
            &&& protocol.len() > 0 && !protocol.contains(32u8)
        }),
{
    let sep = token_separator();
    lemma_first_occurrence(line, sep);
    let a = first_occurrence(line, sep)->0;
    let method = line.subrange(0, a);
    let after_method = after_separator(line, sep, a);
    assert(split_pieces(line, sep) == seq![method] + split_pieces(after_method, sep));
    assert(split_pieces(after_method, sep).len() == 2);
    lemma_first_occurrence(after_method, sep);
    let b = first_occurrence(after_method, sep)->0;
    let path = after_method.subrange(0, b);
    let protocol = after_separator(after_method, sep, b);
    assert(split_pieces(after_method, sep) == seq![path] + split_pieces(protocol, sep));
    assert(split_pieces(protocol, sep).len() == 1);
    lemma_first_occurrence(protocol, sep);
    if first_occurrence(protocol, sep) is Some {
        let c = first_occurrence(protocol, sep)->0;
        lemma_split_pieces_len(after_separator(protocol, sep, c), sep);
    }
    assert(first_occurrence(protocol, sep) is None);
    assert(split_pieces(line, sep)[0] == method);
    assert(split_pieces(line, sep)[1] == path);
    assert(split_pieces(line, sep)[2] == protocol);
    assert(line.subrange(a, a + 1) == sep);
    assert(after_method.subrange(b, b + 1) == sep);
    assert(after_method =~= path + sep + protocol);
    assert(line =~= method + sep + after_method);
    assert(line =~= method + sep + path + sep + protocol);
    assert forall|j: int| 0 <= j < method.len() implies method[j] != 32u8 by {
        lemma_space_occurs(line, j);
    }
    assert forall|j: int| 0 <= j < path.len() implies path[j] != 32u8 by {
        lemma_space_occurs(after_method, j);
    }
    assert forall|j: int| 0 <= j < protocol.len() implies protocol[j] != 32u8 by {
        lemma_space_occurs(protocol, j);
    }
}

/// A name that holds no `": "`, the separator, and anything after it, are a
/// header line that is cut right behind the name: a separator further on
/// belongs to the value.
pub proof fn lemma_header_parts_round_trip(name: Seq<u8>, rest: Seq<u8>)
    requires
        first_occurrence(name, header_separator()) is None,
    ensures
        header_parts(name + header_separator() + rest) == Some((name, rest)),
{
    let sep = header_separator();
    lemma_first_occurrence(name, sep);
    assert forall|j: int| 0 <= j < name.len() implies !occurs_at(name + sep, sep, j) by {
        if occurs_at(name + sep, sep, j) {
            let found = (name + sep).subrange(j, j + 2);
            assert(found[0] == (name + sep)[j]);
            assert(found[1] == (name + sep)[j + 1]);
            if j + 2 <= name.len() {
                assert(name.subrange(j, j + 2) =~= found);
                assert(occurs_at(name, sep, j));
            }
        }
    }
    lemma_first_occurrence_after_prefix(name, sep, rest);
}

/// The byte strings that a vector of lines holds.
pub open spec fn lines_of(lines: Seq<Vec<u8>>) -> Seq<Seq<u8>> {
    lines.map_values(|line: Vec<u8>| line@)
}

/// An error among the first `k` header lines is the error of the whole.
pub proof fn lemma_headers_error_persists(lines: Seq<Seq<u8>>, k: int)
    requires
        0 <= k <= lines.len(),
        headers_of(lines.take(k)) is Err,
    ensures
        headers_of(lines) == headers_of(lines.take(k)),
    decreases lines.len(),
{
    if k < lines.len() {
        assert(lines.drop_last().take(k) =~= lines.take(k));
        lemma_headers_error_persists(lines.drop_last(), k);
    } else {
        assert(lines.take(k) =~= lines);
    }
}

/// Parses the lines of a request head, terminators stripped and the closing
/// empty line left out: the request line first, then one header per line.
/// The error is that of the first line at fault; a head of more than
/// `MAX_HEAD_LINES` lines is rejected before any line is looked at.
pub fn parse_request(lines: &Vec<Vec<u8>>) -> (parsed: Result<ParsedRequest, ParseError>)
    ensures
        match request_of(lines_of(lines@)) {
            Ok(model) => parsed matches Ok(request) && request@ == model,
            Err(e) => parsed matches Err(x) && x == e,
        },
{
    let ghost all = lines_of(lines@);
    if lines.len() > MAX_HEAD_LINES {
        return Err(ParseError::TooManyLines);
    }
    if lines.len() == 0 {
        return Err(ParseError::MalformedRequestLine);
    }
    let (method, path, protocol) = match parse_request_line(lines[0].as_slice()) {
        Ok(tokens) => tokens,
        Err(e) => {
            return Err(e);
        },
    };
    let ghost rest = all.subrange(1, all.len() as int);
    let mut headers: StringHashMap<String> = StringHashMap::new();
    let mut i: usize = 1;
    assert(rest.take(0) =~= Seq::<Seq<u8>>::empty());
    assert(headers@.map_values(|v: String| v@) =~= Map::<Seq<char>, Seq<char>>::empty());
    while i < lines.len()
        invariant
            1 <= i <= lines.len() <= MAX_HEAD_LINES,
            all == lines_of(lines@),
            request_line_tokens(all[0]) is Some,
            rest == all.subrange(1, all.len() as int),
            headers_of(rest.take(i - 1)) == Ok::<Map<Seq<char>, Seq<char>>, ParseError>(
                headers@.map_values(|v: String| v@),
            ),
        decreases lines.len() - i,
    {
        let ghost before = headers@;
        assert(rest.take(i as int).drop_last() =~= rest.take(i - 1));
        assert(rest.take(i as int).last() == lines[i as int]@);
        match parse_header_line(lines[i].as_slice()) {
            Err(e) => {
                proof {
                    lemma_headers_error_persists(rest, i as int);
                }
                return Err(e);
            },
            Ok((name, value)) => {
                headers.insert(name, value);
                assert(headers@.map_values(|v: String| v@) =~= before.map_values(
                    |v: String| v@,
                ).insert(name@, value@));
            },
        }
        i = i + 1;
    }
    assert(rest.take(i - 1) =~= rest);
    Ok(ParsedRequest { method, path, protocol, headers })
}

/// Mapping the values of a finite map keeps its domain, so also its size.
proof fn lemma_map_values_len(m: Map<Seq<char>, String>)
    ensures
        m.map_values(|v: String| v@).dom() == m.dom(),
        m.map_values(|v: String| v@).len() == m.len(),
{
    assert(m.map_values(|v: String| v@).dom() =~= m.dom());
}

} // verus!
