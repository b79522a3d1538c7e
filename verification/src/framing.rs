//! Line framing of a request head: where a line ends in a byte stream, what
//! is left of it once its terminator is stripped, and how many lines a head
//! may hold.

use vstd::prelude::*;

verus! {

/// Line feed, the byte that ends a line.
pub const LF: u8 = 10;

/// Carriage return, which may precede the line feed.
pub const CR: u8 = 13;

/// The most lines a request head may hold, the request line included. The
/// empty line that ends the head is not counted.
pub const MAX_HEAD_LINES: usize = 32;

/// The index of the first `byte` in `bytes` at or after `from`.
pub open spec fn position_from(bytes: Seq<u8>, byte: u8, from: int) -> Option<int>
    decreases bytes.len() - from,
{
    if from < 0 || from >= bytes.len() {
        None
    } else if bytes[from] == byte {
        Some(from)
    } else {
        position_from(bytes, byte, from + 1)
    }
}

/// What `position_from` returns holds `byte`, and nothing between `from` and
/// it does.
pub proof fn lemma_position_from(bytes: Seq<u8>, byte: u8, from: int)
    requires
        0 <= from,
    ensures
        match position_from(bytes, byte, from) {
            Some(at) => {
                &&& from <= at < bytes.len()
                &&& bytes[at] == byte
                &&& forall|j: int| from <= j < at ==> bytes[j] != byte
            },
            None => forall|j: int| from <= j < bytes.len() ==> bytes[j] != byte,
        },
    decreases bytes.len() - from,
{
    if from < bytes.len() && bytes[from] != byte {
        lemma_position_from(bytes, byte, from + 1);
    }
}

/// The content of a line whose bytes up to, and without, its line feed are
/// `raw`: one carriage return at the end is dropped, so that both CRLF and a
/// bare LF end a line.
pub open spec fn strip_cr(raw: Seq<u8>) -> Seq<u8> {
    if raw.len() > 0 && raw.last() == CR {
        raw.drop_last()
    } else {
        raw
    }
}

/// The first line of `bytes` and the number of bytes it takes up, terminator
/// included; `None` while `bytes` holds no line feed.
pub open spec fn first_line(bytes: Seq<u8>) -> Option<(Seq<u8>, int)> {
    match position_from(bytes, LF, 0) {
        Some(at) => Some((strip_cr(bytes.subrange(0, at)), at + 1)),
        None => None,
    }
}

/// Searching from `from` finds what searching the bytes after `from` finds.
pub proof fn lemma_position_skip(bytes: Seq<u8>, byte: u8, from: int, k: int)
    requires
        0 <= from <= bytes.len(),
        0 <= k,
    ensures
        position_from(bytes.skip(from), byte, k) == match position_from(bytes, byte, from + k) {
            Some(at) => Some(at - from),
            None => None,
        },
    decreases bytes.len() - from - k,
{
    if from + k < bytes.len() && bytes[from + k] != byte {
        lemma_position_skip(bytes, byte, from, k + 1);
    }
}

/// How far the lines of a request head have been read.
pub enum Scan {
    /// The head is not complete: `lines` are read, `pending` is the start of
    /// a line whose end has not arrived.
    Partial { lines: Seq<Seq<u8>>, pending: Seq<u8> },
    /// An empty line ended the head after `lines`; `rest` follows it.
    Complete { lines: Seq<Seq<u8>>, rest: Seq<u8> },
    /// One more line than a head may hold begins at `rest`, after `lines`.
    Overflow { lines: Seq<Seq<u8>>, rest: Seq<u8> },
}

/// Reads lines off `bytes`, after the `lines` already read, until the empty
/// line that ends the head, the line that exceeds `MAX_HEAD_LINES`, or the
/// end of what has arrived. Nothing is read past the empty line.
pub open spec fn scan(lines: Seq<Seq<u8>>, bytes: Seq<u8>) -> Scan
    decreases bytes.len(),
    via scan_decreases
{
    match first_line(bytes) {
        None => Scan::Partial { lines, pending: bytes },
        Some((line, used)) => if line.len() == 0 {
            Scan::Complete { lines, rest: bytes.skip(used) }
        } else if lines.len() >= MAX_HEAD_LINES {
            Scan::Overflow { lines, rest: bytes }
        } else {
            scan(lines.push(line), bytes.skip(used))
        },
    }
}

#[via_fn]
proof fn scan_decreases(lines: Seq<Seq<u8>>, bytes: Seq<u8>) {
    lemma_position_from(bytes, LF, 0);
}

/// What is found in `bytes` is found at the same place when more follows.
pub proof fn lemma_position_append(bytes: Seq<u8>, more: Seq<u8>, byte: u8, from: int)
    requires
        0 <= from,
        position_from(bytes, byte, from) is Some,
    ensures
        position_from(bytes + more, byte, from) == position_from(bytes, byte, from),
    decreases bytes.len() - from,
{
    if from < bytes.len() && bytes[from] != byte {
        lemma_position_append(bytes, more, byte, from + 1);
    }
}

/// A line that has arrived whole is not changed by what arrives after it.
pub proof fn lemma_first_line_append(bytes: Seq<u8>, more: Seq<u8>)
    requires
        first_line(bytes) is Some,
    ensures
        first_line(bytes + more) == first_line(bytes),
        first_line(bytes) matches Some((_, used)) && (bytes + more).skip(used) == bytes.skip(used)
            + more,
{
    lemma_position_append(bytes, more, LF, 0);
    lemma_position_from(bytes, LF, 0);
    let at = position_from(bytes, LF, 0)->0;
    assert((bytes + more).subrange(0, at) =~= bytes.subrange(0, at));
    assert((bytes + more).skip(at + 1) =~= bytes.skip(at + 1) + more);
}

/// Reading is incremental: to read `bytes` and then, from where that left
/// off, `more`, is to read both at once. A head that `bytes` completes or
/// overflows stays as it is, and `more` is left unread behind it.
pub proof fn lemma_scan_append(lines: Seq<Seq<u8>>, bytes: Seq<u8>, more: Seq<u8>)
    ensures
        scan(lines, bytes + more) == match scan(lines, bytes) {
            Scan::Partial { lines: read, pending } => scan(read, pending + more),
            Scan::Complete { lines: read, rest } => Scan::Complete {
                lines: read,
                rest: rest + more,
            },
            Scan::Overflow { lines: read, rest } => Scan::Overflow {
                lines: read,
                rest: rest + more,
            },
        },
    decreases bytes.len(),
{
    match first_line(bytes) {
        None => {},
        Some((line, used)) => {
            lemma_first_line_append(bytes, more);
            lemma_position_from(bytes, LF, 0);
            if line.len() != 0 && lines.len() < MAX_HEAD_LINES {
                lemma_scan_append(lines.push(line), bytes.skip(used), more);
            }
        },
    }
}

/// An empty line ends the head for good: whatever follows it on the wire is
/// not read, neither as a header nor otherwise, and comes back as the rest.
pub proof fn lemma_scan_stops_at_empty_line(
    lines: Seq<Seq<u8>>,
    head: Seq<u8>,
    trailing: Seq<u8>,
)
    requires
        scan(lines, head) is Complete,
    ensures
        scan(lines, head + trailing) == (Scan::Complete {
            lines: scan(lines, head)->Complete_lines,
            rest: scan(lines, head)->Complete_rest + trailing,
        }),
{
    lemma_scan_append(lines, head, trailing);
}

impl Scan {
    /// The lines read.
    pub open spec fn lines(self) -> Seq<Seq<u8>> {
        match self {
            Scan::Partial { lines, .. } => lines,
            Scan::Complete { lines, .. } => lines,
            Scan::Overflow { lines, .. } => lines,
        }
    }
}

/// The lines that a scan has read are those it started with, followed by
/// lines that are not empty; and a head that is complete holds no more than
/// `MAX_HEAD_LINES` lines if the scan started within that bound, while one
/// that overflows holds at least that many.
pub proof fn lemma_scan_lines(lines: Seq<Seq<u8>>, bytes: Seq<u8>)
    ensures
        lines.len() <= scan(lines, bytes).lines().len(),
        scan(lines, bytes).lines().take(lines.len() as int) == lines,
        forall|i: int|
            lines.len() <= i < scan(lines, bytes).lines().len() ==> (#[trigger] scan(
                lines,
                bytes,
            ).lines()[i]).len() > 0,
        lines.len() <= MAX_HEAD_LINES ==> scan(lines, bytes).lines().len() <= MAX_HEAD_LINES,
        scan(lines, bytes) is Overflow ==> scan(lines, bytes).lines().len() >= MAX_HEAD_LINES,
    decreases bytes.len(),
{
    let read = scan(lines, bytes).lines();
    match first_line(bytes) {
        None => {
            assert(lines.take(lines.len() as int) =~= lines);
        },
        Some((line, used)) => {
            lemma_position_from(bytes, LF, 0);
            if line.len() != 0 && lines.len() < MAX_HEAD_LINES {
                let next = lines.push(line);
                lemma_scan_lines(next, bytes.skip(used));
                assert(scan(lines, bytes) == scan(next, bytes.skip(used)));
                assert(read.take(next.len() as int) == next);
                assert(read.take(lines.len() as int) =~= next.take(lines.len() as int));
                assert(next.take(lines.len() as int) =~= lines);
                assert forall|i: int| lines.len() <= i < read.len() implies (#[trigger] read[i]).len()
                    > 0 by {
                    if i == lines.len() {
                        assert(read.take(next.len() as int)[i] == next[i]);
                    }
                }
            } else {
                assert(lines.take(lines.len() as int) =~= lines);
            }
        },
    }
}

/// A line as it goes over the wire: its content, a carriage return and a
/// line feed.
pub open spec fn wire_line(line: Seq<u8>) -> Seq<u8> {
    line + seq![CR, LF]
}

/// Lines as they go over the wire, one after the other.
pub open spec fn wire_lines(lines: Seq<Seq<u8>>) -> Seq<u8>
    decreases lines.len(),
{
    if lines.len() == 0 {
        Seq::empty()
    } else {
        wire_line(lines.first()) + wire_lines(lines.drop_first())
    }
}

/// What the content of a line can be: any bytes but a line feed, and no
/// carriage return at the end, where it would be taken for the terminator's.
pub open spec fn is_line_content(line: Seq<u8>) -> bool {
    !line.contains(LF) && (line.len() > 0 ==> line.last() != CR)
}

/// Every one of `lines` can be a line of a head: it is line content, and
/// not empty.
pub open spec fn are_head_lines(lines: Seq<Seq<u8>>) -> bool {
    forall|i: int|
        0 <= i < lines.len() ==> is_line_content(#[trigger] lines[i]) && lines[i].len() > 0
}

/// A line put on the wire is the first line read off it.
pub proof fn lemma_first_line_of_wire(line: Seq<u8>, more: Seq<u8>)
    requires
        is_line_content(line),
    ensures
        first_line(wire_line(line) + more) == Some((line, line.len() + 2int)),
        (wire_line(line) + more).skip(line.len() + 2int) == more,
{
    let bytes = wire_line(line) + more;
    lemma_position_from(bytes, LF, 0);
    assert(bytes[line.len() + 1int] == LF);
    assert(bytes[line.len() as int] == CR);
    let at = position_from(bytes, LF, 0)->0;
    if at < line.len() {
        assert(line[at] == LF);
    }
    assert(at == line.len() + 1);
    assert(bytes.subrange(0, at) =~= line.push(CR));
    assert(line.push(CR).drop_last() =~= line);
    assert(bytes.skip(line.len() + 2int) =~= more);
}

/// Reading undoes writing: the lines of a head put on the wire, closed by an
/// empty line, are read back as they were, as long as the head stays within
/// `MAX_HEAD_LINES`; what follows the empty line is left as the rest.
pub proof fn lemma_scan_round_trip(before: Seq<Seq<u8>>, lines: Seq<Seq<u8>>, trailing: Seq<u8>)
    requires
        are_head_lines(lines),
        before.len() + lines.len() <= MAX_HEAD_LINES,
    ensures
        scan(before, wire_lines(lines) + wire_line(Seq::empty()) + trailing) == (Scan::Complete {
            lines: before + lines,
            rest: trailing,
        }),
    decreases lines.len(),
{
    let closing = wire_line(Seq::empty());
    let bytes = wire_lines(lines) + closing + trailing;
    if lines.len() == 0 {
        assert(bytes =~= closing + trailing);
        lemma_first_line_of_wire(Seq::empty(), trailing);
        assert(before + lines =~= before);
    } else {
        let first = lines.first();
        let others = lines.drop_first();
        let more = wire_lines(others) + closing + trailing;
        assert(bytes =~= wire_line(first) + more);
        lemma_first_line_of_wire(first, more);
        assert forall|i: int| 0 <= i < others.len() implies is_line_content(#[trigger] others[i])
            && others[i].len() > 0 by {
            assert(others[i] == lines[i + 1]);
        }
        lemma_scan_round_trip(before.push(first), others, trailing);
        assert(before.push(first) + others =~= before + lines);
    }
}

/// A head of more lines than `MAX_HEAD_LINES` is never read to its end:
/// the scan stops before the first line beyond the ceiling, whatever follows
/// the lines on the wire, an empty line included.
pub proof fn lemma_scan_overflow(before: Seq<Seq<u8>>, lines: Seq<Seq<u8>>, more: Seq<u8>)
    requires
        are_head_lines(lines),
        before.len() <= MAX_HEAD_LINES,
        before.len() + lines.len() > MAX_HEAD_LINES,
    ensures
        scan(before, wire_lines(lines) + more) == (Scan::Overflow {
            lines: before + lines.take(MAX_HEAD_LINES - before.len()),
            rest: wire_lines(lines.skip(MAX_HEAD_LINES - before.len())) + more,
        }),
    decreases lines.len(),
{
    let first = lines.first();
    let others = lines.drop_first();
    let bytes = wire_lines(lines) + more;
    assert(bytes =~= wire_line(first) + (wire_lines(others) + more));
    lemma_first_line_of_wire(first, wire_lines(others) + more);
    if before.len() == MAX_HEAD_LINES {
        assert(lines.skip(0) =~= lines);
        assert(before + lines.take(0) =~= before);
    } else {
        assert forall|i: int| 0 <= i < others.len() implies is_line_content(#[trigger] others[i])
            && others[i].len() > 0 by {
            assert(others[i] == lines[i + 1]);
        }
        lemma_scan_overflow(before.push(first), others, more);
        let room = MAX_HEAD_LINES - before.len();
        assert(before.push(first) + others.take(room - 1) =~= before + lines.take(room));
        assert(others.skip(room - 1) =~= lines.skip(room));
    }
}

/// Finds the first `byte` in `bytes` at or after `from`.
pub fn find_byte(bytes: &Vec<u8>, byte: u8, from: usize) -> (found: Option<usize>)
    ensures
        match position_from(bytes@, byte, from as int) {
            Some(at) => found == Some(at as usize),
            None => found is None,
        },
{
    let mut i: usize = from;
    while i < bytes.len()
        invariant
            from <= i,
            position_from(bytes@, byte, from as int) == position_from(bytes@, byte, i as int),
        decreases bytes.len() - i,
    {
        if bytes[i] == byte {
            return Some(i);
        }
        i = i + 1;
    }
    None
}

/// Copies `bytes[from..to]`, leaving out one trailing carriage return.
pub fn copy_line(bytes: &Vec<u8>, from: usize, to: usize) -> (line: Vec<u8>)
    requires
        from <= to <= bytes.len(),
    ensures
        line@ == strip_cr(bytes@.subrange(from as int, to as int)),
{
    let end: usize = if to > from && bytes[to - 1] == CR {
        to - 1
    } else {
        to
    };
    let mut line: Vec<u8> = Vec::new();
    let mut i: usize = from;
    while i < end
        invariant
            from <= i <= end <= to <= bytes.len(),
            line@ == bytes@.subrange(from as int, i as int),
        decreases end - i,
    {
        line.push(bytes[i]);
        i = i + 1;
    }
    line
}

} // verus!
