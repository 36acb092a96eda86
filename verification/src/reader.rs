//! Splitting the head of a bag file into its version line and the fields
//! that follow it.
//!
//! A bag starts with a version line that ends in a line feed; after it come
//! records whose header fields have the form `name=value`. The functions
//! here work on bytes already in memory and find where each piece ends.

use vstd::prelude::*;

verus! {

/// The fixed part of a bag header.
#[derive(Debug, Clone, Copy, PartialEq, Eq, Structural)]
pub struct Header {
    pub index_pos: u64,
    pub chunk_count: u32,
    pub connection_count: u32,
}

/// A length-prefixed block of bytes.
#[derive(Debug, Clone)]
pub struct Record {
    pub length: u32,
    pub data: Vec<u8>,
}

/// The number of pieces that follow the version line.
pub const HEADER_FIELDS: usize = 10;

/// Where the piece that starts at `from` ends (exclusive): just behind the
/// first `delim` at or after `from`, or at the end of `s` if there is none.
pub open spec fn piece_end(s: Seq<u8>, from: int, delim: u8) -> int
    decreases s.len() - from,
{
    if from < 0 || from >= s.len() {
        s.len() as int
    } else if s[from] == delim {
        from + 1
    } else {
        piece_end(s, from + 1, delim)
    }
}

/// Where piece number `k` ends: piece 0 is the version line, which ends
/// with a line feed; each later piece ends with `=`.
pub open spec fn header_piece_end(s: Seq<u8>, k: nat) -> int
    decreases k,
{
    if k == 0 {
        piece_end(s, 0, 10u8)
    } else {
        piece_end(s, header_piece_end(s, (k - 1) as nat), 61u8)
    }
}

/// What `piece_end` finds: the piece holds no delimiter before its last
/// byte, and it ends with the delimiter unless the input ran out.
pub proof fn lemma_piece_end(s: Seq<u8>, from: int, delim: u8)
    requires
        0 <= from <= s.len(),
    ensures
        from <= piece_end(s, from, delim) <= s.len(),
        forall|i: int| from <= i < piece_end(s, from, delim) - 1 ==> s[i] != delim,
        piece_end(s, from, delim) < s.len() ==> piece_end(s, from, delim) > from && s[piece_end(
            s,
            from,
            delim,
        ) - 1] == delim,
        piece_end(s, from, delim) == s.len() && from < s.len() && s[s.len() - 1] != delim
            ==> forall|i: int| from <= i < s.len() ==> s[i] != delim,
    decreases s.len() - from,
{
    if from < s.len() && s[from] != delim {
        lemma_piece_end(s, from + 1, delim);
    }
}

/// The head of a bag, cut into its pieces.
#[derive(Debug, Clone)]
pub struct HeaderText {
    /// The version line, with its line feed if the input has one.
    pub version: Vec<u8>,
    /// The pieces behind the version line, each through its `=`.
    pub fields: Vec<Vec<u8>>,
    /// How many bytes of the input the pieces take up together.
    pub consumed: usize,
}

/// Reads on from `from` through the next `delim`, or to the end of `data`;
/// returns the position behind what was read.
pub fn read_until(data: &[u8], from: usize, delim: u8) -> (end: usize)
    requires
        from <= data@.len(),
    ensures
        end == piece_end(data@, from as int, delim),
        from <= end <= data@.len(),
{
    let mut i: usize = from;
    proof {
        lemma_piece_end(data@, from as int, delim);
    }
    while i < data.len()
        invariant
            from <= i <= data@.len(),
            piece_end(data@, i as int, delim) == piece_end(data@, from as int, delim),
            from <= piece_end(data@, from as int, delim) <= data@.len(),
        decreases data@.len() - i,
    {
        if data[i] == delim {
            return i + 1;
        }
        i += 1;
    }
    i
}

/// The bytes of `data` from `from` up to `to`, copied.
fn copy_range(data: &[u8], from: usize, to: usize) -> (out: Vec<u8>)
    requires
        from <= to <= data@.len(),
    ensures
        out@ == data@.subrange(from as int, to as int),
{
    let mut out: Vec<u8> = Vec::new();
    let mut i: usize = from;
    while i < to
        invariant
            from <= i <= to <= data@.len(),
            out@ == data@.subrange(from as int, i as int),
        decreases to - i,
    {
        out.push(data[i]);
        proof {
            assert(data@.subrange(from as int, i as int).push(data@[i as int])
                =~= data@.subrange(from as int, i + 1));
        }
        i += 1;
    }
    out
}

/// Cuts the head of a bag into the version line, which runs through the
/// first line feed, and the ten pieces behind it, each of which runs
/// through the next `=`. Where the input ends early, the piece that was
/// being read ends there and the remaining pieces are empty.
pub fn read_header(data: &[u8]) -> (head: HeaderText)
    ensures
        head.version@ == data@.subrange(0, header_piece_end(data@, 0)),
        head.fields@.len() == HEADER_FIELDS,
        forall|k: int|
            0 <= k < HEADER_FIELDS ==> (#[trigger] head.fields@[k])@ == data@.subrange(
                header_piece_end(data@, k as nat),
                header_piece_end(data@, (k + 1) as nat),
            ),
        head.consumed == header_piece_end(data@, HEADER_FIELDS as nat),
{
    let line_end = read_until(data, 0, 10u8);
    let version = copy_range(data, 0, line_end);
    let mut fields: Vec<Vec<u8>> = Vec::new();
    let mut pos: usize = line_end;
    let mut n: usize = 0;
    while n < HEADER_FIELDS
        invariant
            0 <= n <= HEADER_FIELDS,
            pos <= data@.len(),
            pos == header_piece_end(data@, n as nat),
            fields@.len() == n,
            forall|k: int|
                0 <= k < n ==> (#[trigger] fields@[k])@ == data@.subrange(
                    header_piece_end(data@, k as nat),
                    header_piece_end(data@, (k + 1) as nat),
                ),
        decreases HEADER_FIELDS - n,
    {
        let end = read_until(data, pos, 61u8);
        let piece = copy_range(data, pos, end);
        fields.push(piece);
        pos = end;
        n += 1;
    }
    HeaderText { version, fields, consumed: pos }
}

} // verus!
