//! Mathematical model of the report grammar.
//!
//! `spec_parse_tables` gives the meaning of a parse: scanning the input
//! bytes strictly left to right, it yields either the ordered sequence of
//! key/value tables (maps over decoded character sequences) or the first
//! violation of the grammar.  The executable parser is proved to return
//! exactly this.

use vstd::prelude::*;
use vstd::utf8::{decode_utf8, valid_utf8};

verus! {

/// Carriage return, the first byte of every line terminator.
pub const CR: u8 = 13;

/// Line feed, the second byte of every line terminator.
pub const LF: u8 = 10;

/// The space byte that delimits a key from its value.
pub const SP: u8 = 32;

/// The dash byte that separator lines are made of.
pub const DASH: u8 = 45;

/// What the grammar required at a failure position: one exact byte, or a
/// byte that can begin a key, which is anything but the space delimiter.
#[derive(Debug, Clone, Copy, PartialEq, Eq)]
pub enum Expected {
    Byte(u8),
    KeyByte,
}

/// Why a parse failed, with the byte offset at which it did.
#[derive(Debug, Clone, Copy, PartialEq, Eq)]
pub enum ParseError {
    /// The byte at `offset` (or the end of the input, when `actual` is
    /// `None`) is not what the grammar requires there.
    StructuralMismatch { expected: Expected, actual: Option<u8>, offset: usize },
    /// The byte run that starts at `offset` is not valid UTF-8 text.
    EncodingError { offset: usize },
}

/// What peeking at position `i` yields.
pub open spec fn byte_at(t: Seq<u8>, i: int) -> Option<u8> {
    if 0 <= i < t.len() {
        Some(t[i])
    } else {
        None
    }
}

/// The first position at or after `i` that holds byte `b`, or the end of
/// the input when there is none.
pub open spec fn find_byte(t: Seq<u8>, i: int, b: u8) -> int
    decreases t.len() - i
        when 0 <= i <= t.len()
{
    if i >= t.len() {
        t.len() as int
    } else if t[i] == b {
        i
    } else {
        find_byte(t, i + 1, b)
    }
}

/// The first position at or after `i` that holds a byte other than `b`, or
/// the end of the input when there is none.
pub open spec fn skip_byte_run(t: Seq<u8>, i: int, b: u8) -> int
    decreases t.len() - i
        when 0 <= i <= t.len()
{
    if i >= t.len() {
        t.len() as int
    } else if t[i] != b {
        i
    } else {
        skip_byte_run(t, i + 1, b)
    }
}

/// Consuming one required byte at `i`: the position just past it, or the
/// error naming the byte the grammar wanted, what stood there, and where.
pub open spec fn spec_expect(t: Seq<u8>, i: int, b: u8) -> Result<int, ParseError> {
    if 0 <= i < t.len() && t[i] == b {
        Ok(i + 1)
    } else {
        Err(
            ParseError::StructuralMismatch {
                expected: Expected::Byte(b),
                actual: byte_at(t, i),
                offset: i as usize,
            },
        )
    }
}

/// Meaning of a header block at `i`: the decoded header text together with
/// the position just past the separator line's CR LF.  The header text runs
/// to the first CR; the separator is any run of dashes, empty included.
pub open spec fn spec_header(t: Seq<u8>, i: int) -> Result<(Seq<char>, int), ParseError> {
    let he = find_byte(t, i, CR);
    match spec_expect(t, he, CR) {
        Err(e) => Err(e),
        Ok(p1) => match spec_expect(t, p1, LF) {
            Err(e) => Err(e),
            Ok(p2) => {
                let d = skip_byte_run(t, p2, DASH);
                match spec_expect(t, d, CR) {
                    Err(e) => Err(e),
                    Ok(p3) => match spec_expect(t, p3, LF) {
                        Err(e) => Err(e),
                        Ok(p4) => {
                            let hb = t.subrange(i, he);
                            if valid_utf8(hb) {
                                Ok((decode_utf8(hb), p4))
                            } else {
                                Err(ParseError::EncodingError { offset: i as usize })
                            }
                        },
                    },
                }
            },
        },
    }
}

/// Meaning of one body entry at `i`: the decoded key and value together
/// with the position just past the entry's CR LF.  The key is at least one
/// byte and runs to the first space; the whole run of spaces after it is
/// the delimiter; the value runs to the first CR.
pub open spec fn spec_content_entry(t: Seq<u8>, i: int) -> Result<
    (Seq<char>, Seq<char>, int),
    ParseError,
> {
    if 0 <= i < t.len() && t[i] == SP {
        Err(
            ParseError::StructuralMismatch {
                expected: Expected::KeyByte,
                actual: Some(SP),
                offset: i as usize,
            },
        )
    } else {
        spec_keyed_entry(t, i)
    }
}

/// The rest of an entry, once its key is known not to be empty.
pub open spec fn spec_keyed_entry(t: Seq<u8>, i: int) -> Result<
    (Seq<char>, Seq<char>, int),
    ParseError,
> {
    let ke = find_byte(t, i, SP);
    match spec_expect(t, ke, SP) {
        Err(e) => Err(e),
        Ok(p1) => {
            let vs = skip_byte_run(t, p1, SP);
            let ve = find_byte(t, vs, CR);
            match spec_expect(t, ve, CR) {
                Err(e) => Err(e),
                Ok(p2) => match spec_expect(t, p2, LF) {
                    Err(e) => Err(e),
                    Ok(p3) => {
                        let kb = t.subrange(i, ke);
                        let vb = t.subrange(vs, ve);
                        if !valid_utf8(kb) {
                            Err(ParseError::EncodingError { offset: i as usize })
                        } else if !valid_utf8(vb) {
                            Err(ParseError::EncodingError { offset: vs as usize })
                        } else {
                            Ok((decode_utf8(kb), decode_utf8(vb), p3))
                        }
                    },
                },
            }
        },
    }
}

/// Meaning of a table body at `i`: the key/value map collected from every
/// entry up to the first blank line (a line that begins with CR) or the end
/// of the input, together with the position of that boundary.  When one key
/// occurs several times, the later entry wins.
pub open spec fn spec_contents(t: Seq<u8>, i: int) -> Result<
    (Map<Seq<char>, Seq<char>>, int),
    ParseError,
>
    decreases t.len() - i
        when 0 <= i <= t.len()
        via spec_contents_decreases
{
    if i >= t.len() || t[i] == CR {
        Ok((Map::empty(), i))
    } else {
        match spec_content_entry(t, i) {
            Err(e) => Err(e),
            Ok((k, v, j)) => match spec_contents(t, j) {
                Err(e) => Err(e),
                Ok((m, end)) => Ok(
                    (
                        if m.dom().contains(k) {
                            m
                        } else {
                            m.insert(k, v)
                        },
                        end,
                    ),
                ),
            },
        }
    }
}

#[via_fn]
proof fn spec_contents_decreases(t: Seq<u8>, i: int) {
    if 0 <= i < t.len() && t[i] != CR && spec_content_entry(t, i) is Ok {
        lemma_content_entry_advances(t, i);
    }
}

/// Meaning of a whole document at `i`: the ordered sequence of table maps,
/// or the first error.  A complete CR LF pair is a blank line and is
/// skipped; any other byte opens a header block, so a lone CR or LF can
/// only fail as an unterminated line.
pub open spec fn spec_parse_tables(t: Seq<u8>, i: int) -> Result<
    Seq<Map<Seq<char>, Seq<char>>>,
    ParseError,
>
    decreases t.len() - i
        when 0 <= i <= t.len()
        via spec_parse_tables_decreases
{
    if i >= t.len() {
        Ok(Seq::empty())
    } else if t[i] == CR && i + 1 < t.len() && t[i + 1] == LF {
        spec_parse_tables(t, i + 2)
    } else {
        match spec_header(t, i) {
            Err(e) => Err(e),
            Ok((h, j)) => match spec_contents(t, j) {
                Err(e) => Err(e),
                Ok((m, k)) => match spec_parse_tables(t, k) {
                    Err(e) => Err(e),
                    Ok(rest) => Ok(seq![m] + rest),
                },
            },
        }
    }
}

#[via_fn]
proof fn spec_parse_tables_decreases(t: Seq<u8>, i: int) {
    if 0 <= i < t.len() && !(t[i] == CR && i + 1 < t.len() && t[i + 1] == LF) {
        match spec_header(t, i) {
            Err(_) => {},
            Ok((h, j)) => {
                lemma_header_advances(t, i);
                if spec_contents(t, j) is Ok {
                    lemma_contents_advances(t, j);
                }
            },
        }
    }
}

/// `find_byte` stays within bounds, stops on its byte, and skips nothing
/// that holds its byte.
pub proof fn lemma_find_byte_props(t: Seq<u8>, i: int, b: u8)
    requires
        0 <= i <= t.len(),
    ensures
        i <= find_byte(t, i, b) <= t.len(),
        find_byte(t, i, b) < t.len() ==> t[find_byte(t, i, b)] == b,
        forall|m: int| i <= m < find_byte(t, i, b) ==> t[m] != b,
    decreases t.len() - i,
{
    if i < t.len() && t[i] != b {
        lemma_find_byte_props(t, i + 1, b);
    }
}

/// The converse: a position with the first hit pins `find_byte` down.
pub proof fn lemma_find_byte_is(t: Seq<u8>, i: int, j: int, b: u8)
    requires
        0 <= i <= j <= t.len(),
        forall|m: int| i <= m < j ==> t[m] != b,
        j == t.len() || t[j] == b,
    ensures
        find_byte(t, i, b) == j,
    decreases j - i,
{
    if i < j {
        lemma_find_byte_is(t, i + 1, j, b);
    }
}

/// `skip_byte_run` stays within bounds, stops on the first other byte, and
/// skips only its byte.
pub proof fn lemma_skip_byte_run_props(t: Seq<u8>, i: int, b: u8)
    requires
        0 <= i <= t.len(),
    ensures
        i <= skip_byte_run(t, i, b) <= t.len(),
        skip_byte_run(t, i, b) < t.len() ==> t[skip_byte_run(t, i, b)] != b,
        forall|m: int| i <= m < skip_byte_run(t, i, b) ==> t[m] == b,
    decreases t.len() - i,
{
    if i < t.len() && t[i] == b {
        lemma_skip_byte_run_props(t, i + 1, b);
    }
}

/// The converse: a position ending the run pins `skip_byte_run` down.
pub proof fn lemma_skip_byte_run_is(t: Seq<u8>, i: int, j: int, b: u8)
    requires
        0 <= i <= j <= t.len(),
        forall|m: int| i <= m < j ==> t[m] == b,
        j == t.len() || t[j] != b,
    ensures
        skip_byte_run(t, i, b) == j,
    decreases j - i,
{
    if i < j {
        lemma_skip_byte_run_is(t, i + 1, j, b);
    }
}

/// A successfully parsed header block ends past where it began and within
/// the input.
pub proof fn lemma_header_advances(t: Seq<u8>, i: int)
    requires
        0 <= i <= t.len(),
        spec_header(t, i) is Ok,
    ensures
        i + 4 <= spec_header(t, i)->Ok_0.1 <= t.len(),
{
    lemma_find_byte_props(t, i, CR);
    let he = find_byte(t, i, CR);
    lemma_skip_byte_run_props(t, he + 2, DASH);
}

/// A successfully parsed entry ends past where it began and within the
/// input.
pub proof fn lemma_content_entry_advances(t: Seq<u8>, i: int)
    requires
        0 <= i <= t.len(),
        spec_content_entry(t, i) is Ok,
    ensures
        i + 3 <= spec_content_entry(t, i)->Ok_0.2 <= t.len(),
{
    lemma_find_byte_props(t, i, SP);
    let ke = find_byte(t, i, SP);
    lemma_skip_byte_run_props(t, ke + 1, SP);
    let vs = skip_byte_run(t, ke + 1, SP);
    lemma_find_byte_props(t, vs, CR);
}

/// A successfully parsed body ends at or after where it began and within
/// the input.
pub proof fn lemma_contents_advances(t: Seq<u8>, i: int)
    requires
        0 <= i <= t.len(),
        spec_contents(t, i) is Ok,
    ensures
        i <= spec_contents(t, i)->Ok_0.1 <= t.len(),
    decreases t.len() - i,
{
    if i < t.len() && t[i] != CR {
        lemma_content_entry_advances(t, i);
        let j = spec_content_entry(t, i)->Ok_0.2;
        lemma_contents_advances(t, j);
    }
}

} // verus!
