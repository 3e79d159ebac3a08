//! The executable parser: a cursor over the input bytes with lookahead-one
//! peek, advance and expect primitives, proved to return exactly what
//! [`crate::grammar::spec_parse_tables`] says.

use vstd::prelude::*;
use vstd::utf8::{decode_utf8, valid_utf8};

use crate::grammar::{
    byte_at, find_byte, lemma_content_entry_advances, lemma_contents_advances,
    lemma_header_advances, skip_byte_run, spec_content_entry, spec_contents, spec_expect,
    spec_header, spec_parse_tables, Expected, ParseError, CR, DASH, LF, SP,
};
use crate::table::{tables_view, BCDTable};

verus! {

/// Relies on `String::from_utf8`: it succeeds exactly when the bytes are
/// valid UTF-8, and the string it returns is their decoding.
#[verifier::external_body]
fn bytes_to_string(v: Vec<u8>) -> (r: Option<String>)
    ensures
        r is Some <==> valid_utf8(v@),
        r matches Some(s) ==> s@ == decode_utf8(v@),
{
    String::from_utf8(v).ok()
}

/// A scan over one input: the bytes, which never change, and the position
/// of the next byte to look at.
pub struct BCDTableParser<'a> {
    text: &'a [u8],
    index: usize,
}

impl<'a> BCDTableParser<'a> {
    /// The input bytes being scanned.
    pub closed spec fn bytes(&self) -> Seq<u8> {
        self.text@
    }

    /// The scan position.
    pub closed spec fn pos(&self) -> int {
        self.index as int
    }

    /// The cursor never stands past the end of the input.
    pub open spec fn wf(&self) -> bool {
        0 <= self.pos() <= self.bytes().len()
    }

    /// A parser over the UTF-8 bytes of `input`, ready to scan from the
    /// start.
    pub fn new(input: &str) -> (r: BCDTableParser<'_>)
        ensures
            r.bytes() == vstd::utf8::encode_utf8(input@),
            r.pos() == 0,
            r.wf(),
    {
        BCDTableParser { text: input.as_bytes(), index: 0 }
    }

    /// A parser over raw bytes, ready to scan from the start.  Runs that
    /// are not valid UTF-8 are parse errors, not panics.
    pub fn from_bytes(input: &'a [u8]) -> (r: BCDTableParser<'a>)
        ensures
            r.bytes() == input@,
            r.pos() == 0,
            r.wf(),
    {
        BCDTableParser { text: input, index: 0 }
    }

    /// Peek at the current byte, if any.
    fn at(&self) -> (r: Option<u8>)
        requires
            self.wf(),
        ensures
            r == byte_at(self.bytes(), self.pos()),
    {
        if self.index < self.text.len() {
            Some(self.text[self.index])
        } else {
            None
        }
    }

    /// Step past the current byte.
    fn eat(&mut self)
        requires
            old(self).wf(),
            old(self).pos() < old(self).bytes().len(),
        ensures
            final(self).bytes() == old(self).bytes(),
            final(self).pos() == old(self).pos() + 1,
            final(self).wf(),
    {
        let n = self.text.len();
        if self.index < n {
            self.index = self.index + 1;
        }
    }

    /// Consume one byte that the grammar requires here, or report what
    /// stood in its place and where.
    fn expect(&mut self, value: u8) -> (r: Result<(), ParseError>)
        requires
            old(self).wf(),
        ensures
            final(self).bytes() == old(self).bytes(),
            final(self).wf(),
            match r {
                Ok(_) => spec_expect(old(self).bytes(), old(self).pos(), value) matches Ok(p)
                    && p == final(self).pos(),
                Err(e) => spec_expect(old(self).bytes(), old(self).pos(), value) matches Err(e2)
                    && e2 == e && final(self).pos() == old(self).pos(),
            },
    {
        match self.at() {
            Some(current) => {
                if current == value {
                    self.eat();
                    Ok(())
                } else {
                    Err(
                        ParseError::StructuralMismatch {
                            expected: Expected::Byte(value),
                            actual: Some(current),
                            offset: self.index,
                        },
                    )
                }
            },
            None => Err(
                ParseError::StructuralMismatch {
                    expected: Expected::Byte(value),
                    actual: None,
                    offset: self.index,
                },
            ),
        }
    }

    /// Collect every byte up to the next `stop` byte (or the end of the
    /// input), leaving the cursor on the boundary.
    #[verifier::loop_isolation(false)]
    fn scan_until(&mut self, stop: u8) -> (out: Vec<u8>)
        requires
            old(self).wf(),
        ensures
            final(self).bytes() == old(self).bytes(),
            final(self).wf(),
            final(self).pos() == find_byte(old(self).bytes(), old(self).pos(), stop),
            out@ == old(self).bytes().subrange(old(self).pos(), final(self).pos()),
    {
        let ghost t = self.bytes();
        let ghost i0 = self.pos();
        let mut out: Vec<u8> = Vec::new();
        while self.index < self.text.len() && self.text[self.index] != stop
            invariant
                self.wf(),
                self.bytes() == t,
                i0 <= self.pos(),
                find_byte(t, i0, stop) == find_byte(t, self.pos(), stop),
                out@ == t.subrange(i0, self.pos()),
            decreases t.len() - self.pos(),
        {
            out.push(self.text[self.index]);
            let ghost p = self.pos();
            self.eat();
            proof {
                assert(t.subrange(i0, p + 1) =~= t.subrange(i0, p).push(t[p]));
            }
        }
        out
    }

    /// Step past the run of `b` bytes under the cursor, leaving it on the
    /// first other byte (or the end of the input).
    #[verifier::loop_isolation(false)]
    fn skip_run(&mut self, b: u8)
        requires
            old(self).wf(),
        ensures
            final(self).bytes() == old(self).bytes(),
            final(self).wf(),
            final(self).pos() == skip_byte_run(old(self).bytes(), old(self).pos(), b),
    {
        let ghost t = self.bytes();
        let ghost i0 = self.pos();
        while self.index < self.text.len() && self.text[self.index] == b
            invariant
                self.wf(),
                self.bytes() == t,
                i0 <= self.pos(),
                skip_byte_run(t, i0, b) == skip_byte_run(t, self.pos(), b),
            decreases t.len() - self.pos(),
        {
            self.eat();
        }
    }

    /// Consume one header block: the header text up to CR LF, then a run
    /// of dashes ended by CR LF.  Returns the decoded header text, which
    /// the tables do not retain.
    fn header(&mut self) -> (r: Result<String, ParseError>)
        requires
            old(self).wf(),
        ensures
            final(self).bytes() == old(self).bytes(),
            final(self).wf(),
            match r {
                Ok(s) => spec_header(old(self).bytes(), old(self).pos()) matches Ok(hp) && s@
                    == hp.0 && final(self).pos() == hp.1,
                Err(e) => spec_header(old(self).bytes(), old(self).pos()) matches Err(e2) && e2
                    == e,
            },
    {
        let start = self.index;
        let out = self.scan_until(CR);
        match self.expect(CR) {
            Err(e) => return Err(e),
            Ok(_) => {},
        }
        match self.expect(LF) {
            Err(e) => return Err(e),
            Ok(_) => {},
        }
        self.skip_run(DASH);
        match self.expect(CR) {
            Err(e) => return Err(e),
            Ok(_) => {},
        }
        match self.expect(LF) {
            Err(e) => return Err(e),
            Ok(_) => {},
        }
        match bytes_to_string(out) {
            Some(s) => Ok(s),
            None => Err(ParseError::EncodingError { offset: start }),
        }
    }

    /// Consume one body entry: a key of at least one byte up to the first
    /// space, the run of spaces that delimits it, and the value up to CR
    /// LF.
    fn content_entry(&mut self) -> (r: Result<(String, String), ParseError>)
        requires
            old(self).wf(),
        ensures
            final(self).bytes() == old(self).bytes(),
            final(self).wf(),
            match r {
                Ok(kv) => spec_content_entry(old(self).bytes(), old(self).pos()) matches Ok(e3)
                    && kv.0@ == e3.0 && kv.1@ == e3.1 && final(self).pos() == e3.2,
                Err(e) => spec_content_entry(old(self).bytes(), old(self).pos()) matches Err(e2)
                    && e2 == e,
            },
    {
        match self.at() {
            Some(current) => {
                if current == SP {
                    return Err(
                        ParseError::StructuralMismatch {
                            expected: Expected::KeyByte,
                            actual: Some(current),
                            offset: self.index,
                        },
                    );
                }
            },
            None => {},
        }
        let kstart = self.index;
        let key_bytes = self.scan_until(SP);
        match self.expect(SP) {
            Err(e) => return Err(e),
            Ok(_) => {},
        }
        self.skip_run(SP);
        let vstart = self.index;
        let value_bytes = self.scan_until(CR);
        match self.expect(CR) {
            Err(e) => return Err(e),
            Ok(_) => {},
        }
        match self.expect(LF) {
            Err(e) => return Err(e),
            Ok(_) => {},
        }
        let key = match bytes_to_string(key_bytes) {
            Some(s) => s,
            None => return Err(ParseError::EncodingError { offset: kstart }),
        };
        let value = match bytes_to_string(value_bytes) {
            Some(s) => s,
            None => return Err(ParseError::EncodingError { offset: vstart }),
        };
        Ok((key, value))
    }

    /// Consume one table body: entries until a blank line or the end of
    /// the input, later entries winning on a repeated key.
    #[verifier::loop_isolation(false)]
    fn contents(&mut self) -> (r: Result<BCDTable, ParseError>)
        requires
            old(self).wf(),
        ensures
            final(self).bytes() == old(self).bytes(),
            final(self).wf(),
            match r {
                Ok(tab) => spec_contents(old(self).bytes(), old(self).pos()) matches Ok(mp)
                    && tab@ == mp.0 && final(self).pos() == mp.1,
                Err(e) => spec_contents(old(self).bytes(), old(self).pos()) matches Err(e2) && e2
                    == e,
            },
    {
        let ghost t = self.bytes();
        let ghost i0 = self.pos();
        let mut output = BCDTable::new();
        while self.index < self.text.len() && self.text[self.index] != CR
            invariant
                self.wf(),
                self.bytes() == t,
                match spec_contents(t, self.pos()) {
                    Ok(mp) => spec_contents(t, i0) matches Ok(mp0) && mp0.0
                        == output@.union_prefer_right(mp.0) && mp0.1 == mp.1,
                    Err(e) => spec_contents(t, i0) matches Err(e2) && e2 == e,
                },
            decreases t.len() - self.pos(),
        {
            let ghost p = self.pos();
            let kv = match self.content_entry() {
                Err(e) => return Err(e),
                Ok(kv) => kv,
            };
            proof {
                lemma_content_entry_advances(t, p);
            }
            let ghost before = output@;
            let (key, value) = kv;
            let ghost kview = key@;
            let ghost vview = value@;
            output.insert(key, value);
            proof {
                let e3 = spec_content_entry(t, p)->Ok_0;
                match spec_contents(t, e3.2) {
                    Ok(mp) => {
                        let head = if mp.0.dom().contains(kview) {
                            mp.0
                        } else {
                            mp.0.insert(kview, vview)
                        };
                        assert(before.union_prefer_right(head) =~= output@.union_prefer_right(
                            mp.0,
                        ));
                    },
                    Err(_) => {},
                }
            }
        }
        proof {
            assert(output@.union_prefer_right(Map::empty()) =~= output@);
            assert(spec_contents(t, i0) matches Ok(mp0) && mp0.0 == output@);
        }
        Ok(output)
    }

    /// Parse the whole input: every table in order, or the first point at
    /// which the input breaks the grammar.  Blank lines (complete CR LF
    /// pairs) around tables are skipped; nothing is returned for them.
    #[verifier::loop_isolation(false)]
    pub fn parse(&mut self) -> (r: Result<Vec<BCDTable>, ParseError>)
        requires
            old(self).wf(),
        ensures
            final(self).bytes() == old(self).bytes(),
            final(self).wf(),
            match r {
                Ok(tables) => spec_parse_tables(old(self).bytes(), old(self).pos()) matches Ok(ms)
                    && tables_view(tables@) == ms,
                Err(e) => spec_parse_tables(old(self).bytes(), old(self).pos()) matches Err(e2)
                    && e2 == e,
            },
    {
        let ghost t = self.bytes();
        let ghost i0 = self.pos();
        let mut output: Vec<BCDTable> = Vec::new();
        while self.index < self.text.len()
            invariant
                self.wf(),
                self.bytes() == t,
                match spec_parse_tables(t, self.pos()) {
                    Ok(rest) => spec_parse_tables(t, i0) matches Ok(full) && full == tables_view(
                        output@,
                    ) + rest,
                    Err(e) => spec_parse_tables(t, i0) matches Err(e2) && e2 == e,
                },
            decreases t.len() - self.pos(),
        {
            let current = self.text[self.index];
            if current == CR && self.index + 1 < self.text.len() && self.text[self.index + 1] == LF {
                self.eat();
                self.eat();
            } else {
                let ghost p = self.pos();
                match self.header() {
                    Err(e) => return Err(e),
                    Ok(_) => {},
                }
                proof {
                    lemma_header_advances(t, p);
                }
                let ghost j = self.pos();
                let table = match self.contents() {
                    Err(e) => return Err(e),
                    Ok(tb) => tb,
                };
                proof {
                    lemma_contents_advances(t, j);
                }
                let ghost before = tables_view(output@);
                let ghost tview = table@;
                output.push(table);
                proof {
                    assert(tables_view(output@) =~= before.push(tview));
                    match spec_parse_tables(t, self.pos()) {
                        Ok(rest) => {
                            assert(before + (seq![tview] + rest) =~= tables_view(output@) + rest);
                        },
                        Err(_) => {},
                    }
                }
            }
        }
        proof {
            assert(tables_view(output@) + Seq::<Map<Seq<char>, Seq<char>>>::empty()
                =~= tables_view(output@));
        }
        Ok(output)
    }
}

} // verus!
