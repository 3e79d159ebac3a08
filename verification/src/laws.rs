//! The laws of the grammar: serializing well-formed tables and parsing the
//! result gives the tables back, blank lines never matter, a repeated key
//! keeps its last value, and a line that reaches the end of the input
//! without its CR LF is fatal.

use vstd::prelude::*;
use vstd::utf8::{
    char_is_scalar, char_u32_cast, decode_utf8, encode_scalar, encode_utf8,
    encode_utf8_decode_utf8, encode_utf8_valid_utf8, has_width_1_encoding, has_width_2_encoding,
    has_width_3_encoding, is_scalar, leading_byte_width_1,
};

use crate::grammar::{
    lemma_find_byte_is, lemma_skip_byte_run_is, spec_content_entry, spec_contents, spec_expect,
    spec_header, spec_parse_tables, Expected, ParseError, CR, DASH, LF, SP,
};

verus! {

/// Distinct characters have distinct scalar values.
proof fn lemma_char_ne_u32(c: char, d: char)
    requires
        c != d,
    ensures
        c as u32 != d as u32,
{
    char_u32_cast(c, c as u32);
    char_u32_cast(d, d as u32);
}

/// Any byte with its high bit forced on stays at or above 0x80.
proof fn lemma_or_high_bit(h: u8, x: u8)
    requires
        h >= 0x80,
    ensures
        (h | x) >= 0x80,
{
    assert((h | x) >= 0x80) by (bit_vector)
        requires
            h >= 0x80,
    ;
}

/// No byte of the encoding of one scalar is a given ASCII byte other than
/// the scalar itself.
proof fn lemma_scalar_encoding_avoids_ascii(s: u32, b: u8)
    requires
        is_scalar(s),
        b < 0x80,
        s != b as u32,
    ensures
        forall|m: int| 0 <= m < encode_scalar(s).len() ==> encode_scalar(s)[m] != b,
{
    if has_width_1_encoding(s) {
        assert((s & 0x7F) as u8 != b) by (bit_vector)
            requires
                s <= 0x7F,
                b < 0x80,
                s != b as u32,
        ;
        assert(encode_scalar(s)[0] == leading_byte_width_1(s));
    } else if has_width_2_encoding(s) {
        lemma_or_high_bit(0xC0, ((s >> 6) & 0x1F) as u8);
        lemma_or_high_bit(0x80, (s & 0x3F) as u8);
    } else if has_width_3_encoding(s) {
        lemma_or_high_bit(0xE0, ((s >> 12) & 0x0F) as u8);
        lemma_or_high_bit(0x80, ((s >> 6) & 0x3F) as u8);
        lemma_or_high_bit(0x80, (s & 0x3F) as u8);
    } else {
        lemma_or_high_bit(0xF0, ((s >> 18) & 0x7) as u8);
        lemma_or_high_bit(0x80, ((s >> 12) & 0x3F) as u8);
        lemma_or_high_bit(0x80, ((s >> 6) & 0x3F) as u8);
        lemma_or_high_bit(0x80, (s & 0x3F) as u8);
    }
}

/// The encoding of a character sequence that avoids an ASCII character
/// avoids its byte.
proof fn lemma_encode_avoids_ascii(cs: Seq<char>, b: u8)
    requires
        b < 0x80,
        forall|i: int| 0 <= i < cs.len() ==> cs[i] as u32 != b as u32,
    ensures
        forall|m: int| 0 <= m < encode_utf8(cs).len() ==> encode_utf8(cs)[m] != b,
    decreases cs.len(),
{
    if cs.len() > 0 {
        char_is_scalar(cs[0]);
        lemma_scalar_encoding_avoids_ascii(cs[0] as u32, b);
        assert(forall|i: int|
            0 <= i < cs.drop_first().len() ==> cs.drop_first()[i] as u32 != b as u32);
        lemma_encode_avoids_ascii(cs.drop_first(), b);
        let head = encode_scalar(cs[0] as u32);
        let tail = encode_utf8(cs.drop_first());
        assert(encode_utf8(cs) == head + tail);
        assert forall|m: int| 0 <= m < encode_utf8(cs).len() implies encode_utf8(cs)[m] != b by {
            if m < head.len() {
                assert(encode_utf8(cs)[m] == head[m]);
            } else {
                assert(encode_utf8(cs)[m] == tail[m - head.len()]);
            }
        }
    }
}

/// A nonempty character sequence has a nonempty encoding, and when its
/// first character is not a given ASCII character, the first byte of the
/// encoding is not its byte.
proof fn lemma_encode_first_byte(cs: Seq<char>, b: u8)
    requires
        b < 0x80,
        cs.len() > 0,
        cs[0] as u32 != b as u32,
    ensures
        encode_utf8(cs).len() > 0,
        encode_utf8(cs)[0] != b,
{
    char_is_scalar(cs[0]);
    lemma_scalar_encoding_avoids_ascii(cs[0] as u32, b);
    let head = encode_scalar(cs[0] as u32);
    assert(head.len() > 0);
    assert(encode_utf8(cs)[0] == head[0]);
}

/// A run of `n` copies of one byte.
pub open spec fn byte_run(n: nat, b: u8) -> Seq<u8> {
    Seq::new(n, |i: int| b)
}

/// The two-byte line terminator.
pub open spec fn crlf() -> Seq<u8> {
    seq![CR, LF]
}

/// One serialized body entry: the key, a run of `gap` spaces, the value,
/// CR LF.
pub open spec fn ser_entry(k: Seq<char>, gap: nat, v: Seq<char>) -> Seq<u8> {
    encode_utf8(k) + byte_run(gap, SP) + encode_utf8(v) + crlf()
}

/// A serialized body: each entry in turn, the entry at `x` delimited by a
/// run of `gaps[x]` spaces.
pub open spec fn ser_body(es: Seq<(Seq<char>, Seq<char>)>, gaps: Seq<nat>) -> Seq<u8>
    decreases es.len(),
{
    if es.len() == 0 {
        Seq::empty()
    } else {
        ser_entry(es[0].0, gaps[0], es[0].1) + ser_body(es.drop_first(), gaps.drop_first())
    }
}

/// Space runs a body's entries may be delimited by: one for each entry,
/// each at least one space wide.
pub open spec fn wf_gaps(gaps: Seq<nat>, n: nat) -> bool {
    &&& gaps.len() == n
    &&& forall|x: int| 0 <= x < gaps.len() ==> gaps[x] >= 1
}

/// A key the grammar can carry: nonempty, no space, no CR.
pub open spec fn wf_key(k: Seq<char>) -> bool {
    &&& k.len() > 0
    &&& forall|i: int| 0 <= i < k.len() ==> k[i] != ' ' && k[i] != '\r'
}

/// A value the grammar can carry: no CR, and no leading space, which the
/// delimiter run would swallow.
pub open spec fn wf_value(v: Seq<char>) -> bool {
    &&& forall|i: int| 0 <= i < v.len() ==> v[i] != '\r'
    &&& v.len() > 0 ==> v[0] != ' '
}

/// Every entry of the sequence is well formed.
pub open spec fn wf_entries(es: Seq<(Seq<char>, Seq<char>)>) -> bool {
    forall|i: int| 0 <= i < es.len() ==> wf_key(#[trigger] es[i].0) && wf_value(es[i].1)
}

/// The map a body's entries describe: later entries win.
pub open spec fn entries_map(es: Seq<(Seq<char>, Seq<char>)>) -> Map<Seq<char>, Seq<char>>
    decreases es.len(),
{
    if es.len() == 0 {
        Map::empty()
    } else {
        let m = entries_map(es.drop_first());
        if m.dom().contains(es[0].0) {
            m
        } else {
            m.insert(es[0].0, es[0].1)
        }
    }
}

/// One or more spaces are one delimiter: a serialized entry parses to its
/// key and value whatever the width of the space run between them, leading
/// run collapsed and the value's inner spaces kept.
pub proof fn lemma_entry_round_trip(t: Seq<u8>, i: int, k: Seq<char>, gap: nat, v: Seq<char>)
    requires
        wf_key(k),
        wf_value(v),
        gap >= 1,
        0 <= i,
        i + ser_entry(k, gap, v).len() <= t.len(),
        t.subrange(i, i + ser_entry(k, gap, v).len() as int) == ser_entry(k, gap, v),
    ensures
        spec_content_entry(t, i) matches Ok(e3) && e3.0 == k && e3.1 == v && e3.2 == i + ser_entry(
            k,
            gap,
            v,
        ).len(),
{
    broadcast use encode_utf8_valid_utf8, encode_utf8_decode_utf8;

    let ser = ser_entry(k, gap, v);
    let ek = encode_utf8(k);
    let ev = encode_utf8(v);
    let ekl = ek.len() as int;
    let evl = ev.len() as int;
    let gp = gap as int;
    assert forall|m: int| 0 <= m < ser.len() implies t[i + m] == ser[m] by {
        assert(t.subrange(i, i + ser.len() as int)[m] == t[i + m]);
    }
    assert forall|i2: int| 0 <= i2 < k.len() implies k[i2] as u32 != SP as u32 by {
        lemma_char_ne_u32(k[i2], ' ');
    }
    assert forall|i2: int| 0 <= i2 < k.len() implies k[i2] as u32 != CR as u32 by {
        lemma_char_ne_u32(k[i2], '\r');
    }
    assert forall|i2: int| 0 <= i2 < v.len() implies v[i2] as u32 != CR as u32 by {
        lemma_char_ne_u32(v[i2], '\r');
    }
    lemma_encode_avoids_ascii(k, SP);
    lemma_encode_first_byte(k, SP);
    lemma_encode_avoids_ascii(v, CR);
    // The key run ends at the first space, the one the delimiter begins with.
    assert(ser[ekl] == byte_run(gap, SP)[0]);
    assert(t[i + ekl] == SP);
    assert forall|m: int| i <= m < i + ekl implies t[m] != SP by {
        assert(t[m] == ser[m - i]);
        assert(ser[m - i] == ek[m - i]);
    }
    lemma_find_byte_is(t, i, i + ekl, SP);
    assert(spec_expect(t, i + ekl, SP) == Ok::<int, ParseError>(i + ekl + 1));
    // The delimiter is the whole run of spaces; the value begins after it.
    let vs = i + ekl + gp;
    assert forall|m: int| i + ekl + 1 <= m < vs implies t[m] == SP by {
        assert(t[m] == ser[m - i]);
        assert(ser[m - i] == byte_run(gap, SP)[m - i - ekl]);
    }
    if v.len() > 0 {
        lemma_char_ne_u32(v[0], ' ');
        lemma_encode_first_byte(v, SP);
        assert(ser[ekl + gp] == ev[0]);
        assert(t[vs] != SP);
    } else {
        assert(ser[ekl + gp] == crlf()[0]);
        assert(t[vs] == CR);
    }
    lemma_skip_byte_run_is(t, i + ekl + 1, vs, SP);
    // The value runs to the CR of the line terminator.
    assert forall|m: int| vs <= m < vs + evl implies t[m] != CR by {
        assert(t[m] == ser[m - i]);
        assert(ser[m - i] == ev[m - i - ekl - gp]);
    }
    assert(ser[ekl + gp + evl] == crlf()[0]);
    assert(t[vs + evl] == CR);
    lemma_find_byte_is(t, vs, vs + evl, CR);
    assert(ser[ekl + gp + evl + 1] == crlf()[1]);
    assert(t[vs + evl + 1] == LF);
    // The decoded runs are the key and the value themselves.
    assert(t.subrange(i, i + ekl) =~= ek);
    assert forall|m: int| 0 <= m < evl implies t.subrange(vs, vs + evl)[m] == ev[m] by {
        assert(t[i + (ekl + gp + m)] == ser[ekl + gp + m]);
        assert(ser[ekl + gp + m] == ev[m]);
    }
    assert(t.subrange(vs, vs + evl) =~= ev);
    assert(decode_utf8(ek) == k);
    assert(decode_utf8(ev) == v);
}

/// A header text the grammar can carry: nonempty and free of CR.
pub open spec fn wf_header_text(h: Seq<char>) -> bool {
    &&& h.len() > 0
    &&& forall|i: int| 0 <= i < h.len() ==> h[i] != '\r'
}

/// A serialized header block: the header text, CR LF, a run of dashes,
/// CR LF.
pub open spec fn ser_head(h: Seq<char>, dashes: nat) -> Seq<u8> {
    encode_utf8(h) + crlf() + byte_run(dashes, DASH) + crlf()
}

/// Everything that determines one serialized table: its header text, how
/// many dashes its separator line carries, its body entries in order, and
/// how many spaces delimit each entry.
pub struct TableSketch {
    pub header: Seq<char>,
    pub dashes: nat,
    pub entries: Seq<(Seq<char>, Seq<char>)>,
    pub gaps: Seq<nat>,
}

/// A table the grammar can carry.
pub open spec fn wf_sketch(s: TableSketch) -> bool {
    wf_header_text(s.header) && wf_entries(s.entries) && wf_gaps(s.gaps, s.entries.len())
}

/// One serialized table: header block, then body.
pub open spec fn ser_table(s: TableSketch) -> Seq<u8> {
    ser_head(s.header, s.dashes) + ser_body(s.entries, s.gaps)
}

/// A run of `n` blank lines.
pub open spec fn blank_run(n: nat) -> Seq<u8>
    decreases n,
{
    if n == 0 {
        Seq::empty()
    } else {
        crlf() + blank_run((n - 1) as nat)
    }
}

/// A run of blank lines is CR LF over and over.
proof fn lemma_blank_run_bytes(n: nat)
    ensures
        blank_run(n).len() == 2 * n,
        forall|m: int| 0 <= m < 2 * n ==> blank_run(n)[m] == (if m % 2 == 0 {
            CR
        } else {
            LF
        }),
    decreases n,
{
    if n > 0 {
        lemma_blank_run_bytes((n - 1) as nat);
        assert forall|m: int| 0 <= m < 2 * n implies blank_run(n)[m] == (if m % 2 == 0 {
            CR
        } else {
            LF
        }) by {
            if m >= 2 {
                assert(blank_run(n)[m] == blank_run((n - 1) as nat)[m - 2]);
                assert(m % 2 == (m - 2) % 2);
            }
        }
    }
}

/// A serialized document: each table preceded by `pads[x]` blank lines and
/// followed by one, and `pads[ts.len()]` more blank lines at the end.
pub open spec fn ser_doc(ts: Seq<TableSketch>, pads: Seq<nat>) -> Seq<u8>
    decreases ts.len(),
{
    if ts.len() == 0 {
        blank_run(pads[0])
    } else {
        blank_run(pads[0]) + ser_table(ts[0]) + crlf() + ser_doc(ts.drop_first(), pads.drop_first())
    }
}

/// A serialized body, whatever the width of each entry's space run,
/// parses back to the map of its entries — later entries winning on a
/// repeated key — and ends at the blank line or end of input after it.
pub proof fn lemma_body_round_trip(
    t: Seq<u8>,
    i: int,
    es: Seq<(Seq<char>, Seq<char>)>,
    gaps: Seq<nat>,
)
    requires
        wf_entries(es),
        wf_gaps(gaps, es.len()),
        0 <= i,
        i + ser_body(es, gaps).len() <= t.len(),
        t.subrange(i, i + ser_body(es, gaps).len() as int) == ser_body(es, gaps),
        i + ser_body(es, gaps).len() == t.len() || t[i + ser_body(es, gaps).len()] == CR,
    ensures
        spec_contents(t, i) matches Ok(mp) && mp.0 == entries_map(es) && mp.1 == i + ser_body(
            es,
            gaps,
        ).len(),
    decreases es.len(),
{
    let bd = ser_body(es, gaps);
    let bl = bd.len() as int;
    assert forall|m: int| 0 <= m < bl implies t[i + m] == bd[m] by {
        assert(t.subrange(i, i + bl)[m] == t[i + m]);
    }
    if es.len() > 0 {
        let k0 = es[0].0;
        let v0 = es[0].1;
        let e0 = ser_entry(k0, gaps[0], v0);
        let el = e0.len() as int;
        let tail = ser_body(es.drop_first(), gaps.drop_first());
        assert(bd == e0 + tail);
        assert forall|m: int| 0 <= m < el implies t.subrange(i, i + el)[m] == e0[m] by {
            assert(t[i + m] == bd[m]);
            assert(bd[m] == e0[m]);
        }
        assert(t.subrange(i, i + el) =~= e0);
        assert(wf_key(k0) && wf_value(v0));
        lemma_entry_round_trip(t, i, k0, gaps[0], v0);
        lemma_char_ne_u32(k0[0], '\r');
        lemma_char_ne_u32(k0[0], ' ');
        lemma_encode_first_byte(k0, CR);
        lemma_encode_first_byte(k0, SP);
        assert(e0[0] == encode_utf8(k0)[0]);
        assert(t[i] != CR);
        assert(t[i] != SP);
        assert forall|m: int| 0 <= m < bl - el implies t.subrange(i + el, i + bl)[m] == tail[m] by {
            assert(t[i + (el + m)] == bd[el + m]);
            assert(bd[el + m] == tail[m]);
        }
        assert(t.subrange(i + el, i + bl) =~= tail);
        assert forall|x: int| 0 <= x < gaps.drop_first().len() implies gaps.drop_first()[x]
            >= 1 by {
            assert(gaps.drop_first()[x] == gaps[x + 1]);
        }
        lemma_body_round_trip(t, i + el, es.drop_first(), gaps.drop_first());
    }
}

/// A serialized header block parses back to its text and ends just past
/// the separator line, whatever the number of dashes.
pub proof fn lemma_header_round_trip(t: Seq<u8>, i: int, h: Seq<char>, dashes: nat)
    requires
        wf_header_text(h),
        0 <= i,
        i + ser_head(h, dashes).len() <= t.len(),
        t.subrange(i, i + ser_head(h, dashes).len() as int) == ser_head(h, dashes),
    ensures
        spec_header(t, i) matches Ok(hp) && hp.0 == h && hp.1 == i + ser_head(h, dashes).len(),
{
    broadcast use encode_utf8_valid_utf8, encode_utf8_decode_utf8;

    let hd = ser_head(h, dashes);
    let eh = encode_utf8(h);
    let ehl = eh.len() as int;
    let d = dashes as int;
    assert forall|m: int| 0 <= m < hd.len() implies t[i + m] == hd[m] by {
        assert(t.subrange(i, i + hd.len() as int)[m] == t[i + m]);
    }
    assert forall|i2: int| 0 <= i2 < h.len() implies h[i2] as u32 != CR as u32 by {
        lemma_char_ne_u32(h[i2], '\r');
    }
    lemma_encode_avoids_ascii(h, CR);
    assert forall|m: int| i <= m < i + ehl implies t[m] != CR by {
        assert(t[m] == hd[m - i]);
        assert(hd[m - i] == eh[m - i]);
    }
    assert(hd[ehl] == crlf()[0]);
    assert(t[i + ehl] == CR);
    lemma_find_byte_is(t, i, i + ehl, CR);
    assert(hd[ehl + 1] == crlf()[1]);
    assert(t[i + ehl + 1] == LF);
    assert forall|m: int| i + ehl + 2 <= m < i + ehl + 2 + d implies t[m] == DASH by {
        assert(t[m] == hd[m - i]);
        assert(hd[m - i] == byte_run(dashes, DASH)[m - i - ehl - 2]);
    }
    assert(hd[ehl + 2 + d] == crlf()[0]);
    assert(t[i + ehl + 2 + d] == CR);
    lemma_skip_byte_run_is(t, i + ehl + 2, i + ehl + 2 + d, DASH);
    assert(hd[ehl + 2 + d + 1] == crlf()[1]);
    assert(t[i + ehl + 2 + d + 1] == LF);
    assert forall|m: int| 0 <= m < ehl implies t.subrange(i, i + ehl)[m] == eh[m] by {
        assert(t[i + m] == hd[m]);
        assert(hd[m] == eh[m]);
    }
    assert(t.subrange(i, i + ehl) =~= eh);
    assert(decode_utf8(eh) == h);
}

/// A serialized document, standing alone from `i` to the end of the
/// input, parses back to its tables' maps in order.
proof fn lemma_doc_round_trip(t: Seq<u8>, i: int, ts: Seq<TableSketch>, pads: Seq<nat>)
    requires
        forall|x: int| 0 <= x < ts.len() ==> wf_sketch(#[trigger] ts[x]),
        pads.len() == ts.len() + 1,
        0 <= i <= t.len(),
        t.subrange(i, t.len() as int) == ser_doc(ts, pads),
    ensures
        spec_parse_tables(t, i) matches Ok(ms) && ms.len() == ts.len() && forall|x: int|
            0 <= x < ts.len() ==> ms[x] == entries_map(#[trigger] ts[x].entries),
    decreases ts.len(),
{
    let doc = ser_doc(ts, pads);
    let dl = doc.len() as int;
    assert(dl == t.len() - i);
    assert forall|m: int| 0 <= m < dl implies t[i + m] == doc[m] by {
        assert(t.subrange(i, t.len() as int)[m] == t[i + m]);
    }
    // The leading blank lines are skipped.
    lemma_blank_run_bytes(pads[0]);
    let pb = 2 * pads[0] as int;
    let start = i + pb;
    assert forall|m: int| i <= m < start implies t[m] == (if (m - i) % 2 == 0 {
        CR
    } else {
        LF
    }) by {
        assert(t[m] == doc[m - i]);
        assert(doc[m - i] == blank_run(pads[0])[m - i]);
    }
    lemma_blank_run_skipped(t, i, start);
    if ts.len() > 0 {
        let s0 = ts[0];
        let h = s0.header;
        let hd = ser_head(h, s0.dashes);
        let hdl = hd.len() as int;
        let bd = ser_body(s0.entries, s0.gaps);
        let bdl = bd.len() as int;
        let tb = ser_table(s0);
        let tbl = tb.len() as int;
        let rest = ser_doc(ts.drop_first(), pads.drop_first());
        assert(doc == blank_run(pads[0]) + tb + crlf() + rest);
        assert(tb == hd + bd);
        // The first byte after the blanks is the header's, so it is not
        // the CR of a further blank line.
        lemma_char_ne_u32(h[0], '\r');
        lemma_encode_first_byte(h, CR);
        assert(doc[pb] == encode_utf8(h)[0]);
        assert(t[start] != CR);
        // The header block parses.
        assert forall|m: int| 0 <= m < hdl implies t.subrange(start, start + hdl)[m] == hd[m] by {
            assert(t[i + (pb + m)] == doc[pb + m]);
            assert(doc[pb + m] == hd[m]);
        }
        assert(t.subrange(start, start + hdl) =~= hd);
        lemma_header_round_trip(t, start, h, s0.dashes);
        // The body parses, ended by the blank line after the table.
        assert forall|m: int| 0 <= m < bdl implies t.subrange(start + hdl, start + hdl + bdl)[m]
            == bd[m] by {
            assert(t[i + (pb + hdl + m)] == doc[pb + hdl + m]);
            assert(doc[pb + hdl + m] == bd[m]);
        }
        assert(t.subrange(start + hdl, start + hdl + bdl) =~= bd);
        assert(doc[pb + tbl] == crlf()[0]);
        assert(t[start + tbl] == CR);
        lemma_body_round_trip(t, start + hdl, s0.entries, s0.gaps);
        // The blank line, a complete CR LF pair, is skipped; the rest of
        // the document follows.
        assert(doc[pb + tbl + 1] == crlf()[1]);
        assert(t[start + tbl + 1] == LF);
        let next = start + tbl + 2;
        assert forall|m: int| 0 <= m < t.len() - next implies t.subrange(next, t.len() as int)[m]
            == rest[m] by {
            assert(t[i + (pb + tbl + 2 + m)] == doc[pb + tbl + 2 + m]);
            assert(doc[pb + tbl + 2 + m] == rest[m]);
        }
        assert(t.subrange(next, t.len() as int) =~= rest);
        lemma_doc_round_trip(t, next, ts.drop_first(), pads.drop_first());
        // Stitch the unfoldings together.
        assert(spec_parse_tables(t, start + tbl) == spec_parse_tables(t, next));
        let ms_rest = spec_parse_tables(t, next)->Ok_0;
        let m0 = entries_map(s0.entries);
        assert(spec_parse_tables(t, start) matches Ok(ms) && ms == seq![m0] + ms_rest);
        assert forall|x: int| 0 <= x < ts.len() implies (seq![m0] + ms_rest)[x] == entries_map(
            #[trigger] ts[x].entries,
        ) by {
            if x > 0 {
                assert(ms_rest[x - 1] == entries_map(ts.drop_first()[x - 1].entries));
                assert(ts.drop_first()[x - 1] == ts[x]);
            }
        }
    }
}

/// Serializing any sequence of well-formed tables and parsing the result
/// yields the same number of tables, each with exactly the key-to-value
/// map of its entries, in the order the tables were written — whatever the
/// separator widths, the space runs, and the number of blank lines around
/// each table.
pub proof fn lemma_round_trip(ts: Seq<TableSketch>, pads: Seq<nat>)
    requires
        forall|x: int| 0 <= x < ts.len() ==> wf_sketch(#[trigger] ts[x]),
        pads.len() == ts.len() + 1,
    ensures
        spec_parse_tables(ser_doc(ts, pads), 0) matches Ok(ms) && ms.len() == ts.len() && forall|
            x: int,
        | 0 <= x < ts.len() ==> ms[x] == entries_map(#[trigger] ts[x].entries),
{
    let t = ser_doc(ts, pads);
    assert(t.subrange(0, t.len() as int) =~= t);
    lemma_doc_round_trip(t, 0, ts, pads);
}

/// Blank lines inserted before, between or after tables change nothing:
/// two serializations of the same tables that differ only in their blank
/// lines parse to the same result.
pub proof fn lemma_blank_lines_immaterial(ts: Seq<TableSketch>, pads1: Seq<nat>, pads2: Seq<nat>)
    requires
        forall|x: int| 0 <= x < ts.len() ==> wf_sketch(#[trigger] ts[x]),
        pads1.len() == ts.len() + 1,
        pads2.len() == ts.len() + 1,
    ensures
        spec_parse_tables(ser_doc(ts, pads1), 0) == spec_parse_tables(ser_doc(ts, pads2), 0),
{
    lemma_round_trip(ts, pads1);
    lemma_round_trip(ts, pads2);
    let ms1 = spec_parse_tables(ser_doc(ts, pads1), 0)->Ok_0;
    let ms2 = spec_parse_tables(ser_doc(ts, pads2), 0)->Ok_0;
    assert forall|x: int| 0 <= x < ms1.len() implies ms1[x] == ms2[x] by {
        assert(ms1[x] == entries_map(ts[x].entries));
        assert(ms2[x] == entries_map(ts[x].entries));
    }
    assert(ms1 =~= ms2);
}

/// Any run of blank lines (complete CR LF pairs) before, between or after
/// tables is skipped and contributes nothing to the parse.
pub proof fn lemma_blank_run_skipped(t: Seq<u8>, i: int, j: int)
    requires
        0 <= i <= j <= t.len(),
        (j - i) % 2 == 0,
        forall|m: int| i <= m < j ==> t[m] == (if (m - i) % 2 == 0 { CR } else { LF }),
    ensures
        spec_parse_tables(t, i) == spec_parse_tables(t, j),
    decreases j - i,
{
    if i < j {
        assert(t[i] == CR);
        assert(t[i + 1] == LF);
        assert forall|m: int| i + 2 <= m < j implies t[m] == (if (m - (i + 2)) % 2 == 0 {
            CR
        } else {
            LF
        }) by {
            assert(t[m] == (if (m - i) % 2 == 0 { CR } else { LF }));
            assert((m - i) % 2 == (m - (i + 2)) % 2);
        }
        lemma_blank_run_skipped(t, i + 2, j);
    }
}

/// A key stands in the entries' map exactly when some entry carries it.
pub proof fn lemma_entries_map_dom(es: Seq<(Seq<char>, Seq<char>)>, key: Seq<char>)
    ensures
        entries_map(es).dom().contains(key) <==> exists|n: int|
            0 <= n < es.len() && (#[trigger] es[n].0) == key,
    decreases es.len(),
{
    if es.len() > 0 {
        lemma_entries_map_dom(es.drop_first(), key);
        if entries_map(es).dom().contains(key) {
            if es[0].0 == key {
            } else {
                let n = choose|n: int|
                    0 <= n < es.drop_first().len() && (#[trigger] es.drop_first()[n].0) == key;
                assert(es[n + 1].0 == key);
            }
        }
        if exists|n: int| 0 <= n < es.len() && (#[trigger] es[n].0) == key {
            let n = choose|n: int| 0 <= n < es.len() && (#[trigger] es[n].0) == key;
            if n > 0 {
                assert(es.drop_first()[n - 1].0 == key);
            }
        }
    }
}

/// A body that carries one key several times yields that key bound to the
/// value of the last entry that carries it.
pub proof fn lemma_duplicate_key_last_wins(es: Seq<(Seq<char>, Seq<char>)>, j: int)
    requires
        0 <= j < es.len(),
        forall|m: int| j < m < es.len() ==> (#[trigger] es[m].0) != es[j].0,
    ensures
        entries_map(es).dom().contains(es[j].0),
        entries_map(es)[es[j].0] == es[j].1,
    decreases es.len(),
{
    if j == 0 {
        lemma_entries_map_dom(es.drop_first(), es[0].0);
        assert forall|n: int| 0 <= n < es.drop_first().len() implies (#[trigger] es.drop_first()[n]).0 != es[0].0 by {
            assert(es.drop_first()[n] == es[n + 1]);
        }
    } else {
        assert forall|m: int| j - 1 < m < es.drop_first().len() implies (#[trigger] es.drop_first()[m]).0 != es.drop_first()[j - 1].0 by {
            assert(es.drop_first()[m] == es[m + 1]);
            assert(es.drop_first()[j - 1] == es[j]);
        }
        lemma_duplicate_key_last_wins(es.drop_first(), j - 1);
    }
}

/// A header line that reaches the end of the input without its CR LF is a
/// structural error at the end of the input, never a truncated table.
pub proof fn lemma_unterminated_header_fatal(t: Seq<u8>, i: int)
    requires
        0 <= i <= t.len(),
        forall|m: int| i <= m < t.len() ==> t[m] != CR,
    ensures
        spec_header(t, i) matches Err(e) && e == (ParseError::StructuralMismatch {
            expected: Expected::Byte(CR),
            actual: None,
            offset: t.len() as usize,
        }),
{
    lemma_find_byte_is(t, i, t.len() as int, CR);
}

/// A header line whose CR is not followed by LF is a structural error at
/// the byte after the CR, never a truncated table.
pub proof fn lemma_header_bad_line_feed_fatal(t: Seq<u8>, i: int, he: int)
    requires
        0 <= i <= he,
        he + 1 < t.len(),
        forall|m: int| i <= m < he ==> t[m] != CR,
        t[he] == CR,
        t[he + 1] != LF,
    ensures
        spec_header(t, i) matches Err(e) && e == (ParseError::StructuralMismatch {
            expected: Expected::Byte(LF),
            actual: Some(t[he + 1]),
            offset: (he + 1) as usize,
        }),
{
    lemma_find_byte_is(t, i, he, CR);
}

/// A separator line that reaches the end of the input without its CR LF is
/// a structural error at the end of the input, never a truncated table.
pub proof fn lemma_unterminated_separator_fatal(t: Seq<u8>, i: int, he: int)
    requires
        0 <= i <= he,
        he + 2 <= t.len(),
        forall|m: int| i <= m < he ==> t[m] != CR,
        t[he] == CR,
        t[he + 1] == LF,
        forall|m: int| he + 2 <= m < t.len() ==> t[m] == DASH,
    ensures
        spec_header(t, i) matches Err(e) && e == (ParseError::StructuralMismatch {
            expected: Expected::Byte(CR),
            actual: None,
            offset: t.len() as usize,
        }),
{
    lemma_find_byte_is(t, i, he, CR);
    lemma_skip_byte_run_is(t, he + 2, t.len() as int, DASH);
}

/// A value line that reaches the end of the input without its CR LF is a
/// structural error at the end of the input, never a truncated entry.
pub proof fn lemma_unterminated_value_fatal(t: Seq<u8>, i: int, ke: int, vs: int)
    requires
        0 <= i < ke,
        ke < vs <= t.len(),
        forall|m: int| i <= m < ke ==> t[m] != SP,
        t[ke] == SP,
        forall|m: int| ke + 1 <= m < vs ==> t[m] == SP,
        vs < t.len() ==> t[vs] != SP,
        forall|m: int| vs <= m < t.len() ==> t[m] != CR,
    ensures
        spec_content_entry(t, i) matches Err(e) && e == (ParseError::StructuralMismatch {
            expected: Expected::Byte(CR),
            actual: None,
            offset: t.len() as usize,
        }),
{
    lemma_find_byte_is(t, i, ke, SP);
    lemma_skip_byte_run_is(t, ke + 1, vs, SP);
    lemma_find_byte_is(t, vs, t.len() as int, CR);
}

} // verus!
