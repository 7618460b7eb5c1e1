//! Parsing of the transducer file header.
//!
//! Two parts:
//!
//! 1. The optional outer **HFST3 wrapper**: `"HFST"` `\0` + `u16` length of a
//!    property block + `\0` + the block of `key\0value\0` pairs. The `type`
//!    key is `HFST_OL` (unweighted) or `HFST_OLW` (weighted).
//! 2. The **optimized-lookup header**: `u16` input-symbol count, `u16` total
//!    symbol count, then 13 little-endian `u32` fields (table sizes,
//!    state/transition counts, and nine boolean property flags).

use vstd::prelude::*;
use vstd::slice::slice_subrange;

use crate::error::{format_error, is_format_error, Error, Result};
use crate::text::{lossy_string, utf8_lossy};

verus! {

// ---------------------------------------------------------------------------
// The byte model of the format.
// ---------------------------------------------------------------------------

/// The little-endian `u16` stored at `p`.
pub open spec fn le16(b: Seq<u8>, p: int) -> int {
    b[p] as int + 256 * (b[p + 1] as int)
}

/// The little-endian `u32` stored at `p`.
pub open spec fn le32(b: Seq<u8>, p: int) -> int {
    b[p] as int + 256 * (b[p + 1] as int) + 65536 * (b[p + 2] as int) + 16777216 * (
    b[p + 3] as int)
}

/// Offset of the first zero byte of `s`, or `s.len()` when it has none.
pub open spec fn next_zero(s: Seq<u8>) -> nat
    decreases s.len(),
{
    if s.len() == 0 {
        0
    } else if s[0] == 0 {
        0
    } else {
        1 + next_zero(s.drop_first())
    }
}

/// The pieces of `s` between zero bytes, as `<[u8]>::split` yields them:
/// one more piece than there are zeros, empty pieces included.
pub open spec fn zero_split(s: Seq<u8>) -> Seq<Seq<u8>>
    decreases s.len(),
{
    let z = next_zero(s);
    if z >= s.len() {
        seq![s]
    } else {
        seq![s.take(z as int)] + zero_split(s.skip((z + 1) as int))
    }
}

/// How loading a transducer can fail.
pub enum ParseFailure {
    /// The bytes ran out.
    EndOfFile,
    /// `"HFST"` was not followed by a zero byte.
    Cookie,
    /// The wrapper's `type` is neither `HFST_OL` nor `HFST_OLW`.
    TransducerType(Seq<char>),
    /// A symbol string has no terminating zero byte.
    UnterminatedSymbol,
}

/// The text that `format!("{:?}", ty)` makes of `ty`: the text in double
/// quotes, with quotes, backslashes and control characters escaped.
pub uninterp spec fn debug_quoted(ty: Seq<char>) -> Seq<char>;

/// Quotes `ty` as `{:?}` does, with `format!`.
///
/// Trusted: the result is `debug_quoted(ty)`; the exact quoting and escaping
/// rules are left to the name.
#[verifier::external_body]
fn debug_quote(ty: &str) -> (m: String)
    ensures
        m@ == debug_quoted(ty@),
{
    format!("{:?}", ty)
}

/// The message for an unexpected transducer type `ty`.
pub open spec fn type_error_text(ty: Seq<char>) -> Seq<char> {
    "unexpected transducer type "@ + debug_quoted(ty) + " (want HFST_OL or HFST_OLW)"@
}

/// Builds the message for an unexpected transducer type `ty`.
fn type_error_message(ty: &str) -> (m: String)
    ensures
        m@ == type_error_text(ty@),
{
    let q = debug_quote(ty);
    let m = String::from_str("unexpected transducer type ").concat(q.as_str());
    m.concat(" (want HFST_OL or HFST_OLW)")
}

/// The message carried by the format error for each failure.
pub open spec fn failure_message(f: ParseFailure) -> Seq<char> {
    match f {
        ParseFailure::EndOfFile => "unexpected end of file"@,
        ParseFailure::Cookie => "malformed HFST cookie"@,
        ParseFailure::TransducerType(ty) => type_error_text(ty),
        ParseFailure::UnterminatedSymbol => "unterminated symbol string"@,
    }
}

/// `e` is the error reported for the failure `f`.
pub open spec fn reports(e: Error, f: ParseFailure) -> bool {
    is_format_error(e, failure_message(f))
}

/// The four bytes `"HFST"`.
pub open spec fn hfst_magic() -> Seq<u8> {
    seq![0x48u8, 0x46u8, 0x53u8, 0x54u8]
}

/// The bytes at `p` begin with `"HFST"`.
pub open spec fn has_wrapper(b: Seq<u8>, p: int) -> bool {
    b.len() >= p + 4 && b.subrange(p, p + 4) == hfst_magic()
}

/// Reads the `key\0value\0` pairs of a property block: the last `version` and
/// the last `type` values, starting from `ver` and `ty`.
pub open spec fn scan_pairs(pieces: Seq<Seq<u8>>, ver: Seq<char>, ty: Seq<char>) -> (
    Seq<char>,
    Seq<char>,
)
    decreases pieces.len(),
{
    if pieces.len() < 2 {
        (ver, ty)
    } else {
        let key = utf8_lossy(pieces[0]);
        let val = utf8_lossy(pieces[1]);
        if key == "version"@ {
            scan_pairs(pieces.skip(2), val, ty)
        } else if key == "type"@ {
            scan_pairs(pieces.skip(2), ver, val)
        } else {
            scan_pairs(pieces.skip(2), ver, ty)
        }
    }
}

/// The HFST3 wrapper at `p`: where the optimized-lookup header begins, the
/// `version` text, and whether the wrapper says the transducer is weighted
/// (`None` when there is no wrapper).
pub open spec fn spec_wrapper(b: Seq<u8>, p: int) -> core::result::Result<
    (int, Seq<char>, Option<bool>),
    ParseFailure,
> {
    if !has_wrapper(b, p) {
        Ok((p, Seq::empty(), None))
    } else if b.len() < p + 5 {
        Err(ParseFailure::EndOfFile)
    } else if b[p + 4] != 0 {
        Err(ParseFailure::Cookie)
    } else if b.len() < p + 8 {
        Err(ParseFailure::EndOfFile)
    } else if b.len() < p + 8 + le16(b, p + 5) {
        Err(ParseFailure::EndOfFile)
    } else {
        let end = p + 8 + le16(b, p + 5);
        let (ver, ty) = scan_pairs(zero_split(b.subrange(p + 8, end)), Seq::empty(), Seq::empty());
        if ty == "HFST_OLW"@ {
            Ok((end, ver, Some(true)))
        } else if ty == "HFST_OL"@ {
            Ok((end, ver, Some(false)))
        } else {
            Err(ParseFailure::TransducerType(ty))
        }
    }
}

/// Length in bytes of the optimized-lookup header.
pub open spec fn ol_header_len() -> int {
    56
}

/// The whole header at `p`: where the optimized-lookup header begins, the
/// version text and the wrapper's weighted flag.
pub open spec fn spec_header(b: Seq<u8>, p: int) -> core::result::Result<
    (int, Seq<char>, Option<bool>),
    ParseFailure,
> {
    match spec_wrapper(b, p) {
        Err(f) => Err(f),
        Ok((q, ver, w)) => if b.len() < q + ol_header_len() {
            Err(ParseFailure::EndOfFile)
        } else {
            Ok((q, ver, w))
        },
    }
}

// ---------------------------------------------------------------------------
// The cursor.
// ---------------------------------------------------------------------------

/// A little-endian byte cursor over the transducer file.
pub(crate) struct Cursor<'a> {
    pub(crate) buf: &'a [u8],
    pub(crate) pos: usize,
}

impl<'a> Cursor<'a> {
    /// The position lies within the buffer.
    pub(crate) open spec fn wf(&self) -> bool {
        self.pos <= self.buf@.len()
    }

    pub(crate) fn new(buf: &'a [u8]) -> (c: Cursor<'a>)
        ensures
            c.buf@ == buf@,
            c.pos == 0,
    {
        Cursor { buf, pos: 0 }
    }

    /// The bytes not read yet.
    pub(crate) fn remaining(&self) -> (r: &'a [u8])
        requires
            self.wf(),
        ensures
            r@ == self.buf@.skip(self.pos as int),
    {
        slice_subrange(self.buf, self.pos, self.buf.len())
    }

    /// Reads the next `n` bytes.
    pub(crate) fn take(&mut self, n: usize) -> (res: Result<&'a [u8]>)
        requires
            old(self).wf(),
        ensures
            final(self).buf@ == old(self).buf@,
            final(self).wf(),
            match res {
                Ok(s) => {
                    &&& old(self).pos + n <= old(self).buf@.len()
                    &&& s@ == old(self).buf@.subrange(
                        old(self).pos as int,
                        old(self).pos + n,
                    )
                    &&& final(self).pos == old(self).pos + n
                },
                Err(e) => {
                    &&& old(self).pos + n > old(self).buf@.len()
                    &&& final(self).pos == old(self).pos
                    &&& reports(e, ParseFailure::EndOfFile)
                },
            },
    {
        if n <= self.buf.len() - self.pos {
            let end = self.pos + n;
            let s = slice_subrange(self.buf, self.pos, end);
            self.pos = end;
            Ok(s)
        } else {
            Err(format_error("unexpected end of file"))
        }
    }

    /// Reads one byte.
    pub(crate) fn u8(&mut self) -> (res: Result<u8>)
        requires
            old(self).wf(),
        ensures
            final(self).buf@ == old(self).buf@,
            final(self).wf(),
            match res {
                Ok(v) => {
                    &&& old(self).pos + 1 <= old(self).buf@.len()
                    &&& v == old(self).buf@[old(self).pos as int]
                    &&& final(self).pos == old(self).pos + 1
                },
                Err(e) => {
                    &&& old(self).pos + 1 > old(self).buf@.len()
                    &&& final(self).pos == old(self).pos
                    &&& reports(e, ParseFailure::EndOfFile)
                },
            },
    {
        let b = self.take(1)?;
        Ok(b[0])
    }

    /// Reads a little-endian `u16`.
    pub(crate) fn u16(&mut self) -> (res: Result<u16>)
        requires
            old(self).wf(),
        ensures
            final(self).buf@ == old(self).buf@,
            final(self).wf(),
            match res {
                Ok(v) => {
                    &&& old(self).pos + 2 <= old(self).buf@.len()
                    &&& v == le16(old(self).buf@, old(self).pos as int)
                    &&& final(self).pos == old(self).pos + 2
                },
                Err(e) => {
                    &&& old(self).pos + 2 > old(self).buf@.len()
                    &&& final(self).pos == old(self).pos
                    &&& reports(e, ParseFailure::EndOfFile)
                },
            },
    {
        let b = self.take(2)?;
        Ok(b[0] as u16 + 256 * (b[1] as u16))
    }

    /// Reads a little-endian `u32`.
    pub(crate) fn u32(&mut self) -> (res: Result<u32>)
        requires
            old(self).wf(),
        ensures
            final(self).buf@ == old(self).buf@,
            final(self).wf(),
            match res {
                Ok(v) => {
                    &&& old(self).pos + 4 <= old(self).buf@.len()
                    &&& v == le32(old(self).buf@, old(self).pos as int)
                    &&& final(self).pos == old(self).pos + 4
                },
                Err(e) => {
                    &&& old(self).pos + 4 > old(self).buf@.len()
                    &&& final(self).pos == old(self).pos
                    &&& reports(e, ParseFailure::EndOfFile)
                },
            },
    {
        let b = self.take(4)?;
        Ok(b[0] as u32 + 256 * (b[1] as u32) + 65536 * (b[2] as u32) + 16777216 * (b[3] as u32))
    }

    /// Reads the four bytes of a little-endian `f32`, as its bit pattern.
    pub(crate) fn f32_bits(&mut self) -> (res: Result<u32>)
        requires
            old(self).wf(),
        ensures
            final(self).buf@ == old(self).buf@,
            final(self).wf(),
            match res {
                Ok(v) => {
                    &&& old(self).pos + 4 <= old(self).buf@.len()
                    &&& v == le32(old(self).buf@, old(self).pos as int)
                    &&& final(self).pos == old(self).pos + 4
                },
                Err(e) => {
                    &&& old(self).pos + 4 > old(self).buf@.len()
                    &&& final(self).pos == old(self).pos
                    &&& reports(e, ParseFailure::EndOfFile)
                },
            },
    {
        self.u32()
    }

    /// A boolean property flag, stored as a little-endian `u32` (0 / 1).
    fn flag(&mut self) -> (res: Result<bool>)
        requires
            old(self).wf(),
        ensures
            final(self).buf@ == old(self).buf@,
            final(self).wf(),
            match res {
                Ok(v) => {
                    &&& old(self).pos + 4 <= old(self).buf@.len()
                    &&& v == (le32(old(self).buf@, old(self).pos as int) != 0)
                    &&& final(self).pos == old(self).pos + 4
                },
                Err(e) => {
                    &&& old(self).pos + 4 > old(self).buf@.len()
                    &&& final(self).pos == old(self).pos
                    &&& reports(e, ParseFailure::EndOfFile)
                },
            },
    {
        let v = self.u32()?;
        Ok(v != 0)
    }
}

} // verus!

verus! {

// ---------------------------------------------------------------------------
// Zero bytes and the pieces between them.
// ---------------------------------------------------------------------------

/// `next_zero` is the offset of the first zero byte, where there is one.
pub(crate) proof fn lemma_next_zero(s: Seq<u8>, k: int)
    requires
        0 <= k <= s.len(),
        forall|i: int| 0 <= i < k ==> s[i] != 0,
        k == s.len() || s[k] == 0,
    ensures
        next_zero(s) == k,
    decreases s.len(),
{
    if s.len() > 0 && k > 0 {
        assert forall|i: int| 0 <= i < k - 1 implies s.drop_first()[i] != 0 by {
            assert(s.drop_first()[i] == s[i + 1]);
        }
        lemma_next_zero(s.drop_first(), k - 1);
    }
}

/// The position of the first zero byte at or after `from`, or the length of
/// `s` when there is none.
pub(crate) fn find_zero(s: &[u8], from: usize) -> (k: usize)
    requires
        from <= s@.len(),
    ensures
        k == from + next_zero(s@.skip(from as int)),
        k <= s@.len(),
{
    let mut k = from;
    while k < s.len() && s[k] != 0
        invariant
            from <= k <= s@.len(),
            forall|i: int| from <= i < k ==> s@[i] != 0,
        decreases s@.len() - k,
    {
        k = k + 1;
    }
    proof {
        let t = s@.skip(from as int);
        assert forall|i: int| 0 <= i < k - from implies t[i] != 0 by {
            assert(t[i] == s@[from + i]);
        }
        lemma_next_zero(t, k - from);
    }
    k
}

/// The pieces of `block` that a split iterator still has to yield, when it
/// stands at `start` (or is exhausted, when `done`).
pub open spec fn pieces_left(block: Seq<u8>, start: int, done: bool) -> Seq<Seq<u8>> {
    if done {
        Seq::empty()
    } else {
        zero_split(block.skip(start))
    }
}

/// The next piece of `block` between zero bytes, as the bounds of a subslice.
fn next_piece(block: &[u8], start: &mut usize, done: &mut bool) -> (r: Option<(usize, usize)>)
    requires
        *old(start) <= block@.len(),
    ensures
        *final(start) <= block@.len(),
        match r {
            None => {
                &&& pieces_left(block@, *old(start) as int, *old(done)).len() == 0
                &&& *final(done)
            },
            Some((a, b)) => {
                &&& a <= b <= block@.len()
                &&& pieces_left(block@, *old(start) as int, *old(done)).len() > 0
                &&& pieces_left(block@, *old(start) as int, *old(done))[0] == block@.subrange(
                    a as int,
                    b as int,
                )
                &&& pieces_left(block@, *final(start) as int, *final(done)) == pieces_left(
                    block@,
                    *old(start) as int,
                    *old(done),
                ).drop_first()
                &&& (*final(done) || *final(start) > *old(start))
            },
        },
{
    if *done {
        return None;
    }
    let a = *start;
    let z = find_zero(block, a);
    let ghost rest = block@.skip(a as int);
    if z >= block.len() {
        *done = true;
        proof {
            assert(rest =~= block@.subrange(a as int, z as int));
            assert(zero_split(rest) == seq![rest]);
        }
        Some((a, z))
    } else {
        *start = z + 1;
        proof {
            assert(rest.take((z - a) as int) =~= block@.subrange(a as int, z as int));
            assert(rest.skip((z - a + 1) as int) =~= block@.skip(z + 1));
            let p = zero_split(rest);
            assert(p == seq![rest.take((z - a) as int)] + zero_split(rest.skip((z - a + 1) as int)));
            assert(p.drop_first() =~= zero_split(block@.skip(z + 1)));
        }
        Some((a, z))
    }
}

/// Parses the optional `"HFST"` wrapper. Returns `(version, weighted)`, where
/// `weighted` is `None` for a bare optimized-lookup file (no wrapper); the
/// caller then reads the weighted flag from the optimized-lookup header.
fn parse_hfst3_wrapper(c: &mut Cursor) -> (res: Result<(String, Option<bool>)>)
    requires
        old(c).wf(),
    ensures
        final(c).buf@ == old(c).buf@,
        final(c).wf(),
        match spec_wrapper(old(c).buf@, old(c).pos as int) {
            Ok((q, ver, w)) => res matches Ok((v, w2)) && v@ == ver && w2 == w && final(c).pos
                == q,
            Err(f) => res matches Err(e) && reports(e, f),
        },
{
    let ghost b = c.buf@;
    let ghost p = c.pos as int;
    let r = c.remaining();
    if r.len() < 4 || !(r[0] == 0x48 && r[1] == 0x46 && r[2] == 0x53 && r[3] == 0x54) {
        proof {
            if b.len() >= p + 4 {
                assert(r@.take(4) =~= b.subrange(p, p + 4));
                if b.subrange(p, p + 4) == hfst_magic() {
                    assert(r@[0] == b.subrange(p, p + 4)[0]);
                    assert(r@[1] == b.subrange(p, p + 4)[1]);
                    assert(r@[2] == b.subrange(p, p + 4)[2]);
                    assert(r@[3] == b.subrange(p, p + 4)[3]);
                }
            }
        }
        return Ok((String::new(), None));
    }
    proof {
        assert(b.subrange(p, p + 4) =~= hfst_magic());
    }
    c.take(4)?;
    let z = c.u8()?;
    if z != 0 {
        return Err(format_error("malformed HFST cookie"));
    }
    let len = c.u16()? as usize;
    let _pad = c.u8()?;
    let block = c.take(len)?;

    let mut version = String::new();
    let mut ttype = String::new();
    let mut start: usize = 0;
    let mut done = false;
    proof {
        assert(block@.skip(0) =~= block@);
    }
    loop
        invariant
            start <= block@.len(),
            scan_pairs(zero_split(block@), Seq::empty(), Seq::empty()) == scan_pairs(
                pieces_left(block@, start as int, done),
                version@,
                ttype@,
            ),
        ensures
            scan_pairs(zero_split(block@), Seq::empty(), Seq::empty()) == (version@, ttype@),
        decreases (if done { 0 } else { block@.len() - start + 1 }),
    {
        let ghost before = pieces_left(block@, start as int, done);
        let k = next_piece(block, &mut start, &mut done);
        let v = next_piece(block, &mut start, &mut done);
        match (k, v) {
            (Some((ka, kb)), Some((va, vb))) => {
                let key = lossy_string(slice_subrange(block, ka, kb));
                let val = lossy_string(slice_subrange(block, va, vb));
                proof {
                    assert(before.drop_first().drop_first() =~= before.skip(2));
                }
                if key == String::from_str("version") {
                    version = val;
                } else if key == String::from_str("type") {
                    ttype = val;
                }
            },
            _ => {
                break ;
            },
        }
    }
    let weighted = if ttype == String::from_str("HFST_OLW") {
        true
    } else if ttype == String::from_str("HFST_OL") {
        false
    } else {
        return Err(Error::Format(type_error_message(ttype.as_str())));
    };
    Ok((version, Some(weighted)))
}

/// Decoded transducer header.
#[derive(Debug, Clone)]
pub struct Header {
    /// `version` value from the HFST3 wrapper, e.g. `"3.3"`.
    pub version: String,
    /// True when the transducer is weighted (`type == HFST_OLW`); transitions
    /// then carry a trailing `f32` weight.
    pub weighted: bool,
    pub number_of_input_symbols: u16,
    pub number_of_symbols: u16,
    pub size_of_index_table: u32,
    pub size_of_target_table: u32,
    pub number_of_states: u32,
    pub number_of_transitions: u32,
    pub deterministic: bool,
    pub input_deterministic: bool,
    pub minimized: bool,
    pub cyclic: bool,
    pub has_epsilon_epsilon_transitions: bool,
    pub has_input_epsilon_transitions: bool,
    pub has_input_epsilon_cycles: bool,
    pub has_unweighted_input_epsilon_cycles: bool,
}

/// The fields of `h` are those of the optimized-lookup header stored at `q`,
/// with the weighted flag taken from the wrapper when there is one (`w`).
pub open spec fn header_fields(h: Header, b: Seq<u8>, q: int, w: Option<bool>) -> bool {
    &&& h.number_of_input_symbols == le16(b, q)
    &&& h.number_of_symbols == le16(b, q + 2)
    &&& h.size_of_index_table == le32(b, q + 4)
    &&& h.size_of_target_table == le32(b, q + 8)
    &&& h.number_of_states == le32(b, q + 12)
    &&& h.number_of_transitions == le32(b, q + 16)
    &&& h.weighted == match w {
        Some(x) => x,
        None => le32(b, q + 20) != 0,
    }
    &&& h.deterministic == (le32(b, q + 24) != 0)
    &&& h.input_deterministic == (le32(b, q + 28) != 0)
    &&& h.minimized == (le32(b, q + 32) != 0)
    &&& h.cyclic == (le32(b, q + 36) != 0)
    &&& h.has_epsilon_epsilon_transitions == (le32(b, q + 40) != 0)
    &&& h.has_input_epsilon_transitions == (le32(b, q + 44) != 0)
    &&& h.has_input_epsilon_cycles == (le32(b, q + 48) != 0)
    &&& h.has_unweighted_input_epsilon_cycles == (le32(b, q + 52) != 0)
}

impl Header {
    /// Parses the header from the cursor, advancing it to the first byte of
    /// the alphabet (symbol) table.
    pub(crate) fn parse(c: &mut Cursor) -> (res: Result<Header>)
        requires
            old(c).wf(),
        ensures
            final(c).buf@ == old(c).buf@,
            final(c).wf(),
            match spec_header(old(c).buf@, old(c).pos as int) {
                Ok((q, ver, w)) => res matches Ok(h) && h.version@ == ver && header_fields(
                    h,
                    old(c).buf@,
                    q,
                    w,
                ) && final(c).pos == q + ol_header_len(),
                Err(f) => res matches Err(e) && reports(e, f),
            },
    {
        let (version, wrapper_weighted) = parse_hfst3_wrapper(c)?;

        let number_of_input_symbols = c.u16()?;
        let number_of_symbols = c.u16()?;
        let size_of_index_table = c.u32()?;
        let size_of_target_table = c.u32()?;
        let number_of_states = c.u32()?;
        let number_of_transitions = c.u32()?;

        // Nine boolean flags follow, each a `u32`. The first records whether
        // the transducer is weighted. A wrapped file's `type` already said so,
        // but the flag is still consumed to keep the alphabet offset aligned;
        // a bare file has no wrapper, so this flag is the only source.
        let ol_weighted = c.flag()?;
        let weighted = match wrapper_weighted {
            Some(w) => w,
            None => ol_weighted,
        };
        let deterministic = c.flag()?;
        let input_deterministic = c.flag()?;
        let minimized = c.flag()?;
        let cyclic = c.flag()?;
        let has_epsilon_epsilon_transitions = c.flag()?;
        let has_input_epsilon_transitions = c.flag()?;
        let has_input_epsilon_cycles = c.flag()?;
        let has_unweighted_input_epsilon_cycles = c.flag()?;
        Ok(
            Header {
                version,
                weighted,
                number_of_input_symbols,
                number_of_symbols,
                size_of_index_table,
                size_of_target_table,
                number_of_states,
                number_of_transitions,
                deterministic,
                input_deterministic,
                minimized,
                cyclic,
                has_epsilon_epsilon_transitions,
                has_input_epsilon_transitions,
                has_input_epsilon_cycles,
                has_unweighted_input_epsilon_cycles,
            },
        )
    }
}

} // verus!
