//! The bytes of a bare optimized-lookup file, written from its parts, and
//! the law that loading them gives those parts back.

use vstd::prelude::*;

use crate::alphabet::cstrs;
use crate::header::{
    has_wrapper, hfst_magic, le16, le32, lemma_next_zero, next_zero, spec_header, spec_wrapper,
    Header, ParseFailure,
};
use crate::text::utf8_lossy;
use crate::transducer::{spec_layout, IndexEntry, Layout, Transducer, TransitionEntry};

verus! {

/// The two little-endian bytes of `x`.
pub open spec fn u16_bytes(x: u16) -> Seq<u8> {
    seq![(x % 256) as u8, (x / 256) as u8]
}

/// The four little-endian bytes of `x`.
pub open spec fn u32_bytes(x: u32) -> Seq<u8> {
    seq![(x % 256) as u8, ((x / 256) % 256) as u8, ((x / 65536) % 256) as u8, (x / 16777216) as u8]
}

/// Two bytes written as `u16_bytes(x)` read back as `x`.
pub proof fn u16_reads_back(b: Seq<u8>, p: int, x: u16)
    requires
        0 <= p,
        p + 2 <= b.len(),
        b.subrange(p, p + 2) == u16_bytes(x),
    ensures
        le16(b, p) == x,
{
    assert(b[p] == b.subrange(p, p + 2)[0]);
    assert(b[p + 1] == b.subrange(p, p + 2)[1]);
    assert(((x % 256) as u8) as int == x % 256);
    assert(((x / 256) as u8) as int == x / 256);
}

/// Four bytes written as `u32_bytes(x)` read back as `x`.
pub proof fn u32_reads_back(b: Seq<u8>, p: int, x: u32)
    requires
        0 <= p,
        p + 4 <= b.len(),
        b.subrange(p, p + 4) == u32_bytes(x),
    ensures
        le32(b, p) == x,
{
    let s = b.subrange(p, p + 4);
    assert(b[p] == s[0]);
    assert(b[p + 1] == s[1]);
    assert(b[p + 2] == s[2]);
    assert(b[p + 3] == s[3]);
    assert(((x % 256) as u8) as int == x % 256);
    assert((((x / 256) % 256) as u8) as int == (x / 256) % 256);
    assert((((x / 65536) % 256) as u8) as int == (x / 65536) % 256);
    assert(((x / 16777216) as u8) as int == x / 16777216);
}


/// The chunks written one after another.
pub open spec fn joined(chunks: Seq<Seq<u8>>) -> Seq<u8>
    decreases chunks.len(),
{
    if chunks.len() == 0 {
        Seq::empty()
    } else {
        joined(chunks.drop_last()) + chunks.last()
    }
}

proof fn lemma_joined_concat(a: Seq<Seq<u8>>, b: Seq<Seq<u8>>)
    ensures
        joined(a + b) == joined(a) + joined(b),
    decreases b.len(),
{
    if b.len() == 0 {
        assert(a + b =~= a);
        assert(joined(a) + Seq::<u8>::empty() =~= joined(a));
    } else {
        assert((a + b).drop_last() =~= a + b.drop_last());
        assert((a + b).last() == b.last());
        lemma_joined_concat(a, b.drop_last());
        assert((joined(a) + joined(b.drop_last())) + b.last() =~= joined(a) + (joined(b.drop_last())
            + b.last()));
    }
}

/// The chunks before chunk `k`, chunk `k`, and those after.
proof fn lemma_joined_split(chunks: Seq<Seq<u8>>, k: int)
    requires
        0 <= k < chunks.len(),
    ensures
        joined(chunks) == joined(chunks.take(k)) + chunks[k] + joined(chunks.skip(k + 1)),
{
    assert(chunks =~= chunks.take(k) + (seq![chunks[k]] + chunks.skip(k + 1)));
    lemma_joined_concat(chunks.take(k), seq![chunks[k]] + chunks.skip(k + 1));
    lemma_joined_concat(seq![chunks[k]], chunks.skip(k + 1));
    let one = seq![chunks[k]];
    assert(one.drop_last() =~= Seq::<Seq<u8>>::empty());
    assert(one.last() == chunks[k]);
    assert(joined(one.drop_last()) == Seq::<u8>::empty());
    assert(joined(one) == joined(one.drop_last()) + one.last());
    assert(joined(one) =~= chunks[k]);
    assert(joined(chunks.take(k)) + (chunks[k] + joined(chunks.skip(k + 1))) =~= joined(chunks.take(k))
        + chunks[k] + joined(chunks.skip(k + 1)));
}

/// Chunks of one size `c` take `c` bytes each.
proof fn lemma_joined_len(chunks: Seq<Seq<u8>>, c: nat)
    requires
        forall|i: int| 0 <= i < chunks.len() ==> (#[trigger] chunks[i]).len() == c,
    ensures
        joined(chunks).len() == c * chunks.len(),
    decreases chunks.len(),
{
    if chunks.len() > 0 {
        let n = chunks.len();
        lemma_joined_len(chunks.drop_last(), c);
        assert(c * (n - 1) + c == c * n) by (nonlinear_arith);
    }
}

/// The bytes `m` bytes into `b`, where `b` lies `a.len()` bytes into
/// `a + b + c`.
proof fn lemma_sub_mid(a: Seq<u8>, b: Seq<u8>, c: Seq<u8>, r: int, m: int)
    requires
        0 <= r,
        0 <= m,
        r + m <= b.len(),
    ensures
        (a + b + c).subrange(a.len() + r, a.len() + r + m) == b.subrange(r, r + m),
{
    assert((a + b + c).subrange(a.len() + r, a.len() + r + m) =~= b.subrange(r, r + m));
}


/// The thirteen `u32` words of the header after its two counts of symbols:
/// the table sizes, the state and transition counts, and the nine flags.
pub open spec fn header_words(h: Header) -> Seq<u32> {
    seq![
        h.size_of_index_table,
        h.size_of_target_table,
        h.number_of_states,
        h.number_of_transitions,
        if h.weighted { 1u32 } else { 0u32 },
        if h.deterministic { 1u32 } else { 0u32 },
        if h.input_deterministic { 1u32 } else { 0u32 },
        if h.minimized { 1u32 } else { 0u32 },
        if h.cyclic { 1u32 } else { 0u32 },
        if h.has_epsilon_epsilon_transitions { 1u32 } else { 0u32 },
        if h.has_input_epsilon_transitions { 1u32 } else { 0u32 },
        if h.has_input_epsilon_cycles { 1u32 } else { 0u32 },
        if h.has_unweighted_input_epsilon_cycles { 1u32 } else { 0u32 },
    ]
}

/// The 56-byte optimized-lookup header holding the fields of `h`.
pub open spec fn header_block(h: Header) -> Seq<u8> {
    u16_bytes(h.number_of_input_symbols) + u16_bytes(h.number_of_symbols) + joined(
        Seq::new(13, |i: int| u32_bytes(header_words(h)[i])),
    )
}

/// Each symbol string followed by its terminating zero byte.
pub open spec fn symbol_chunks(syms: Seq<Seq<u8>>) -> Seq<Seq<u8>> {
    Seq::new(syms.len(), |i: int| syms[i] + seq![0u8])
}

/// The six bytes of an index-table entry.
pub open spec fn index_chunks(idx: Seq<IndexEntry>) -> Seq<Seq<u8>> {
    Seq::new(idx.len(), |i: int| u16_bytes(idx[i].input) + u32_bytes(idx[i].target))
}

/// The bytes of a transition-table entry: eight, or twelve with its weight.
pub open spec fn transition_chunks(tt: Seq<TransitionEntry>, weighted: bool) -> Seq<Seq<u8>> {
    Seq::new(
        tt.len(),
        |i: int|
            u16_bytes(tt[i].input) + u16_bytes(tt[i].output) + u32_bytes(tt[i].target) + if weighted {
                u32_bytes(tt[i].weight)
            } else {
                Seq::empty()
            },
    )
}

/// A bare optimized-lookup file: the header, the symbol strings, the index
/// table and the transition table.
pub open spec fn bare_file(
    h: Header,
    syms: Seq<Seq<u8>>,
    idx: Seq<IndexEntry>,
    tt: Seq<TransitionEntry>,
) -> Seq<u8> {
    header_block(h) + joined(symbol_chunks(syms)) + joined(index_chunks(idx)) + joined(
        transition_chunks(tt, h.weighted),
    )
}

/// The parts fit in a bare file: the header counts them, no symbol string
/// holds a zero byte, and the file does not begin with `"HFST"`.
pub open spec fn writable(
    h: Header,
    syms: Seq<Seq<u8>>,
    idx: Seq<IndexEntry>,
    tt: Seq<TransitionEntry>,
) -> bool {
    &&& syms.len() == h.number_of_symbols
    &&& idx.len() == h.size_of_index_table
    &&& tt.len() == h.size_of_target_table
    &&& forall|i: int| 0 <= i < syms.len() ==> !(#[trigger] syms[i]).contains(0u8)
    &&& !(h.number_of_input_symbols == 0x4648 && h.number_of_symbols == 0x5453)
}

/// Chunk `k` of chunks of one size `c`, lying `pre.len()` bytes into a file.
proof fn lemma_fixed_chunk(pre: Seq<u8>, chunks: Seq<Seq<u8>>, post: Seq<u8>, c: nat, k: int)
    requires
        0 <= k < chunks.len(),
        forall|i: int| 0 <= i < chunks.len() ==> (#[trigger] chunks[i]).len() == c,
    ensures
        (pre + joined(chunks) + post).subrange(pre.len() + c * k, pre.len() + c * k + c)
            == chunks[k],
        joined(chunks).len() == c * chunks.len(),
{
    lemma_joined_len(chunks, c);
    lemma_joined_split(chunks, k);
    let before = chunks.take(k);
    assert forall|i: int| 0 <= i < before.len() implies (#[trigger] before[i]).len() == c by {
        assert(before[i] == chunks[i]);
    }
    lemma_joined_len(before, c);
    let b = pre + joined(chunks) + post;
    assert(b =~= (pre + joined(before)) + chunks[k] + (joined(chunks.skip(k + 1)) + post));
    lemma_sub_mid(pre + joined(before), chunks[k], joined(chunks.skip(k + 1)) + post, 0, c as int);
    assert(chunks[k].subrange(0, c as int) =~= chunks[k]);
}

/// Reading the header fields of a bare file.
proof fn lemma_header_reads(h: Header, rest: Seq<u8>)
    ensures
        header_block(h).len() == 56,
        le16(header_block(h) + rest, 0) == h.number_of_input_symbols,
        le16(header_block(h) + rest, 2) == h.number_of_symbols,
        forall|i: int|
            0 <= i < 13 ==> le32(header_block(h) + rest, 4 + 4 * i) == #[trigger] header_words(h)[i],
{
    let words = header_words(h);
    let chunks = Seq::new(13, |i: int| u32_bytes(words[i]));
    let pre = u16_bytes(h.number_of_input_symbols) + u16_bytes(h.number_of_symbols);
    let b = header_block(h) + rest;
    assert(b =~= pre + joined(chunks) + rest);
    lemma_joined_len(chunks, 4);
    assert(b.subrange(0, 2) =~= u16_bytes(h.number_of_input_symbols));
    u16_reads_back(b, 0, h.number_of_input_symbols);
    assert(b.subrange(2, 4) =~= u16_bytes(h.number_of_symbols));
    u16_reads_back(b, 2, h.number_of_symbols);
    assert forall|i: int| 0 <= i < 13 implies le32(b, 4 + 4 * i) == #[trigger] words[i] by {
        lemma_fixed_chunk(pre, chunks, rest, 4, i);
        u32_reads_back(b, 4 + 4 * i, words[i]);
    }
}

/// Reading the symbol strings of a bare file back.
proof fn lemma_symbols_read(pre: Seq<u8>, syms: Seq<Seq<u8>>, post: Seq<u8>, k: nat)
    requires
        k <= syms.len(),
        forall|i: int| 0 <= i < syms.len() ==> !(#[trigger] syms[i]).contains(0u8),
    ensures
        cstrs(pre + joined(symbol_chunks(syms)) + post, pre.len() as int, k) == Ok::<
            (Seq<Seq<u8>>, int),
            ParseFailure,
        >((syms.take(k as int), (pre.len() + joined(symbol_chunks(syms).take(k as int)).len()) as int)),
    decreases k,
{
    let ch = symbol_chunks(syms);
    let b = pre + joined(ch) + post;
    if k == 0 {
        assert(syms.take(0) =~= Seq::<Seq<u8>>::empty());
        assert(ch.take(0) =~= Seq::<Seq<u8>>::empty());
    } else {
        let j = (k - 1) as int;
        lemma_symbols_read(pre, syms, post, (k - 1) as nat);
        let q = (pre.len() + joined(ch.take(j)).len()) as int;
        lemma_joined_split(ch, j);
        let s = syms[j];
        assert(ch[j] == s + seq![0u8]);
        let tail = joined(ch.skip(j + 1)) + post;
        assert(b =~= (pre + joined(ch.take(j))) + (s + seq![0u8]) + tail);
        let rest = b.skip(q);
        assert(rest =~= (s + seq![0u8]) + tail);
        assert forall|i: int| 0 <= i < s.len() implies rest[i] != 0 by {
            assert(rest[i] == s[i]);
            if s[i] == 0 {
                assert(s.contains(0u8));
            }
        }
        lemma_next_zero(rest, s.len() as int);
        assert(b.subrange(q, q + s.len()) =~= s);
        assert(ch.take(k as int).drop_last() =~= ch.take(j));
        assert(ch.take(k as int).last() == ch[j]);
        assert(syms.take(j).push(s) =~= syms.take(k as int));
    }
}

/// The layout of a bare file written from its parts.
pub open spec fn bare_layout(h: Header, syms: Seq<Seq<u8>>, idx: Seq<IndexEntry>) -> Layout {
    let p2: int = 56 + joined(symbol_chunks(syms)).len() as int;
    let p3: int = p2 + 6 * idx.len();
    Layout {
        header_start: 0,
        version: Seq::empty(),
        wrapper_weighted: None,
        weighted: h.weighted,
        raw_symbols: syms,
        index_start: p2,
        transition_start: p3,
        end: p3 + (if h.weighted {
            12int
        } else {
            8int
        }) * h.size_of_target_table,
    }
}

/// A bare file written from a header, symbol strings and tables reads back
/// with that layout: no wrapper, the header's weighted flag, the symbol
/// strings as written, and the tables right after them, ending where the
/// file ends.
pub proof fn bare_file_reads_back(
    h: Header,
    syms: Seq<Seq<u8>>,
    idx: Seq<IndexEntry>,
    tt: Seq<TransitionEntry>,
)
    requires
        writable(h, syms, idx, tt),
    ensures
        spec_layout(bare_file(h, syms, idx, tt)) == Ok::<Layout, ParseFailure>(
            bare_layout(h, syms, idx),
        ),
        bare_layout(h, syms, idx).end == bare_file(h, syms, idx, tt).len(),
{
    let hb = header_block(h);
    let sb = joined(symbol_chunks(syms));
    let ib = joined(index_chunks(idx));
    let w: nat = if h.weighted { 12 } else { 8 };
    let tch = transition_chunks(tt, h.weighted);
    let tb = joined(tch);
    let b = bare_file(h, syms, idx, tt);
    lemma_header_reads(h, sb + ib + tb);
    assert(b =~= hb + (sb + ib + tb));
    assert(header_words(h)[0] == h.size_of_index_table);
    assert(header_words(h)[1] == h.size_of_target_table);
    assert(header_words(h)[4] == (if h.weighted { 1u32 } else { 0u32 }));
    assert(le32(b, 4 + 4 * 0int) == header_words(h)[0]);
    assert(le32(b, 4 + 4 * 1int) == header_words(h)[1]);
    assert(le32(b, 4 + 4 * 4int) == header_words(h)[4]);
    // no wrapper
    if has_wrapper(b, 0) {
        assert(b.subrange(0, 4) == hfst_magic());
        assert(b[0] == b.subrange(0, 4)[0]);
        assert(b[1] == b.subrange(0, 4)[1]);
        assert(b[2] == b.subrange(0, 4)[2]);
        assert(b[3] == b.subrange(0, 4)[3]);
        assert(false);
    }
    assert(spec_wrapper(b, 0) == Ok::<(int, Seq<char>, Option<bool>), ParseFailure>((0, Seq::empty(), None)));
    // symbols
    lemma_symbols_read(hb, syms, ib + tb, h.number_of_symbols as nat);
    assert(b =~= hb + sb + (ib + tb));
    assert(syms.take(syms.len() as int) =~= syms);
    assert(symbol_chunks(syms).take(syms.len() as int) =~= symbol_chunks(syms));
    // tables
    let ich = index_chunks(idx);
    assert forall|i: int| 0 <= i < ich.len() implies (#[trigger] ich[i]).len() == 6 by {}
    lemma_joined_len(ich, 6);
    assert forall|i: int| 0 <= i < tch.len() implies (#[trigger] tch[i]).len() == w by {}
    lemma_joined_len(tch, w);
}

/// Bytes `r` to `r + m` of chunk `k` of chunks of one size `c`, lying
/// `pre.len()` bytes into a file.
proof fn lemma_in_chunk(
    pre: Seq<u8>,
    chunks: Seq<Seq<u8>>,
    post: Seq<u8>,
    c: nat,
    k: int,
    r: int,
    m: int,
)
    requires
        0 <= k < chunks.len(),
        forall|i: int| 0 <= i < chunks.len() ==> (#[trigger] chunks[i]).len() == c,
        0 <= r,
        0 <= m,
        r + m <= c,
    ensures
        (pre + joined(chunks) + post).subrange(pre.len() + c * k + r, pre.len() + c * k + r + m)
            == chunks[k].subrange(r, r + m),
        pre.len() + c * k + r + m <= (pre + joined(chunks) + post).len(),
{
    lemma_fixed_chunk(pre, chunks, post, c, k);
    let n = chunks.len();
    assert(c * k + c <= c * n) by (nonlinear_arith)
        requires
            0 <= k < n,
    ;
    let b = pre + joined(chunks) + post;
    let p = pre.len() + c * k;
    assert(p + c <= b.len());
    assert(b.subrange(p + r, p + r + m) =~= b.subrange(p, p + c).subrange(r, r + m));
}

/// The header of a transducer loaded from a bare file holds the fields
/// written.
proof fn lemma_loaded_header(
    h: Header,
    syms: Seq<Seq<u8>>,
    idx: Seq<IndexEntry>,
    tt: Seq<TransitionEntry>,
    t: Transducer,
)
    requires
        writable(h, syms, idx, tt),
        t.loaded_from(bare_file(h, syms, idx, tt), bare_layout(h, syms, idx)),
    ensures
        t.header.version@ == Seq::<char>::empty(),
        t.header.weighted == h.weighted,
        t.header.number_of_input_symbols == h.number_of_input_symbols,
        t.header.number_of_symbols == h.number_of_symbols,
        t.header.size_of_index_table == h.size_of_index_table,
        t.header.size_of_target_table == h.size_of_target_table,
        t.header.number_of_states == h.number_of_states,
        t.header.number_of_transitions == h.number_of_transitions,
        t.header.deterministic == h.deterministic,
        t.header.input_deterministic == h.input_deterministic,
        t.header.minimized == h.minimized,
        t.header.cyclic == h.cyclic,
        t.header.has_epsilon_epsilon_transitions == h.has_epsilon_epsilon_transitions,
        t.header.has_input_epsilon_transitions == h.has_input_epsilon_transitions,
        t.header.has_input_epsilon_cycles == h.has_input_epsilon_cycles,
        t.header.has_unweighted_input_epsilon_cycles == h.has_unweighted_input_epsilon_cycles,
{
    let hb = header_block(h);
    let rest = joined(symbol_chunks(syms)) + joined(index_chunks(idx)) + joined(
        transition_chunks(tt, h.weighted),
    );
    let b = bare_file(h, syms, idx, tt);
    lemma_header_reads(h, rest);
    assert(b =~= hb + rest);
    let words = header_words(h);
    assert(le32(b, 4 + 4 * 0int) == words[0]);
    assert(le32(b, 4 + 4 * 1int) == words[1]);
    assert(le32(b, 4 + 4 * 2int) == words[2]);
    assert(le32(b, 4 + 4 * 3int) == words[3]);
    assert(le32(b, 4 + 4 * 5int) == words[5]);
    assert(le32(b, 4 + 4 * 6int) == words[6]);
    assert(le32(b, 4 + 4 * 7int) == words[7]);
    assert(le32(b, 4 + 4 * 8int) == words[8]);
    assert(le32(b, 4 + 4 * 9int) == words[9]);
    assert(le32(b, 4 + 4 * 10int) == words[10]);
    assert(le32(b, 4 + 4 * 11int) == words[11]);
    assert(le32(b, 4 + 4 * 12int) == words[12]);
}

/// Entry `k` of an index table written `pre.len()` bytes into a file reads
/// back as written.
proof fn lemma_index_entry_reads(pre: Seq<u8>, idx: Seq<IndexEntry>, post: Seq<u8>, k: int)
    requires
        0 <= k < idx.len(),
    ensures
        ({
            let b = pre + joined(index_chunks(idx)) + post;
            let p = pre.len() + 6 * k;
            &&& le16(b, p) == idx[k].input
            &&& le32(b, p + 2) == idx[k].target
        }),
{
    let ich = index_chunks(idx);
    let b = pre + joined(ich) + post;
    let p = pre.len() + 6 * k;
    assert forall|i: int| 0 <= i < ich.len() implies (#[trigger] ich[i]).len() == 6 by {}
    lemma_in_chunk(pre, ich, post, 6, k, 0, 2);
    lemma_in_chunk(pre, ich, post, 6, k, 2, 4);
    assert(ich[k].subrange(0, 2) =~= u16_bytes(idx[k].input));
    assert(ich[k].subrange(2, 6) =~= u32_bytes(idx[k].target));
    u16_reads_back(b, p, idx[k].input);
    u32_reads_back(b, p + 2, idx[k].target);
}

/// Entry `k` of a transition table written `pre.len()` bytes into a file
/// reads back as written, its weight too when the table is weighted.
proof fn lemma_transition_entry_reads(
    pre: Seq<u8>,
    tt: Seq<TransitionEntry>,
    weighted: bool,
    k: int,
)
    requires
        0 <= k < tt.len(),
    ensures
        ({
            let b = pre + joined(transition_chunks(tt, weighted));
            let p = pre.len() + (if weighted {
                12int
            } else {
                8int
            }) * k;
            &&& le16(b, p) == tt[k].input
            &&& le16(b, p + 2) == tt[k].output
            &&& le32(b, p + 4) == tt[k].target
            &&& weighted ==> le32(b, p + 8) == tt[k].weight
        }),
{
    let w: nat = if weighted { 12 } else { 8 };
    let tch = transition_chunks(tt, weighted);
    let e = Seq::<u8>::empty();
    let b = pre + joined(tch);
    assert(b =~= pre + joined(tch) + e);
    let p = pre.len() + w * k;
    assert forall|i: int| 0 <= i < tch.len() implies (#[trigger] tch[i]).len() == w by {}
    lemma_in_chunk(pre, tch, e, w, k, 0, 2);
    lemma_in_chunk(pre, tch, e, w, k, 2, 2);
    lemma_in_chunk(pre, tch, e, w, k, 4, 4);
    assert(tch[k].subrange(0, 2) =~= u16_bytes(tt[k].input));
    assert(tch[k].subrange(2, 4) =~= u16_bytes(tt[k].output));
    assert(tch[k].subrange(4, 8) =~= u32_bytes(tt[k].target));
    u16_reads_back(b, p, tt[k].input);
    u16_reads_back(b, p + 2, tt[k].output);
    u32_reads_back(b, p + 4, tt[k].target);
    if weighted {
        lemma_in_chunk(pre, tch, e, w, k, 8, 4);
        assert(tch[k].subrange(8, 12) =~= u32_bytes(tt[k].weight));
        u32_reads_back(b, p + 8, tt[k].weight);
    }
}

/// The header block takes 56 bytes.
proof fn lemma_header_len(h: Header)
    ensures
        header_block(h).len() == 56,
{
    lemma_header_reads(h, Seq::empty());
}

/// Index entries read from a bare file at its index table are the ones
/// written.
proof fn lemma_index_table_reads(
    h: Header,
    syms: Seq<Seq<u8>>,
    idx: Seq<IndexEntry>,
    tt: Seq<TransitionEntry>,
    ti: Seq<IndexEntry>,
)
    requires
        ti.len() == idx.len(),
        forall|k: int|
            0 <= k < ti.len() ==> {
                &&& (#[trigger] ti[k]).input == le16(
                    bare_file(h, syms, idx, tt),
                    bare_layout(h, syms, idx).index_start + 6 * k,
                )
                &&& ti[k].target == le32(
                    bare_file(h, syms, idx, tt),
                    bare_layout(h, syms, idx).index_start + 6 * k + 2,
                )
            },
    ensures
        ti == idx,
{
    let hb = header_block(h);
    let sb = joined(symbol_chunks(syms));
    let tb = joined(transition_chunks(tt, h.weighted));
    lemma_header_len(h);
    assert(bare_file(h, syms, idx, tt) =~= (hb + sb) + joined(index_chunks(idx)) + tb);
    assert forall|k: int| 0 <= k < idx.len() implies ti[k] == idx[k] by {
        lemma_index_entry_reads(hb + sb, idx, tb, k);
        assert(ti[k].input == idx[k].input);
    }
    assert(ti =~= idx);
}

/// Transition entries read from a bare file at its transition table are the
/// ones written, each weight kept when the file is weighted and zero
/// otherwise.
proof fn lemma_transition_table_reads(
    h: Header,
    syms: Seq<Seq<u8>>,
    idx: Seq<IndexEntry>,
    tt: Seq<TransitionEntry>,
    tr: Seq<TransitionEntry>,
)
    requires
        tr.len() == tt.len(),
        forall|k: int|
            0 <= k < tr.len() ==> {
                let b = bare_file(h, syms, idx, tt);
                let l = bare_layout(h, syms, idx);
                let p = l.transition_start + (if l.weighted {
                    12int
                } else {
                    8int
                }) * k;
                &&& (#[trigger] tr[k]).input == le16(b, p)
                &&& tr[k].output == le16(b, p + 2)
                &&& tr[k].target == le32(b, p + 4)
                &&& tr[k].weight == if l.weighted {
                    le32(b, p + 8)
                } else {
                    0
                }
            },
    ensures
        forall|k: int|
            0 <= k < tt.len() ==> {
                &&& (#[trigger] tr[k]).input == tt[k].input
                &&& tr[k].output == tt[k].output
                &&& tr[k].target == tt[k].target
                &&& tr[k].weight == if h.weighted {
                    tt[k].weight
                } else {
                    0
                }
            },
{
    let pre = header_block(h) + joined(symbol_chunks(syms)) + joined(index_chunks(idx));
    lemma_header_len(h);
    let ich = index_chunks(idx);
    assert forall|i: int| 0 <= i < ich.len() implies (#[trigger] ich[i]).len() == 6 by {}
    lemma_joined_len(ich, 6);
    assert(pre.len() == bare_layout(h, syms, idx).transition_start);
    assert(bare_file(h, syms, idx, tt) =~= pre + joined(transition_chunks(tt, h.weighted)));
    assert forall|k: int| 0 <= k < tt.len() implies {
        &&& (#[trigger] tr[k]).input == tt[k].input
        &&& tr[k].output == tt[k].output
        &&& tr[k].target == tt[k].target
        &&& tr[k].weight == if h.weighted {
            tt[k].weight
        } else {
            0
        }
    } by {
        lemma_transition_entry_reads(pre, tt, h.weighted, k);
        assert(tr[k] == tr[k]);
    }
}

/// A transducer loaded from a bare file written from a header, symbol
/// strings and tables holds those parts: the header's fields (with no
/// version text), the symbol strings as text, the index table as written, and
/// the transition table as written, each weight kept when the header says the
/// file is weighted and zero otherwise.
pub proof fn bare_file_loads_its_parts(
    h: Header,
    syms: Seq<Seq<u8>>,
    idx: Seq<IndexEntry>,
    tt: Seq<TransitionEntry>,
    t: Transducer,
)
    requires
        writable(h, syms, idx, tt),
        t.loaded_from(bare_file(h, syms, idx, tt), bare_layout(h, syms, idx)),
    ensures
        t.header.version@ == Seq::<char>::empty(),
        t.header.weighted == h.weighted,
        t.header.number_of_input_symbols == h.number_of_input_symbols,
        t.header.number_of_symbols == h.number_of_symbols,
        t.header.size_of_index_table == h.size_of_index_table,
        t.header.size_of_target_table == h.size_of_target_table,
        t.header.number_of_states == h.number_of_states,
        t.header.number_of_transitions == h.number_of_transitions,
        t.header.deterministic == h.deterministic,
        t.header.input_deterministic == h.input_deterministic,
        t.header.minimized == h.minimized,
        t.header.cyclic == h.cyclic,
        t.header.has_epsilon_epsilon_transitions == h.has_epsilon_epsilon_transitions,
        t.header.has_input_epsilon_transitions == h.has_input_epsilon_transitions,
        t.header.has_input_epsilon_cycles == h.has_input_epsilon_cycles,
        t.header.has_unweighted_input_epsilon_cycles == h.has_unweighted_input_epsilon_cycles,
        t.alphabet.symbols@.len() == syms.len(),
        forall|i: int| 0 <= i < syms.len() ==> #[trigger] t.alphabet.symbols@[i]@ == utf8_lossy(syms[i]),
        t.index_table@ == idx,
        t.transition_table@.len() == tt.len(),
        forall|k: int|
            0 <= k < tt.len() ==> {
                &&& (#[trigger] t.transition_table@[k]).input == tt[k].input
                &&& t.transition_table@[k].output == tt[k].output
                &&& t.transition_table@[k].target == tt[k].target
                &&& t.transition_table@[k].weight == if h.weighted {
                    tt[k].weight
                } else {
                    0
                }
            },
{
    lemma_loaded_header(h, syms, idx, tt, t);
    lemma_index_table_reads(h, syms, idx, tt, t.index_table@);
    lemma_transition_table_reads(h, syms, idx, tt, t.transition_table@);
}

} // verus!
