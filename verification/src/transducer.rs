//! The transducer itself: the two ordered tables and the lookup entry points.
//!
//! After the alphabet come two arrays:
//!   * the **transition index table** (`size_of_index_table` entries, 6 bytes
//!     each: `u16` input symbol + `u32` target), and
//!   * the **transition table** (`size_of_target_table` entries, 8 bytes each,
//!     plus a trailing `f32` weight when the transducer is weighted: `u16`
//!     input + `u16` output + `u32` target).
//!
//! Lookup walks the input symbol by symbol, following index entries into the
//! transition table, honouring flag diacritics, and collecting the output
//! symbols of every path that reaches a final state.

use vstd::prelude::*;

use crate::alphabet::{cstrs, flag_model, Alphabet, AlphabetModel, FlagModel};
use crate::error::{format_error, is_format_error, Result};
use crate::flag_state::FlagState;
use crate::header::{has_wrapper, header_fields, le16, le32, next_zero, reports, spec_header, spec_wrapper, Cursor, Header, ParseFailure};
use crate::lookup::{
    all_zero, bans_within, embeds, epsilon_like, is_subseq, lemma_step_props, lemma_step_pruned, outputs_in_range,
    spec_step, zero_weights, Found, Lookup,
    Token, MAX_DEPTH,
};
use crate::text::{char_utf8_len, char_width, chars_of, utf8_lossy};
use vstd::utf8::encode_utf8;

verus! {

/// Sentinel input symbol meaning "no symbol" / empty index slot.
pub const NO_SYMBOL: u16 = 0xFFFF;

/// Sentinel target meaning "no transition".
pub const NO_TARGET: u32 = 0xFFFF_FFFF;

/// Targets at or above this offset address the transition table; below it
/// they address the index table.
pub const TARGET_TABLE_START: u32 = 0x8000_0000;

/// One entry of the transition index table.
#[derive(Debug, Clone, Copy)]
pub struct IndexEntry {
    pub input: u16,
    pub target: u32,
}

/// One entry of the transition table. The weight is kept as the bit pattern
/// of the stored `f32` (zero, i.e. `0.0`, for unweighted transducers).
#[derive(Debug, Clone, Copy)]
pub struct TransitionEntry {
    pub input: u16,
    pub output: u16,
    pub target: u32,
    pub weight: u32,
}

/// A single analysis (or generation) result.
#[derive(Debug, Clone)]
pub struct Analysis {
    /// The concatenated output symbols, e.g. `"inuk+N+Abs+Sg"`.
    pub output: String,
    /// The `f32` weights met along the path, as bit patterns, in order: one
    /// per transition taken, then the final weight of the last state. The
    /// path weight is their sum, added left to right starting from `0.0`.
    pub weights: Vec<u32>,
}

/// The mathematical content of an analysis: output text and path weights.
pub type AnalysisModel = (Seq<char>, Seq<u32>);

impl Analysis {
    pub open spec fn model(&self) -> AnalysisModel {
        (self.output@, self.weights@)
    }
}

/// The mathematical content of a transducer: what lookup depends on.
pub struct TransducerModel {
    /// The symbol texts.
    pub symbols: Seq<Seq<char>>,
    /// The flag operation of each symbol.
    pub flags: Seq<Option<FlagModel>>,
    /// The recorded identity symbol.
    pub identity: Option<u16>,
    /// The recorded unknown symbol.
    pub unknown: Option<u16>,
    /// Whether index-table finality carries a weight.
    pub weighted: bool,
    pub index_table: Seq<IndexEntry>,
    pub transition_table: Seq<TransitionEntry>,
    /// The tokenizer order.
    pub tokenizer_order: Seq<u16>,
}

/// The models of a sequence of analyses.
pub open spec fn analysis_models(v: Seq<Analysis>) -> Seq<AnalysisModel> {
    v.map_values(|a: Analysis| a.model())
}

/// A loaded optimized-lookup transducer.
#[derive(Debug, Clone)]
pub struct Transducer {
    pub header: Header,
    pub alphabet: Alphabet,
    pub index_table: Vec<IndexEntry>,
    pub transition_table: Vec<TransitionEntry>,
    /// Input symbols eligible for surface tokenisation, ordered longest
    /// string first so multichar symbols win.
    pub tokenizer_order: Vec<u16>,
}

impl Transducer {
    /// The mathematical content of the transducer.
    pub open spec fn model(&self) -> TransducerModel {
        TransducerModel {
            symbols: self.alphabet.symbol_texts(),
            flags: self.alphabet.flag_models(),
            identity: self.alphabet.identity,
            unknown: self.alphabet.unknown,
            weighted: self.header.weighted,
            index_table: self.index_table@,
            transition_table: self.transition_table@,
            tokenizer_order: self.tokenizer_order@,
        }
    }
}

// ---------------------------------------------------------------------------
// Tokenisation.
// ---------------------------------------------------------------------------

/// The symbol that stands in for a character that no literal symbol matches:
/// the unknown symbol, else the identity symbol.
pub open spec fn fallback_symbol(t: TransducerModel) -> Option<u16> {
    match t.unknown {
        Some(u) => Some(u),
        None => t.identity,
    }
}

/// The text of symbol `s` (meaningful for symbols of the alphabet).
pub open spec fn sym_chars(t: TransducerModel, s: u16) -> Seq<char> {
    t.symbols[s as int]
}

/// The first symbol of `order`, from position `k` on, whose text begins
/// `rest`.
pub open spec fn first_match(t: TransducerModel, rest: Seq<char>, k: int) -> Option<u16>
    decreases t.tokenizer_order.len() - k,
{
    if k < 0 || k >= t.tokenizer_order.len() {
        None
    } else {
        let txt = sym_chars(t, t.tokenizer_order[k]);
        if txt.len() <= rest.len() && rest.take(txt.len() as int) == txt {
            Some(t.tokenizer_order[k])
        } else {
            first_match(t, rest, k + 1)
        }
    }
}

/// Splits `rest` into symbols: at each point the first symbol of `order`
/// whose text begins the remaining input, else one character as the
/// fallback symbol; `None` when a character matches nothing and there is no
/// fallback symbol.
pub open spec fn spec_tokenize(t: TransducerModel, rest: Seq<char>) -> Option<Seq<Token>>
    decreases rest.len(),
{
    if rest.len() == 0 {
        Some(Seq::empty())
    } else {
        match first_match(t, rest, 0) {
            Some(s) => {
                let n = sym_chars(t, s).len();
                if 0 < n <= rest.len() {
                    match spec_tokenize(t, rest.skip(n as int)) {
                        Some(ts) => Some(seq![Token { sym: s, orig: None }] + ts),
                        None => None,
                    }
                } else {
                    None
                }
            },
            None => match fallback_symbol(t) {
                Some(u) => match spec_tokenize(t, rest.drop_first()) {
                    Some(ts) => Some(seq![Token { sym: u, orig: Some(rest[0]) }] + ts),
                    None => None,
                },
                None => None,
            },
        }
    }
}

/// Number of bytes of input text that a token stands for.
pub open spec fn token_bytes(t: TransducerModel, tok: Token) -> nat {
    match tok.orig {
        Some(c) => char_width(c),
        None => encode_utf8(sym_chars(t, tok.sym)).len(),
    }
}

/// Number of bytes of input text that a sequence of tokens stands for.
pub open spec fn tokens_bytes(t: TransducerModel, toks: Seq<Token>) -> nat
    decreases toks.len(),
{
    if toks.len() == 0 {
        0
    } else {
        tokens_bytes(t, toks.drop_last()) + token_bytes(t, toks.last())
    }
}

/// Whether the text of `sym` occurs in `chars` at `p`.
fn is_prefix_at(sym: &str, chars: &Vec<char>, p: usize) -> (r: bool)
    requires
        p <= chars@.len(),
    ensures
        r == (p + sym@.len() <= chars@.len() && chars@.subrange(p as int, p + sym@.len()) == sym@),
{
    let n = sym.unicode_len();
    let m = chars.len();
    if n > m - p {
        return false;
    }
    let mut i: usize = 0;
    while i < n
        invariant
            m == chars@.len(),
            n == sym@.len(),
            p + n <= chars@.len(),
            i <= n,
            forall|k: int| 0 <= k < i ==> chars@[p + k] == sym@[k],
        decreases n - i,
    {
        if chars[p + i] != sym.get_char(i) {
            proof {
                assert(chars@.subrange(p as int, p + n)[i as int] != sym@[i as int]);
            }
            return false;
        }
        i = i + 1;
    }
    proof {
        assert(chars@.subrange(p as int, p + n) =~= sym@);
    }
    true
}

impl Transducer {
    /// Every symbol of the tokenizer order is a non-empty symbol of the
    /// alphabet, so tokenising always makes progress.
    pub open spec fn ready(&self) -> bool {
        order_ready(self.model())
    }

    /// The first symbol of the tokenizer order that matches `chars` at `p`.
    fn first_match_at(&self, chars: &Vec<char>, p: usize) -> (r: Option<u16>)
        requires
            self.ready(),
            p <= chars@.len(),
        ensures
            r == first_match(self.model(), chars@.skip(p as int), 0),
            r matches Some(s) ==> (s as int) < self.alphabet.symbols@.len() && 0 < sym_chars(
                self.model(),
                s,
            ).len() && p + sym_chars(self.model(), s).len() <= chars@.len(),
    {
        let ghost rest = chars@.skip(p as int);
        let mut k: usize = 0;
        while k < self.tokenizer_order.len()
            invariant
                self.ready(),
                p <= chars@.len(),
                rest == chars@.skip(p as int),
                k <= self.tokenizer_order@.len(),
                first_match(self.model(), rest, 0) == first_match(
                    self.model(),
                    rest,
                    k as int,
                ),
            decreases self.tokenizer_order@.len() - k,
        {
            let s = self.tokenizer_order[k];
            proof {
                assert(self.alphabet.symbols@[s as int]@ == sym_chars(self.model(), s));
            }
            let hit = is_prefix_at(self.alphabet.symbols[s as usize].as_str(), chars, p);
            proof {
                let txt = sym_chars(self.model(), s);
                if txt.len() <= rest.len() {
                    assert(rest.take(txt.len() as int) =~= chars@.subrange(
                        p as int,
                        p + txt.len(),
                    ));
                }
            }
            if hit {
                return Some(s);
            }
            k = k + 1;
        }
        None
    }

    /// Splits the input characters into transducer symbols. Returns `None`
    /// if a character matches no input symbol and the alphabet has no
    /// unknown or identity symbol to stand in for it (the word is then
    /// unanalysable).
    fn tokenize(&self, chars: &Vec<char>) -> (r: Option<Vec<Token>>)
        requires
            self.ready(),
        ensures
            match r {
                Some(v) => spec_tokenize(self.model(), chars@) == Some(
                    v@,
                ),
                None => spec_tokenize(self.model(), chars@) is None,
            },
    {
        let mut tokens: Vec<Token> = Vec::new();
        let mut p: usize = 0;
        let ghost full = spec_tokenize(self.model(), chars@);
        proof {
            assert(chars@.skip(0) =~= chars@);
            assert(Seq::<Token>::empty() + Seq::<Token>::empty() =~= Seq::<Token>::empty());
        }
        while p < chars.len()
            invariant
                self.ready(),
                p <= chars@.len(),
                full == spec_tokenize(self.model(), chars@),
                full == match spec_tokenize(self.model(), chars@.skip(p as int)) {
                    Some(ts) => Some(tokens@ + ts),
                    None => None,
                },
            decreases chars@.len() - p,
        {
            let ghost rest = chars@.skip(p as int);
            let ghost before = tokens@;
            match self.first_match_at(chars, p) {
                Some(s) => {
                    let n = self.alphabet.symbols[s as usize].as_str().unicode_len();
                    proof {
                        assert(rest.skip(n as int) =~= chars@.skip(p + n));
                    }
                    tokens.push(Token { sym: s, orig: None });
                    p = p + n;
                    proof {
                        let tail = spec_tokenize(self.model(), rest.skip(n as int));
                        if let Some(ts) = tail {
                            assert(before + (seq![Token { sym: s, orig: None }] + ts) =~= tokens@ + ts);
                        }
                    }
                },
                None => {
                    let c = chars[p];
                    let fb = match self.alphabet.unknown {
                        Some(u) => Some(u),
                        None => self.alphabet.identity,
                    };
                    proof {
                        assert(rest.drop_first() =~= chars@.skip(p + 1));
                        assert(rest[0] == c);
                    }
                    match fb {
                        Some(u) => {
                            tokens.push(Token { sym: u, orig: Some(c) });
                            p = p + 1;
                            proof {
                                let tail = spec_tokenize(self.model(), rest.drop_first());
                                if let Some(ts) = tail {
                                    assert(before + (seq![Token { sym: u, orig: Some(c) }] + ts) =~= tokens@ + ts);
                                }
                            }
                        },
                        None => {
                            return None;
                        },
                    }
                },
            }
        }
        proof {
            assert(chars@.skip(p as int) =~= Seq::<char>::empty());
            assert(tokens@ + Seq::<Token>::empty() =~= tokens@);
        }
        Some(tokens)
    }
}

// ---------------------------------------------------------------------------
// Facts about tokenisation.
// ---------------------------------------------------------------------------

/// UTF-8 encoding distributes over concatenation.
pub proof fn lemma_encode_concat(x: Seq<char>, y: Seq<char>)
    ensures
        encode_utf8(x + y) == encode_utf8(x) + encode_utf8(y),
    decreases x.len(),
{
    if x.len() == 0 {
        assert(x + y =~= y);
        assert(Seq::<u8>::empty() + encode_utf8(y) =~= encode_utf8(y));
    } else {
        assert((x + y).drop_first() =~= x.drop_first() + y);
        assert((x + y)[0] == x[0]);
        lemma_encode_concat(x.drop_first(), y);
        let h = vstd::utf8::encode_scalar(x[0] as u32);
        assert(h + (encode_utf8(x.drop_first()) + encode_utf8(y)) =~= (h + encode_utf8(
            x.drop_first(),
        )) + encode_utf8(y));
    }
}

/// The byte count of tokens after a first token.
proof fn lemma_tokens_bytes_cons(a: TransducerModel, x: Token, ts: Seq<Token>)
    ensures
        tokens_bytes(a, seq![x] + ts) == token_bytes(a, x) + tokens_bytes(a, ts),
    decreases ts.len(),
{
    if ts.len() == 0 {
        assert(seq![x] + ts =~= seq![x]);
        assert(seq![x].drop_last() =~= Seq::<Token>::empty());
        assert(seq![x].last() == x);
        assert(tokens_bytes(a, seq![x].drop_last()) == 0);
    } else {
        assert((seq![x] + ts).drop_last() =~= seq![x] + ts.drop_last());
        assert((seq![x] + ts).last() == ts.last());
        lemma_tokens_bytes_cons(a, x, ts.drop_last());
    }
}

/// The byte count of a prefix of tokens grows one token at a time, and is
/// at most that of all tokens.
proof fn lemma_tokens_bytes_take(a: TransducerModel, toks: Seq<Token>, k: int)
    requires
        0 <= k < toks.len(),
    ensures
        tokens_bytes(a, toks.take(k + 1)) == tokens_bytes(a, toks.take(k)) + token_bytes(
            a,
            toks[k],
        ),
        tokens_bytes(a, toks.take(k + 1)) <= tokens_bytes(a, toks),
    decreases toks.len() - k,
{
    assert(toks.take(k + 1).drop_last() =~= toks.take(k));
    if k + 1 == toks.len() {
        assert(toks.take(k + 1) =~= toks);
    } else {
        lemma_tokens_bytes_take(a, toks, k + 1);
    }
}

/// The first match is a symbol of the order whose text begins the input.
pub(crate) proof fn lemma_first_match(a: TransducerModel, rest: Seq<char>, k: int)
    requires
        0 <= k,
    ensures
        first_match(a, rest, k) matches Some(s) ==> {
            &&& exists|j: int| k <= j < a.tokenizer_order.len() && a.tokenizer_order[j] == s
            &&& sym_chars(a, s).len() <= rest.len()
            &&& rest.take(sym_chars(a, s).len() as int) == sym_chars(a, s)
        },
    decreases a.tokenizer_order.len() - k,
{
    if k < a.tokenizer_order.len() {
        lemma_first_match(a, rest, k + 1);
    }
}

/// Every symbol of the tokenizer order is a non-empty symbol of the
/// alphabet, so tokenising always makes progress.
pub open spec fn order_ready(t: TransducerModel) -> bool {
    forall|k: int|
        0 <= k < t.tokenizer_order.len() ==> {
            &&& (#[trigger] t.tokenizer_order[k] as int) < t.symbols.len()
            &&& sym_chars(t, t.tokenizer_order[k]).len() > 0
        }
}

/// Tokens spell the input: their symbols are in range where they carry no
/// character, and their bytes add up to the input's.
pub(crate) proof fn lemma_tokenize_bytes(t: TransducerModel, rest: Seq<char>)
    requires
        order_ready(t),
        spec_tokenize(t, rest) is Some,
    ensures
        ({
            let toks = spec_tokenize(t, rest).unwrap();
            &&& tokens_bytes(t, toks) == encode_utf8(rest).len()
            &&& forall|i: int|
                0 <= i < toks.len() && (#[trigger] toks[i]).orig is None ==> (toks[i].sym as int)
                    < t.symbols.len()
        }),
    decreases rest.len(),
{
    if rest.len() == 0 {
        assert(encode_utf8(rest) =~= Seq::<u8>::empty());
    } else {
        lemma_first_match(t, rest, 0);
        match first_match(t, rest, 0) {
            Some(s) => {
                let n = sym_chars(t, s).len();
                let tail = rest.skip(n as int);
                lemma_tokenize_bytes(t, tail);
                let ts = spec_tokenize(t, tail).unwrap();
                let x = Token { sym: s, orig: None };
                lemma_tokens_bytes_cons(t, x, ts);
                assert(rest =~= rest.take(n as int) + tail);
                lemma_encode_concat(rest.take(n as int), tail);
                let toks = seq![x] + ts;
                assert forall|i: int|
                    0 <= i < toks.len() && (#[trigger] toks[i]).orig is None implies (
                    toks[i].sym as int) < t.symbols.len() by {
                    if i > 0 {
                        assert(toks[i] == ts[i - 1]);
                    } else {
                        let j = choose|j: int|
                            0 <= j < t.tokenizer_order.len() && t.tokenizer_order[j] == s;
                        assert(t.tokenizer_order[j] == s);
                    }
                }
            },
            None => {
                let u = fallback_symbol(t).unwrap();
                let tail = rest.drop_first();
                lemma_tokenize_bytes(t, tail);
                let ts = spec_tokenize(t, tail).unwrap();
                let x = Token { sym: u, orig: Some(rest[0]) };
                lemma_tokens_bytes_cons(t, x, ts);
                assert(rest =~= seq![rest[0]] + tail);
                lemma_encode_concat(seq![rest[0]], tail);
                let toks = seq![x] + ts;
                assert forall|i: int|
                    0 <= i < toks.len() && (#[trigger] toks[i]).orig is None implies (
                    toks[i].sym as int) < t.symbols.len() by {
                    assert(i > 0);
                    assert(toks[i] == ts[i - 1]);
                }
            },
        }
    }
}

// ---------------------------------------------------------------------------
// Lookup.
// ---------------------------------------------------------------------------

impl Transducer {
    /// The tokens of an input, if it can be tokenised.
    pub open spec fn tokens_of(&self, input: Seq<char>) -> Option<Seq<Token>> {
        spec_tokenize(self.model(), input)
    }

    /// What the traversal finds from the start state over `toks`.
    pub open spec fn search(&self, toks: Seq<Token>, banned: Seq<u16>) -> Found {
        spec_step(
            self.model(),
            toks,
            banned,
            MAX_DEPTH as nat,
            0,
            0,
            Seq::empty(),
            Map::empty(),
            Seq::empty(),
        )
    }

    /// The analyses of `input`, in the order the traversal reaches them,
    /// with paths that would emit a symbol of `banned` pruned.
    pub open spec fn analyses(&self, input: Seq<char>, banned: Seq<u16>) -> Seq<AnalysisModel> {
        match self.tokens_of(input) {
            None => Seq::empty(),
            Some(toks) => self.search(toks, banned).0,
        }
    }

    /// The break-localization frontier of `input`: the number of bytes of the
    /// longest input prefix at which some path stood in a final state.
    pub open spec fn frontier(&self, input: Seq<char>, banned: Seq<u16>) -> nat {
        match self.tokens_of(input) {
            None => 0,
            Some(toks) => {
                let m = self.search(toks, banned).1;
                tokens_bytes(
                    self.model(),
                    toks.take(
                        if m < toks.len() {
                            m as int
                        } else {
                            toks.len() as int
                        },
                    ),
                )
            },
        }
    }

    /// Every analysis of `input` names only symbols that the alphabet holds
    /// (else writing its output would index past the symbol table).
    pub open spec fn outputs_known(&self, input: Seq<char>, banned: Seq<u16>) -> bool {
        match self.tokens_of(input) {
            None => true,
            Some(toks) => self.search(toks, banned).2,
        }
    }

    fn walk(&self, input: &str, banned_outputs: &[u16]) -> (r: (Vec<Analysis>, usize, bool))
        requires
            self.ready(),
        ensures
            r.2 == !self.outputs_known(input@, banned_outputs@),
            !r.2 ==> analysis_models(r.0@) == self.analyses(input@, banned_outputs@),
            r.1 == self.frontier(input@, banned_outputs@),
    {
        let chars = chars_of(input);
        let tokens = match self.tokenize(&chars) {
            Some(t) => t,
            None => {
                // a character with no in-alphabet symbol
                let v: Vec<Analysis> = Vec::new();
                proof {
                    assert(analysis_models(v@) =~= Seq::<AnalysisModel>::empty());
                }
                return (v, 0, false);
            },
        };
        let mut walk = Lookup {
            output: Vec::new(),
            flags: FlagState::new(),
            weights: Vec::new(),
            results: Vec::new(),
            max_final_pos: 0,
            stray: false,
        };
        proof {
            assert(walk.flags.map(self.alphabet.flag_models()) =~= Map::empty());
            assert(analysis_models(walk.results@) =~= Seq::<AnalysisModel>::empty());
        }
        walk.step(self, &tokens, banned_outputs, 0, 0, MAX_DEPTH);
        proof {
            if !walk.stray {
                assert(analysis_models(walk.results@) =~= self.search(tokens@, banned_outputs@).0);
            }
        }
        // Token index -> byte offset: sum the surface text of consumed tokens.
        let m = if walk.max_final_pos < tokens.len() {
            walk.max_final_pos
        } else {
            tokens.len()
        };
        let total = input.as_bytes().len();
        proof {
            lemma_tokenize_bytes(self.model(), chars@);
        }
        let mut frontier: usize = 0;
        let mut k: usize = 0;
        proof {
            assert(tokens@.take(0) =~= Seq::<Token>::empty());
        }
        while k < m
            invariant
                m <= tokens@.len(),
                k <= m,
                total == encode_utf8(input@).len(),
                tokens_bytes(self.model(), tokens@) == encode_utf8(input@).len(),
                forall|i: int|
                    0 <= i < tokens@.len() && (#[trigger] tokens@[i]).orig is None ==> (
                    tokens@[i].sym as int) < self.alphabet.symbols@.len(),
                frontier == tokens_bytes(self.model(), tokens@.take(k as int)),
            decreases m - k,
        {
            let tok = tokens[k];
            proof {
                lemma_tokens_bytes_take(self.model(), tokens@, k as int);
            }
            let w = match tok.orig {
                Some(c) => char_utf8_len(c),
                None => self.alphabet.symbols[tok.sym as usize].as_str().len(),
            };
            frontier = frontier + w;
            k = k + 1;
        }
        (walk.results, frontier, walk.stray)
    }

    /// Applies the transducer to `input`, returning every accepted analysis.
    ///
    /// The input is tokenised into symbol numbers by longest match against
    /// the alphabet (unmatched characters become `@_UNKNOWN_SYMBOL_@`), then
    /// the index and transition tables are walked depth-first. Epsilon and
    /// flag transitions consume no input; flag diacritics gate the path and
    /// are erased from the output. Every path that reaches a final state at
    /// the end of the input yields one [`Analysis`]. When an analysis would
    /// name an output symbol past the alphabet, which no well-built
    /// transducer has, the lookup fails with a format error instead.
    pub fn lookup(&self, input: &str) -> (r: Result<Vec<Analysis>>)
        requires
            self.ready(),
        ensures
            match r {
                Ok(v) => self.outputs_known(input@, Seq::empty()) && analysis_models(v@)
                    == self.analyses(input@, Seq::empty()),
                Err(e) => !self.outputs_known(input@, Seq::empty()) && is_format_error(
                    e,
                    stray_output_message(),
                ),
            },
    {
        let banned: Vec<u16> = Vec::new();
        proof {
            assert(banned@ =~= Seq::<u16>::empty());
        }
        let (v, _, stray) = self.walk(input, banned.as_slice());
        if stray {
            return Err(format_error("analysis names an output symbol past the alphabet"));
        }
        Ok(v)
    }

    /// Like [`Transducer::lookup`], but also reports a break-localization
    /// frontier: the byte offset of the longest input prefix the transducer
    /// accepts as a complete analysis (a final state reached mid-input).
    /// 0 means no prefix stands alone.
    ///
    /// `banned_outputs` prunes every path that would emit one of the given
    /// output symbols. Empty slice = no pruning.
    pub fn lookup_with_frontier(&self, input: &str, banned_outputs: &[u16]) -> (r: Result<
        (Vec<Analysis>, usize),
    >)
        requires
            self.ready(),
        ensures
            match r {
                Ok((v, f)) => self.outputs_known(input@, banned_outputs@) && analysis_models(v@)
                    == self.analyses(input@, banned_outputs@) && f == self.frontier(
                    input@,
                    banned_outputs@,
                ),
                Err(e) => !self.outputs_known(input@, banned_outputs@) && is_format_error(
                    e,
                    stray_output_message(),
                ),
            },
    {
        let (v, f, stray) = self.walk(input, banned_outputs);
        if stray {
            return Err(format_error("analysis names an output symbol past the alphabet"));
        }
        Ok((v, f))
    }
}

/// The message of the error for an analysis that names an output symbol
/// past the alphabet.
pub open spec fn stray_output_message() -> Seq<char> {
    "analysis names an output symbol past the alphabet"@
}

// ---------------------------------------------------------------------------
// The tokenizer order.
// ---------------------------------------------------------------------------

/// Number of bytes in the UTF-8 text of symbol `i`.
pub open spec fn byte_len(a: AlphabetModel, i: u16) -> nat {
    encode_utf8(a.symbols[i as int]).len()
}

/// Symbol `i` takes part in tokenisation: one of the first `n_in` (input)
/// symbols, neither epsilon nor a flag, with non-empty text, and neither the
/// identity nor the unknown marker.
pub open spec fn is_candidate(a: AlphabetModel, n_in: u16, i: u16) -> bool {
    &&& i < n_in
    &&& (i as int) < a.symbols.len()
    &&& !a.epsilon_like(i)
    &&& a.symbols[i as int].len() > 0
    &&& a.identity != Some(i)
    &&& a.unknown != Some(i)
}

/// `x` comes before `y` in the tokenizer order: its text is longer in bytes,
/// or as long with a smaller symbol number.
pub open spec fn precedes(a: AlphabetModel, x: u16, y: u16) -> bool {
    byte_len(a, x) > byte_len(a, y) || (byte_len(a, x) == byte_len(a, y) && x < y)
}

/// `order` holds exactly the candidate symbols, longest text first, ties in
/// symbol order (a stable sort by descending byte length).
pub open spec fn tokenizer_order_ok(a: AlphabetModel, n_in: u16, order: Seq<u16>) -> bool {
    &&& forall|p: int, q: int|
        0 <= p < q < order.len() ==> precedes(a, #[trigger] order[p], #[trigger] order[q])
    &&& forall|p: int| 0 <= p < order.len() ==> is_candidate(a, n_in, #[trigger] order[p])
    &&& forall|x: u16| is_candidate(a, n_in, x) ==> #[trigger] order.contains(x)
}

/// Lists the literal, matchable input symbols, longest string first so that
/// multichar symbols win during longest-match tokenisation.
fn build_tokenizer_order(a: &Alphabet, n_in: u16) -> (order: Vec<u16>)
    requires
        a.wf(),
        (n_in as int) <= a.symbols@.len() || n_in <= 1,
    ensures
        tokenizer_order_ok(a.model(), n_in, order@),
{
    let mut order: Vec<u16> = Vec::new();
    let mut i: u16 = 0;
    while i < n_in
        invariant
            a.wf(),
            (n_in as int) <= a.symbols@.len() || n_in <= 1,
            i <= n_in,
            forall|p: int, q: int|
                0 <= p < q < order@.len() ==> precedes(a.model(), #[trigger] order@[p], #[trigger] order@[q]),
            forall|p: int|
                0 <= p < order@.len() ==> is_candidate(a.model(), n_in, #[trigger] order@[p]) && order@[p] < i,
            forall|x: u16| is_candidate(a.model(), n_in, x) && x < i ==> #[trigger] order@.contains(x),
        decreases n_in - i,
    {
        if !a.is_epsilon_like(i) {
            let s = a.symbols[i as usize].as_str();
            let marker = match a.identity {
                Some(x) => x == i,
                None => false,
            } || match a.unknown {
                Some(x) => x == i,
                None => false,
            };
            if !s.is_empty() && !marker {
                let len = s.as_bytes().len();
                let mut k: usize = 0;
                while k < order.len() && a.symbols[order[k] as usize].as_str().as_bytes().len() >= len
                    invariant
                        a.wf(),
                        k <= order@.len(),
                        forall|p: int| 0 <= p < order@.len() ==> is_candidate(a.model(), n_in, #[trigger] order@[p]),
                        len == byte_len(a.model(), i),
                        forall|p: int| 0 <= p < k ==> byte_len(a.model(), #[trigger] order@[p]) >= len,
                    decreases order@.len() - k,
                {
                    k = k + 1;
                }
                let ghost old_order = order@;
                order.insert(k, i);
                proof {
                    assert(is_candidate(a.model(), n_in, i));
                    assert forall|p: int, q: int|
                        0 <= p < q < order@.len() implies precedes(a.model(), #[trigger] order@[p], #[trigger] order@[q]) by {
                        if q < k {
                            assert(order@[p] == old_order[p] && order@[q] == old_order[q]);
                        } else if q == k {
                            assert(order@[p] == old_order[p]);
                        } else if p < k {
                            assert(order@[p] == old_order[p] && order@[q] == old_order[q - 1]);
                        } else if p == k {
                            assert(order@[q] == old_order[q - 1]);
                            if k < q - 1 {
                                assert(precedes(a.model(), old_order[k as int], old_order[q - 1]));
                            }
                        } else {
                            assert(order@[p] == old_order[p - 1] && order@[q] == old_order[q - 1]);
                        }
                    }
                    assert forall|p: int| 0 <= p < order@.len() implies is_candidate(a.model(), n_in, #[trigger] order@[p])
                        && order@[p] < i + 1 by {
                        if p < k {
                            assert(order@[p] == old_order[p]);
                        } else if p > k {
                            assert(order@[p] == old_order[p - 1]);
                        }
                    }
                    assert forall|x: u16| is_candidate(a.model(), n_in, x) && x < i + 1 implies #[trigger] order@.contains(x) by {
                        if x == i {
                            assert(order@[k as int] == i);
                        } else {
                            assert(old_order.contains(x));
                            let p = choose|p: int| 0 <= p < old_order.len() && old_order[p] == x;
                            if p < k {
                                assert(order@[p] == x);
                            } else {
                                assert(order@[p + 1] == x);
                            }
                        }
                    }
                }
            } else {
                proof {
                    assert(!is_candidate(a.model(), n_in, i));
                }
            }
        } else {
            proof {
                assert(!is_candidate(a.model(), n_in, i));
            }
        }
        i = i + 1;
    }
    order
}

// ---------------------------------------------------------------------------
// Loading.
// ---------------------------------------------------------------------------

/// Where the parts of a transducer file lie.
pub struct Layout {
    /// Start of the optimized-lookup header.
    pub header_start: int,
    /// The wrapper's version text (empty without a wrapper).
    pub version: Seq<char>,
    /// What the wrapper says of weights (`None` without a wrapper).
    pub wrapper_weighted: Option<bool>,
    /// Whether transitions carry weights.
    pub weighted: bool,
    /// The raw bytes of each symbol string.
    pub raw_symbols: Seq<Seq<u8>>,
    /// Start of the transition index table.
    pub index_start: int,
    /// Start of the transition table.
    pub transition_start: int,
    /// End of the transition table.
    pub end: int,
}

/// The layout of a transducer file, or why it cannot be read.
pub open spec fn spec_layout(b: Seq<u8>) -> core::result::Result<Layout, ParseFailure> {
    match spec_header(b, 0) {
        Err(f) => Err(f),
        Ok((q, ver, w)) => match cstrs(b, q + 56, le16(b, q + 2) as nat) {
            Err(f) => Err(f),
            Ok((raws, p2)) => {
                let weighted = match w {
                    Some(x) => x,
                    None => le32(b, q + 20) != 0,
                };
                let p3 = p2 + 6 * le32(b, q + 4);
                let end = p3 + (if weighted {
                    12int
                } else {
                    8int
                }) * le32(b, q + 8);
                if end > b.len() {
                    Err(ParseFailure::EndOfFile)
                } else {
                    Ok(
                        Layout {
                            header_start: q,
                            version: ver,
                            wrapper_weighted: w,
                            weighted,
                            raw_symbols: raws,
                            index_start: p2,
                            transition_start: p3,
                            end,
                        },
                    )
                }
            },
        },
    }
}

/// The number of input symbols of a readable file is at most its number of
/// symbols, or at most one. (Otherwise building the tokenizer order would
/// index past the symbol table.)
pub open spec fn input_symbols_fit(b: Seq<u8>) -> bool {
    spec_layout(b) matches Ok(l) ==> (le16(b, l.header_start) <= le16(b, l.header_start + 2)
        || le16(b, l.header_start) <= 1)
}

impl Transducer {
    /// Whether [`Transducer::from_bytes`] can take `bytes`: false exactly
    /// when the file reads but declares more input symbols than symbols (and
    /// more than one), so that its input symbols would lie past its alphabet.
    pub fn symbol_counts_fit(bytes: &[u8]) -> (r: bool)
        ensures
            r == input_symbols_fit(bytes@),
    {
        let ghost b = bytes@;
        let mut c = Cursor::new(bytes);
        let header = match Header::parse(&mut c) {
            Ok(h) => h,
            Err(_) => return true,
        };
        let ghost q = spec_header(b, 0)->Ok_0.0;
        if header.number_of_input_symbols <= header.number_of_symbols
            || header.number_of_input_symbols <= 1 {
            return true;
        }
        match Alphabet::parse(&mut c, header.number_of_symbols) {
            Ok(_) => {},
            Err(_) => return true,
        }
        let rest = (bytes.len() - c.pos) as u64;
        let width: u64 = if header.weighted {
            12
        } else {
            8
        };
        let need = 6 * (header.size_of_index_table as u64) + width
            * (header.size_of_target_table as u64);
        proof {
            assert(q == spec_layout(b)->Ok_0.header_start || spec_layout(b) is Err);
        }
        need > rest
    }
}

impl Transducer {
    /// The tables agree with the header, the alphabet is what its symbols
    /// say, and the tokenizer order lists the candidate input symbols.
    pub open spec fn wf(&self) -> bool {
        &&& self.ready()
        &&& self.alphabet.wf()
        &&& self.alphabet.symbols@.len() == self.header.number_of_symbols
        &&& self.index_table@.len() == self.header.size_of_index_table
        &&& self.transition_table@.len() == self.header.size_of_target_table
        &&& tokenizer_order_ok(
            self.alphabet.model(),
            self.header.number_of_input_symbols,
            self.tokenizer_order@,
        )
        &&& !self.header.weighted ==> forall|k: int|
            0 <= k < self.transition_table@.len() ==> (#[trigger] self.transition_table@[k]).weight
                == 0
    }

    /// The transducer is the one that the bytes `b`, laid out as `l`, hold.
    pub open spec fn loaded_from(&self, b: Seq<u8>, l: Layout) -> bool {
        &&& self.wf()
        &&& self.header.version@ == l.version
        &&& header_fields(self.header, b, l.header_start, l.wrapper_weighted)
        &&& self.header.weighted == l.weighted
        &&& self.alphabet.symbols@.len() == l.raw_symbols.len()
        &&& forall|i: int|
            0 <= i < l.raw_symbols.len() ==> #[trigger] self.alphabet.symbols@[i]@ == utf8_lossy(
                l.raw_symbols[i],
            )
        &&& forall|k: int|
            0 <= k < self.index_table@.len() ==> {
                &&& (#[trigger] self.index_table@[k]).input == le16(b, l.index_start + 6 * k)
                &&& self.index_table@[k].target == le32(b, l.index_start + 6 * k + 2)
            }
        &&& forall|k: int|
            0 <= k < self.transition_table@.len() ==> {
                let p = l.transition_start + (if l.weighted {
                    12int
                } else {
                    8int
                }) * k;
                &&& (#[trigger] self.transition_table@[k]).input == le16(b, p)
                &&& self.transition_table@[k].output == le16(b, p + 2)
                &&& self.transition_table@[k].target == le32(b, p + 4)
                &&& self.transition_table@[k].weight == if l.weighted {
                    le32(b, p + 8)
                } else {
                    0
                }
            }
    }

    /// Loads a transducer from in-memory bytes.
    #[verifier::loop_isolation(false)]
    pub fn from_bytes(bytes: &[u8]) -> (res: Result<Transducer>)
        requires
            input_symbols_fit(bytes@),
        ensures
            match spec_layout(bytes@) {
                Ok(l) => res matches Ok(t) && t.loaded_from(bytes@, l),
                Err(f) => res matches Err(e) && reports(e, f),
            },
    {
        let ghost b = bytes@;
        let mut c = Cursor::new(bytes);
        let header = Header::parse(&mut c)?;
        let alphabet = Alphabet::parse(&mut c, header.number_of_symbols)?;
        let ghost q = spec_header(b, 0)->Ok_0.0;
        let ghost p2 = c.pos as int;

        let mut index_table: Vec<IndexEntry> = Vec::with_capacity(header.size_of_index_table as usize);
        let mut k: u32 = 0;
        while k < header.size_of_index_table
            invariant
                c.buf@ == b,
                c.wf(),
                k <= header.size_of_index_table,
                index_table@.len() == k,
                c.pos == p2 + 6 * k,
                forall|j: int|
                    0 <= j < k ==> {
                        &&& (#[trigger] index_table@[j]).input == le16(b, p2 + 6 * j)
                        &&& index_table@[j].target == le32(b, p2 + 6 * j + 2)
                    },
            decreases header.size_of_index_table - k,
        {
            let input = c.u16()?;
            let target = c.u32()?;
            index_table.push(IndexEntry { input, target });
            k = k + 1;
        }

        let ghost p3 = c.pos as int;
        let mut transition_table: Vec<TransitionEntry> = Vec::with_capacity(
            header.size_of_target_table as usize,
        );
        let mut k: u32 = 0;
        while k < header.size_of_target_table
            invariant
                c.buf@ == b,
                c.wf(),
                k <= header.size_of_target_table,
                transition_table@.len() == k,
                c.pos == p3 + (if header.weighted {
                    12int
                } else {
                    8int
                }) * k,
                forall|j: int|
                    0 <= j < k ==> {
                        let p = p3 + (if header.weighted {
                            12int
                        } else {
                            8int
                        }) * j;
                        &&& (#[trigger] transition_table@[j]).input == le16(b, p)
                        &&& transition_table@[j].output == le16(b, p + 2)
                        &&& transition_table@[j].target == le32(b, p + 4)
                        &&& transition_table@[j].weight == if header.weighted {
                            le32(b, p + 8)
                        } else {
                            0
                        }
                    },
            decreases header.size_of_target_table - k,
        {
            let input = c.u16()?;
            let output = c.u16()?;
            let target = c.u32()?;
            let weight = if header.weighted {
                c.f32_bits()?
            } else {
                0
            };
            transition_table.push(TransitionEntry { input, output, target, weight });
            k = k + 1;
        }

        let tokenizer_order = build_tokenizer_order(&alphabet, header.number_of_input_symbols);
        let t = Transducer { header, alphabet, index_table, transition_table, tokenizer_order };
        proof {
            let l = spec_layout(b)->Ok_0;
            assert(l.header_start == q);
            assert(l.index_start == p2);
            assert(l.transition_start == p3);
            assert(t.wf());
            assert(t.header.weighted == l.weighted);
            assert(t.loaded_from(b, l));
        }
        Ok(t)
    }
}

/// The symbol numbers (as `u16`) of the positions where `picks` holds, in
/// increasing order.
pub open spec fn indices_where(picks: Seq<bool>) -> Seq<u16>
    decreases picks.len(),
{
    if picks.len() == 0 {
        Seq::empty()
    } else if picks.last() {
        indices_where(picks.drop_last()).push((picks.len() - 1) as u16)
    } else {
        indices_where(picks.drop_last())
    }
}

/// A call of `pred` on a string slice spelling `text` can return `b`.
pub open spec fn picked_by<F: FnMut(&str) -> bool>(pred: F, text: Seq<char>, b: bool) -> bool {
    exists|s: &str| s@ == text && #[trigger] call_ensures(pred, (s,), b)
}

impl Transducer {
    /// The symbol texts.
    pub open spec fn symbol_texts(&self) -> Seq<Seq<char>> {
        self.alphabet.symbol_texts()
    }

    /// Symbol numbers whose name satisfies `pred` (e.g. tags like
    /// `+Err/Orth`), in increasing order, for use as `banned_outputs` in
    /// [`Transducer::lookup_with_frontier`].
    pub fn symbols_where<F: FnMut(&str) -> bool>(&self, mut pred: F) -> (r: Vec<u16>)
        requires
            forall|i: int, s: &str|
                0 <= i < self.symbol_texts().len() && s@ == self.symbol_texts()[i] ==> call_requires(
                    pred,
                    (s,),
                ),
        ensures
            exists|picks: Seq<bool>|
                {
                    &&& picks.len() == self.symbol_texts().len()
                    &&& r@ == indices_where(picks)
                    &&& forall|i: int|
                        0 <= i < picks.len() ==> picked_by(pred, self.symbol_texts()[i], #[trigger] picks[i])
                },
    {
        let mut r: Vec<u16> = Vec::new();
        let mut i: usize = 0;
        let ghost mut picks: Seq<bool> = Seq::empty();
        let ghost pred0 = pred;
        while i < self.alphabet.symbols.len()
            invariant
                pred == pred0,
                i <= self.alphabet.symbols@.len(),
                self.symbol_texts() == self.alphabet.symbol_texts(),
                forall|j: int, s: &str|
                    0 <= j < self.symbol_texts().len() && s@ == self.symbol_texts()[j]
                        ==> call_requires(pred, (s,)),
                picks.len() == i,
                r@ == indices_where(picks),
                forall|j: int|
                    0 <= j < picks.len() ==> picked_by(pred, self.symbol_texts()[j], #[trigger] picks[j]),
            decreases self.alphabet.symbols@.len() - i,
        {
            let s = self.alphabet.symbols[i].as_str();
            proof {
                assert(self.symbol_texts()[i as int] == s@);
                assert(call_requires(pred, (s,)));
            }
            let hit = pred(s);
            let ghost old_picks = picks;
            if hit {
                r.push(#[verifier::truncate] (i as u16));
            }
            proof {
                picks = picks.push(hit);
                assert(picks.drop_last() =~= old_picks);
                assert(picked_by(pred, self.symbol_texts()[i as int], hit));
                assert forall|j: int|
                    0 <= j < picks.len() implies picked_by(pred, self.symbol_texts()[j], #[trigger] picks[j]) by {
                    if j < i {
                        assert(picks[j] == old_picks[j]);
                    }
                }
            }
            i = i + 1;
        }
        proof {
            assert(picks.len() == self.symbol_texts().len());
            assert(forall|j: int|
                0 <= j < picks.len() ==> picked_by(pred, self.symbol_texts()[j], #[trigger] picks[j]));
        }
        r
    }
}

} // verus!

verus! {

// ---------------------------------------------------------------------------
// Bare and wrapped files.
// ---------------------------------------------------------------------------

/// Reading strings from a file that starts `q` bytes in reads the same
/// strings, `q` bytes earlier.
proof fn lemma_cstrs_shift(b: Seq<u8>, q: int, p: int, n: nat)
    requires
        0 <= q,
        0 <= p,
        p + q <= b.len(),
    ensures
        match cstrs(b, p + q, n) {
            Ok((ss, r)) => cstrs(b.skip(q), p, n) == Ok::<(Seq<Seq<u8>>, int), ParseFailure>(
                (ss, r - q),
            ),
            Err(f) => cstrs(b.skip(q), p, n) == Err::<(Seq<Seq<u8>>, int), ParseFailure>(f),
        },
    decreases n,
{
    if n > 0 {
        lemma_cstrs_shift(b, q, p, (n - 1) as nat);
        match cstrs(b, p + q, (n - 1) as nat) {
            Ok((ss, r)) => {
                assert(r >= p + q) by {
                    lemma_cstrs_pos(b, p + q, (n - 1) as nat);
                }
                assert(b.skip(q).skip(r - q) =~= b.skip(r));
                let z = crate::header::next_zero(b.skip(r));
                if r + z < b.len() {
                    assert(b.skip(q).subrange(r - q, r - q + z) =~= b.subrange(r, r + z));
                }
            },
            Err(_) => {},
        }
    }
}

/// Reading strings ends at or after where it began.
proof fn lemma_cstrs_pos(b: Seq<u8>, p: int, n: nat)
    requires
        p <= b.len(),
    ensures
        cstrs(b, p, n) matches Ok((ss, r)) ==> p <= r <= b.len(),
    decreases n,
{
    if n > 0 {
        lemma_cstrs_pos(b, p, (n - 1) as nat);
    }
}

/// Reading numbers from a file that starts `q` bytes in reads the same
/// numbers, `q` bytes earlier.
proof fn lemma_le_shift(b: Seq<u8>, q: int, p: int)
    requires
        0 <= q,
        0 <= p,
        p + q + 4 <= b.len(),
    ensures
        le16(b.skip(q), p) == le16(b, p + q),
        le32(b.skip(q), p) == le32(b, p + q),
{
    assert(b.skip(q)[p] == b[p + q]);
    assert(b.skip(q)[p + 1] == b[p + q + 1]);
    assert(b.skip(q)[p + 2] == b[p + q + 2]);
    assert(b.skip(q)[p + 3] == b[p + q + 3]);
}

/// Reading a `u16` from a file that starts `q` bytes in.
proof fn lemma_le16_shift(b: Seq<u8>, q: int, p: int)
    requires
        0 <= q,
        0 <= p,
        p + q + 2 <= b.len(),
    ensures
        le16(b.skip(q), p) == le16(b, p + q),
{
    assert(b.skip(q)[p] == b[p + q]);
    assert(b.skip(q)[p + 1] == b[p + q + 1]);
}

/// Two sequences strictly ordered by `precedes` that hold the same symbols
/// are the same sequence.
proof fn lemma_sorted_unique(a: AlphabetModel, o1: Seq<u16>, o2: Seq<u16>)
    requires
        forall|p: int, q: int| 0 <= p < q < o1.len() ==> precedes(a, #[trigger] o1[p], #[trigger] o1[q]),
        forall|p: int, q: int| 0 <= p < q < o2.len() ==> precedes(a, #[trigger] o2[p], #[trigger] o2[q]),
        forall|x: u16| o1.contains(x) <==> o2.contains(x),
    ensures
        o1 == o2,
    decreases o1.len() + o2.len(),
{
    if o1.len() == 0 {
        if o2.len() > 0 {
            assert(o2.contains(o2[0]));
        }
        assert(o1 =~= o2);
    } else {
        assert(o1.contains(o1[0]));
        let j = choose|j: int| 0 <= j < o2.len() && o2[j] == o1[0];
        assert(o2.contains(o2[0]));
        let i = choose|i: int| 0 <= i < o1.len() && o1[i] == o2[0];
        if j > 0 {
            assert(precedes(a, o2[0], o2[j]));
            if i > 0 {
                assert(precedes(a, o1[0], o1[i]));
            }
        }
        assert(o1[0] == o2[0]);
        let t1 = o1.drop_first();
        let t2 = o2.drop_first();
        assert forall|x: u16| t1.contains(x) <==> t2.contains(x) by {
            if t1.contains(x) {
                let k = choose|k: int| 0 <= k < t1.len() && t1[k] == x;
                assert(o1[k + 1] == x);
                assert(precedes(a, o1[0], o1[k + 1]));
                assert(o2.contains(x));
                let m = choose|m: int| 0 <= m < o2.len() && o2[m] == x;
                if m == 0 {
                    assert(false);
                }
                assert(t2[m - 1] == x);
            }
            if t2.contains(x) {
                let k = choose|k: int| 0 <= k < t2.len() && t2[k] == x;
                assert(o2[k + 1] == x);
                assert(precedes(a, o2[0], o2[k + 1]));
                assert(o1.contains(x));
                let m = choose|m: int| 0 <= m < o1.len() && o1[m] == x;
                if m == 0 {
                    assert(false);
                }
                assert(t1[m - 1] == x);
            }
        }
        assert forall|p: int, q: int| 0 <= p < q < t1.len() implies precedes(a, #[trigger] t1[p], #[trigger] t1[q]) by {
            assert(t1[p] == o1[p + 1] && t1[q] == o1[q + 1]);
        }
        assert forall|p: int, q: int| 0 <= p < q < t2.len() implies precedes(a, #[trigger] t2[p], #[trigger] t2[q]) by {
            assert(t2[p] == o2[p + 1] && t2[q] == o2[q + 1]);
        }
        lemma_sorted_unique(a, t1, t2);
        assert(o1 =~= seq![o1[0]] + t1);
        assert(o2 =~= seq![o2[0]] + t2);
    }
}

/// Where the parts of a readable file lie relative to each other.
proof fn lemma_layout_facts(b: Seq<u8>)
    requires
        spec_layout(b) is Ok,
    ensures
        ({
            let l = spec_layout(b)->Ok_0;
            &&& 0 <= l.header_start
            &&& l.header_start + 56 <= l.index_start
            &&& l.transition_start == l.index_start + 6 * le32(b, l.header_start + 4)
            &&& l.weighted ==> l.end == l.transition_start + 12 * le32(b, l.header_start + 8)
            &&& !l.weighted ==> l.end == l.transition_start + 8 * le32(b, l.header_start + 8)
            &&& l.end <= b.len()
            &&& l.weighted == match l.wrapper_weighted {
                Some(x) => x,
                None => le32(b, l.header_start + 20) != 0,
            }
            &&& l.raw_symbols.len() == le16(b, l.header_start + 2)
        }),
{
    let (q, ver, w) = spec_header(b, 0)->Ok_0;
    assert(0 <= q && q + 56 <= b.len()) by {
        reveal(spec_wrapper);
    }
    lemma_cstrs_pos(b, q + 56, le16(b, q + 2) as nat);
    lemma_cstrs_len(b, q + 56, le16(b, q + 2) as nat);
}

/// Reading `n` strings gives `n` strings.
proof fn lemma_cstrs_len(b: Seq<u8>, p: int, n: nat)
    ensures
        cstrs(b, p, n) matches Ok((ss, r)) ==> ss.len() == n,
    decreases n,
{
    if n > 0 {
        lemma_cstrs_len(b, p, (n - 1) as nat);
    }
}

/// The file `b` with its HFST3 wrapper stripped, when it has a wrapper whose
/// type agrees with the weighted flag of its optimized-lookup header, and
/// the bare file does not itself begin with `"HFST"`.
pub open spec fn strippable(b: Seq<u8>) -> bool {
    &&& spec_layout(b) is Ok
    &&& has_wrapper(b, 0)
    &&& !has_wrapper(b.skip(spec_layout(b)->Ok_0.header_start), 0)
    &&& spec_layout(b)->Ok_0.weighted == (le32(b, spec_layout(b)->Ok_0.header_start + 20) != 0)
}

/// Stripping the HFST3 wrapper off a readable file (one whose type agrees
/// with its header's weighted flag) leaves a readable bare file with the
/// same symbols and tables, shifted to the front. (This holds unless the
/// bare file itself happens to begin with the bytes `"HFST"`.)
pub proof fn bare_file_loads(b: Seq<u8>)
    requires
        strippable(b),
    ensures
        ({
            let l = spec_layout(b)->Ok_0;
            let bare = b.skip(l.header_start);
            &&& spec_layout(bare) matches Ok(l2) && {
                &&& l2.header_start == 0
                &&& l2.raw_symbols == l.raw_symbols
                &&& l2.index_start == l.index_start - l.header_start
                &&& l2.transition_start == l.transition_start - l.header_start
                &&& l2.weighted == l.weighted
            }
            &&& input_symbols_fit(bare) == input_symbols_fit(b)
        }),
{
    lemma_layout_facts(b);
    let l = spec_layout(b)->Ok_0;
    let q = l.header_start;
    let bare = b.skip(q);
    assert(spec_wrapper(bare, 0) == Ok::<(int, Seq<char>, Option<bool>), ParseFailure>((0, Seq::empty(), None)));
    assert(spec_header(bare, 0) == Ok::<(int, Seq<char>, Option<bool>), ParseFailure>((0, Seq::empty(), None)));
    lemma_le_shift(b, q, 0);
    lemma_le_shift(b, q, 4);
    lemma_le_shift(b, q, 8);
    lemma_le_shift(b, q, 20);
    lemma_le16_shift(b, q, 2);
    lemma_cstrs_shift(b, q, 56, le16(b, q + 2) as nat);
    lemma_cstrs_pos(b, q + 56, le16(b, q + 2) as nat);
    assert(spec_layout(bare) is Ok);
}

/// The alphabets of two transducers loaded from the same symbol strings
/// have the same model.
proof fn lemma_same_alphabet(a1: Alphabet, a2: Alphabet, raws: Seq<Seq<u8>>)
    requires
        a1.wf(),
        a2.wf(),
        a1.symbols@.len() == raws.len(),
        a2.symbols@.len() == raws.len(),
        forall|i: int| 0 <= i < raws.len() ==> #[trigger] a1.symbols@[i]@ == utf8_lossy(raws[i]),
        forall|i: int| 0 <= i < raws.len() ==> #[trigger] a2.symbols@[i]@ == utf8_lossy(raws[i]),
    ensures
        a1.model() == a2.model(),
{
    assert(a1.symbol_texts() =~= a2.symbol_texts()) by {
        assert forall|i: int| 0 <= i < a1.symbols@.len() implies a1.symbols@[i]@ == a2.symbols@[i]@ by {
            assert(a1.symbols@[i]@ == utf8_lossy(raws[i]));
            assert(a2.symbols@[i]@ == utf8_lossy(raws[i]));
        }
    }
    assert(a1.flag_models() =~= a2.flag_models()) by {
        assert forall|i: int| 0 <= i < a1.flags@.len() implies flag_model(a1.flags@[i]) == flag_model(a2.flags@[i]) by {
            assert(a1.symbols@[i]@ == a1.symbol_texts()[i]);
            assert(a2.symbols@[i]@ == a2.symbol_texts()[i]);
        }
    }
}

/// A bare optimized-lookup file loads and applies identically to the same
/// file with an HFST3 wrapper: for every input and every list of banned
/// outputs, the two transducers give the same analyses, the same frontier,
/// and the same answer to whether their outputs name known symbols.
pub proof fn bare_and_wrapped_apply_alike(
    b: Seq<u8>,
    wrapped: Transducer,
    bare: Transducer,
    input: Seq<char>,
    banned: Seq<u16>,
)
    requires
        strippable(b),
        wrapped.loaded_from(b, spec_layout(b)->Ok_0),
        spec_layout(b.skip(spec_layout(b)->Ok_0.header_start)) is Ok,
        bare.loaded_from(
            b.skip(spec_layout(b)->Ok_0.header_start),
            spec_layout(b.skip(spec_layout(b)->Ok_0.header_start))->Ok_0,
        ),
    ensures
        wrapped.analyses(input, banned) == bare.analyses(input, banned),
        wrapped.frontier(input, banned) == bare.frontier(input, banned),
        wrapped.outputs_known(input, banned) == bare.outputs_known(input, banned),
{
    bare_file_loads(b);
    lemma_layout_facts(b);
    let l = spec_layout(b)->Ok_0;
    let q = l.header_start;
    let bb = b.skip(q);
    let l2 = spec_layout(bb)->Ok_0;
    lemma_same_alphabet(wrapped.alphabet, bare.alphabet, l.raw_symbols);
    lemma_le16_shift(b, q, 0);
    lemma_sorted_unique(wrapped.alphabet.model(), wrapped.tokenizer_order@, bare.tokenizer_order@);
    lemma_same_tables(b, wrapped, bare);
    assert(wrapped.model() == bare.model());
}

/// The tables of a wrapped file and of its bare copy are the same.
proof fn lemma_same_tables(b: Seq<u8>, wrapped: Transducer, bare: Transducer)
    requires
        strippable(b),
        wrapped.loaded_from(b, spec_layout(b)->Ok_0),
        spec_layout(b.skip(spec_layout(b)->Ok_0.header_start)) is Ok,
        bare.loaded_from(
            b.skip(spec_layout(b)->Ok_0.header_start),
            spec_layout(b.skip(spec_layout(b)->Ok_0.header_start))->Ok_0,
        ),
    ensures
        wrapped.index_table@ == bare.index_table@,
        wrapped.transition_table@ == bare.transition_table@,
{
    bare_file_loads(b);
    lemma_layout_facts(b);
    let l = spec_layout(b)->Ok_0;
    let q = l.header_start;
    let bb = b.skip(q);
    let l2 = spec_layout(bb)->Ok_0;
    lemma_le_shift(b, q, 4);
    lemma_le_shift(b, q, 8);
    assert(wrapped.index_table@ =~= bare.index_table@) by {
        assert forall|k: int| 0 <= k < wrapped.index_table@.len() implies wrapped.index_table@[k] == bare.index_table@[k] by {
            lemma_le16_shift(b, q, l2.index_start + 6 * k);
            lemma_le_shift(b, q, l2.index_start + 6 * k + 2);
        }
    }
    assert(wrapped.transition_table@ =~= bare.transition_table@) by {
        assert forall|k: int| 0 <= k < wrapped.transition_table@.len() implies wrapped.transition_table@[k] == bare.transition_table@[k] by {
            if l.weighted {
                let p = l.transition_start + 12 * k;
                lemma_le16_shift(b, q, p - q);
                lemma_le16_shift(b, q, p - q + 2);
                lemma_le_shift(b, q, p - q + 4);
                lemma_le_shift(b, q, p - q + 8);
            } else {
                let p = l.transition_start + 8 * k;
                lemma_le16_shift(b, q, p - q);
                lemma_le16_shift(b, q, p - q + 2);
                lemma_le_shift(b, q, p - q + 4);
            }
        }
    }
}

impl Transducer {
    /// Every transition of the table outputs epsilon, a flag diacritic, or a
    /// symbol that the alphabet holds.
    pub open spec fn outputs_named(&self) -> bool {
        outputs_in_range(self.model())
    }

    /// Whether every transition outputs epsilon, a flag diacritic, or a
    /// symbol of the alphabet; when it does, every input can be looked up.
    pub fn outputs_are_named(&self) -> (r: bool)
        ensures
            r == self.outputs_named(),
    {
        let ghost t = self.model();
        let mut k: usize = 0;
        while k < self.transition_table.len()
            invariant
                t == self.model(),
                k <= self.transition_table@.len(),
                forall|j: int|
                    0 <= j < k && (#[trigger] t.transition_table[j]).input != NO_SYMBOL
                        ==> epsilon_like(t, t.transition_table[j].output) || (
                    t.transition_table[j].output as int) < t.symbols.len(),
            decreases self.transition_table@.len() - k,
        {
            let tr = self.transition_table[k];
            let known = self.alphabet.is_epsilon_like(tr.output) || (tr.output as usize)
                < self.alphabet.symbols.len();
            proof {
                assert(self.alphabet.epsilon_like(tr.output) == epsilon_like(t, tr.output));
                assert(t.symbols.len() == self.alphabet.symbols@.len());
                assert(t.transition_table[k as int] == tr);
            }
            if tr.input != NO_SYMBOL && !known {
                return false;
            }
            k = k + 1;
        }
        true
    }
}

/// A loaded transducer is well formed, and so ready to look words up: its
/// tokenizer order lists only non-empty symbols of its alphabet.
pub proof fn loaded_is_ready(t: &Transducer, b: Seq<u8>, l: Layout)
    requires
        t.loaded_from(b, l),
    ensures
        t.wf(),
        t.ready(),
{
}

/// `text` begins `rest`.
pub open spec fn begins(text: Seq<char>, rest: Seq<char>) -> bool {
    text.len() <= rest.len() && rest.take(text.len() as int) == text
}

impl Transducer {
    /// The symbol that tokenisation reads at the front of `rest`, when a
    /// symbol's text begins it (else one character is read as the unknown or
    /// identity symbol).
    pub open spec fn first_symbol(&self, rest: Seq<char>) -> Option<u16> {
        first_match(self.model(), rest, 0)
    }

    /// Symbol `x` takes part in tokenisation: an input symbol, neither
    /// epsilon nor a flag, with non-empty text, and neither the identity nor
    /// the unknown marker.
    pub open spec fn tokenizes_with(&self, x: u16) -> bool {
        is_candidate(self.alphabet.model(), self.header.number_of_input_symbols, x)
    }

    /// The number of bytes of the UTF-8 text of symbol `x`.
    pub open spec fn symbol_bytes(&self, x: u16) -> nat {
        byte_len(self.alphabet.model(), x)
    }
}

/// `first_match` from `k` picks the first symbol of the order whose text
/// begins `rest`; `None` when no symbol from `k` on does.
proof fn lemma_first_match_scan(t: TransducerModel, rest: Seq<char>, k: int)
    requires
        0 <= k,
    ensures
        match first_match(t, rest, k) {
            Some(s) => exists|j: int|
                #![trigger t.tokenizer_order[j]]
                k <= j < t.tokenizer_order.len() && t.tokenizer_order[j] == s && begins(
                    sym_chars(t, s),
                    rest,
                ) && forall|i: int|
                    k <= i < j ==> !begins(sym_chars(t, #[trigger] t.tokenizer_order[i]), rest),
            None => forall|i: int|
                k <= i < t.tokenizer_order.len() ==> !begins(
                    sym_chars(t, #[trigger] t.tokenizer_order[i]),
                    rest,
                ),
        },
    decreases t.tokenizer_order.len() - k,
{
    if k < t.tokenizer_order.len() {
        lemma_first_match_scan(t, rest, k + 1);
        if !begins(sym_chars(t, t.tokenizer_order[k]), rest) {
            if let Some(s) = first_match(t, rest, k + 1) {
                let j = choose|j: int|
                    #![trigger t.tokenizer_order[j]]
                    k + 1 <= j < t.tokenizer_order.len() && t.tokenizer_order[j] == s && begins(
                        sym_chars(t, s),
                        rest,
                    ) && forall|i: int|
                        k + 1 <= i < j ==> !begins(
                            sym_chars(t, #[trigger] t.tokenizer_order[i]),
                            rest,
                        );
                assert forall|i: int| k <= i < j implies !begins(
                    sym_chars(t, #[trigger] t.tokenizer_order[i]),
                    rest,
                ) by {
                    if i > k {
                        assert(k + 1 <= i < j);
                    }
                }
            }
        }
    }
}

/// Tokenisation takes the longest match: the symbol read at the front of
/// `rest` is an input symbol that takes part in tokenisation, its text
/// begins `rest`, and no such symbol whose text begins `rest` is longer in
/// bytes. When no symbol is read, no such symbol's text begins `rest`.
pub proof fn tokenizer_takes_longest_match(t: &Transducer, rest: Seq<char>)
    requires
        t.wf(),
    ensures
        match t.first_symbol(rest) {
            Some(s) => {
                &&& t.tokenizes_with(s)
                &&& begins(t.symbol_texts()[s as int], rest)
                &&& forall|x: u16|
                    #![trigger t.tokenizes_with(x)]
                    t.tokenizes_with(x) && begins(t.symbol_texts()[x as int], rest)
                        ==> encode_utf8(t.symbol_texts()[x as int]).len() <= encode_utf8(
                        t.symbol_texts()[s as int],
                    ).len()
            },
            None => forall|x: u16|
                #![trigger t.tokenizes_with(x)]
                t.tokenizes_with(x) ==> !begins(t.symbol_texts()[x as int], rest),
        },
{
    let m = t.model();
    let a = t.alphabet.model();
    let n_in = t.header.number_of_input_symbols;
    let order = t.tokenizer_order@;
    lemma_first_match_scan(m, rest, 0);
    match t.first_symbol(rest) {
        Some(s) => {
            let j = choose|j: int|
                #![trigger m.tokenizer_order[j]]
                0 <= j < m.tokenizer_order.len() && m.tokenizer_order[j] == s && begins(
                    sym_chars(m, s),
                    rest,
                ) && forall|i: int|
                    0 <= i < j ==> !begins(sym_chars(m, #[trigger] m.tokenizer_order[i]), rest);
            assert(is_candidate(a, n_in, order[j]));
            assert forall|x: u16|
                #![trigger is_candidate(a, n_in, x)]
                is_candidate(a, n_in, x) && begins(a.symbols[x as int], rest) implies byte_len(
                a,
                x,
            ) <= byte_len(a, s) by {
                assert(order.contains(x));
                let p = choose|p: int| 0 <= p < order.len() && order[p] == x;
                if p < j {
                    assert(!begins(sym_chars(m, m.tokenizer_order[p]), rest));
                } else if p > j {
                    assert(precedes(a, order[j], order[p]));
                }
            }
        },
        None => {
            assert forall|x: u16|
                #![trigger is_candidate(a, n_in, x)]
                is_candidate(a, n_in, x) implies !begins(a.symbols[x as int], rest) by {
                assert(order.contains(x));
                let p = choose|p: int| 0 <= p < order.len() && order[p] == x;
                assert(!begins(sym_chars(m, m.tokenizer_order[p]), rest));
            }
        },
    }
}

/// When every transition outputs epsilon, a flag diacritic or a symbol of
/// the alphabet, every analysis of every input names only known symbols.
pub proof fn named_outputs_serve_every_input(t: &Transducer, input: Seq<char>, banned: Seq<u16>)
    requires
        t.outputs_named(),
    ensures
        t.outputs_known(input, banned),
{
    if let Some(toks) = t.tokens_of(input) {
        lemma_step_props(
            t.model(),
            toks,
            banned,
            MAX_DEPTH as nat,
            0,
            0,
            Seq::empty(),
            Map::empty(),
            Seq::empty(),
        );
    }
}

/// An unweighted transducer weighs nothing: every weight along the path of
/// every analysis is `0.0` (the bit pattern zero).
pub proof fn unweighted_analyses_weigh_nothing(t: &Transducer, input: Seq<char>, banned: Seq<u16>)
    requires
        t.wf(),
        !t.header.weighted,
    ensures
        forall|k: int, i: int|
            0 <= k < t.analyses(input, banned).len() && 0 <= i < t.analyses(
                input,
                banned,
            )[k].1.len() ==> #[trigger] t.analyses(input, banned)[k].1[i] == 0,
{
    assert(zero_weights(t.model()));
    if let Some(toks) = t.tokens_of(input) {
        lemma_step_props(
            t.model(),
            toks,
            banned,
            MAX_DEPTH as nat,
            0,
            0,
            Seq::empty(),
            Map::empty(),
            Seq::empty(),
        );
        let f = t.search(toks, banned);
        assert forall|k: int, i: int|
            0 <= k < t.analyses(input, banned).len() && 0 <= i < t.analyses(
                input,
                banned,
            )[k].1.len() implies #[trigger] t.analyses(input, banned)[k].1[i] == 0 by {
            assert(t.analyses(input, banned) == f.0);
            assert(all_zero(f.0[k].1));
        }
    }
}

} // verus!

verus! {

/// Every prefix of the tokens of `rest` spells a prefix of `rest`: its byte
/// count is that of the UTF-8 text of the first `c` characters, for some `c`.
proof fn lemma_token_prefix_bytes(t: TransducerModel, rest: Seq<char>, k: int)
    requires
        order_ready(t),
        spec_tokenize(t, rest) is Some,
        0 <= k <= spec_tokenize(t, rest).unwrap().len(),
    ensures
        exists|c: int|
            0 <= c <= rest.len() && tokens_bytes(t, spec_tokenize(t, rest).unwrap().take(k))
                == #[trigger] encode_utf8(rest.take(c)).len(),
    decreases rest.len(),
{
    let toks = spec_tokenize(t, rest).unwrap();
    if k == 0 {
        assert(toks.take(0) =~= Seq::<Token>::empty());
        assert(rest.take(0) =~= Seq::<char>::empty());
        assert(encode_utf8(rest.take(0)) =~= Seq::<u8>::empty());
        assert(tokens_bytes(t, toks.take(0)) == encode_utf8(rest.take(0)).len());
    } else {
        lemma_first_match(t, rest, 0);
        let (x, n, tail) = match first_match(t, rest, 0) {
            Some(s) => (Token { sym: s, orig: None }, sym_chars(t, s).len() as int, rest.skip(
                sym_chars(t, s).len() as int,
            )),
            None => (Token { sym: fallback_symbol(t).unwrap(), orig: Some(rest[0]) }, 1int, rest.drop_first()),
        };
        let ts = spec_tokenize(t, tail).unwrap();
        assert(toks == seq![x] + ts);
        assert(0 < n <= rest.len());
        lemma_token_prefix_bytes(t, tail, k - 1);
        let c2 = choose|c: int|
            0 <= c <= tail.len() && tokens_bytes(t, ts.take(k - 1)) == #[trigger] encode_utf8(
                tail.take(c),
            ).len();
        assert(toks.take(k) =~= seq![x] + ts.take(k - 1));
        lemma_tokens_bytes_cons(t, x, ts.take(k - 1));
        assert(rest.take(n + c2) =~= rest.take(n) + tail.take(c2));
        lemma_encode_concat(rest.take(n), tail.take(c2));
        if x.orig is None {
            assert(rest.take(n) == sym_chars(t, x.sym));
        } else {
            assert(rest.take(n) =~= seq![rest[0]]);
        }
        assert(tokens_bytes(t, toks.take(k)) == encode_utf8(rest.take(n + c2)).len());
    }
}

/// The frontier falls on a character boundary of the input: it is the
/// number of bytes of the UTF-8 text of the first `c` characters, for some
/// `c` (0 when no prefix stands alone). In particular it never passes the
/// end of the input.
pub proof fn frontier_is_a_prefix(t: &Transducer, input: Seq<char>, banned: Seq<u16>)
    requires
        t.ready(),
    ensures
        exists|c: int|
            0 <= c <= input.len() && t.frontier(input, banned) == #[trigger] encode_utf8(
                input.take(c),
            ).len(),
        t.frontier(input, banned) <= encode_utf8(input).len(),
{
    let m = t.model();
    match t.tokens_of(input) {
        None => {
            assert(input.take(0) =~= Seq::<char>::empty());
            assert(encode_utf8(input.take(0)) =~= Seq::<u8>::empty());
            assert(t.frontier(input, banned) == encode_utf8(input.take(0)).len());
        },
        Some(toks) => {
            let f = t.search(toks, banned).1;
            let k: int = if f < toks.len() { f as int } else { toks.len() as int };
            lemma_token_prefix_bytes(m, input, k);
        },
    }
    let c = choose|c: int|
        0 <= c <= input.len() && t.frontier(input, banned) == #[trigger] encode_utf8(
            input.take(c),
        ).len();
    assert(input =~= input.take(c) + input.skip(c));
    lemma_encode_concat(input.take(c), input.skip(c));
}

} // verus!

verus! {

/// The byte count of a prefix of tokens grows with the prefix.
pub(crate) proof fn lemma_tokens_bytes_mono(a: TransducerModel, toks: Seq<Token>, k1: int, k2: int)
    requires
        0 <= k1 <= k2 <= toks.len(),
    ensures
        tokens_bytes(a, toks.take(k1)) <= tokens_bytes(a, toks.take(k2)),
    decreases k2 - k1,
{
    if k1 < k2 {
        lemma_tokens_bytes_take(a, toks, k2 - 1);
        lemma_tokens_bytes_mono(a, toks, k1, k2 - 1);
    }
}

/// Banning outputs only prunes: with every output of `fewer` banned in
/// `banned` too, the analyses found with `banned` are found, in the same
/// order, with `fewer` (some may be left out), and the frontier lies no
/// further than the one found with `fewer`. Banning nothing is the case
/// `fewer` empty.
pub proof fn banning_only_prunes(
    t: &Transducer,
    input: Seq<char>,
    banned: Seq<u16>,
    fewer: Seq<u16>,
)
    requires
        bans_within(fewer, banned),
    ensures
        is_subseq(t.analyses(input, banned), t.analyses(input, fewer)),
        t.frontier(input, banned) <= t.frontier(input, fewer),
{
    let m = t.model();
    match t.tokens_of(input) {
        None => {
            let f = |i: int| i;
            assert(embeds(f, Seq::<AnalysisModel>::empty(), Seq::<AnalysisModel>::empty()));
        },
        Some(toks) => {
            lemma_step_pruned(
                m,
                toks,
                banned,
                fewer,
                MAX_DEPTH as nat,
                0,
                0,
                Seq::empty(),
                Map::empty(),
                Seq::empty(),
            );
            let fb = t.search(toks, banned).1;
            let fu = t.search(toks, fewer).1;
            let kb: int = if fb < toks.len() { fb as int } else { toks.len() as int };
            let ku: int = if fu < toks.len() { fu as int } else { toks.len() as int };
            lemma_tokens_bytes_mono(m, toks, kb, ku);
        },
    }
}

} // verus!

verus! {

/// `indices_where(picks)` holds exactly the positions where `picks` holds.
pub proof fn indices_where_holds(picks: Seq<bool>)
    requires
        picks.len() <= 0x1_0000,
    ensures
        forall|x: u16|
            #[trigger] indices_where(picks).contains(x) <==> ((x as int) < picks.len() && picks[x as int]),
    decreases picks.len(),
{
    if picks.len() > 0 {
        let prev = picks.drop_last();
        indices_where_holds(prev);
        let n = (picks.len() - 1) as u16;
        assert forall|x: u16|
            #[trigger] indices_where(picks).contains(x) <==> ((x as int) < picks.len() && picks[x as int]) by {
            if picks.last() {
                let r = indices_where(prev).push(n);
                assert(indices_where(picks) == r);
                if r.contains(x) {
                    let k = choose|k: int| 0 <= k < r.len() && r[k] == x;
                    if k < r.len() - 1 {
                        assert(indices_where(prev)[k] == x);
                        assert(indices_where(prev).contains(x));
                        assert(prev[x as int] == picks[x as int]);
                    }
                }
                if (x as int) < picks.len() && picks[x as int] {
                    if x == n {
                        assert(r[r.len() - 1] == x);
                    } else {
                        assert(prev[x as int] == picks[x as int]);
                        assert(indices_where(prev).contains(x));
                        let k = choose|k: int|
                            0 <= k < indices_where(prev).len() && indices_where(prev)[k] == x;
                        assert(r[k] == x);
                    }
                }
            } else {
                assert(indices_where(picks) == indices_where(prev));
                if (x as int) < prev.len() {
                    assert(prev[x as int] == picks[x as int]);
                }
            }
        }
    } else {
        assert forall|x: u16| !#[trigger] indices_where(picks).contains(x) by {}
    }
}

/// A choice and its opposite split the symbols: for picks and the opposite
/// picks over the same symbols, every symbol number is picked by exactly one
/// of the two, and no number past the symbols by either.
pub proof fn opposite_choices_partition(picks: Seq<bool>, opposite: Seq<bool>)
    requires
        picks.len() <= 0x1_0000,
        opposite.len() == picks.len(),
        forall|i: int| 0 <= i < picks.len() ==> #[trigger] opposite[i] == !picks[i],
    ensures
        forall|x: u16|
            (x as int) < picks.len() ==> (#[trigger] indices_where(picks).contains(x)
                != indices_where(opposite).contains(x)),
        forall|x: u16|
            (x as int) >= picks.len() ==> !#[trigger] indices_where(picks).contains(x)
                && !indices_where(opposite).contains(x),
{
    indices_where_holds(picks);
    indices_where_holds(opposite);
}

} // verus!

verus! {

// ---------------------------------------------------------------------------
// Bytes after the tables.
// ---------------------------------------------------------------------------

/// The first zero byte of a text that has one is unchanged by appending.
proof fn lemma_next_zero_append(s: Seq<u8>, x: Seq<u8>)
    requires
        next_zero(s) < s.len(),
    ensures
        next_zero(s + x) == next_zero(s),
    decreases s.len(),
{
    assert((s + x)[0] == s[0]);
    if s[0] != 0 {
        assert((s + x).drop_first() =~= s.drop_first() + x);
        lemma_next_zero_append(s.drop_first(), x);
    }
}

/// Symbol strings that read are read alike with bytes appended.
proof fn lemma_cstrs_append(b: Seq<u8>, x: Seq<u8>, p: int, n: nat)
    requires
        0 <= p,
        cstrs(b, p, n) is Ok,
    ensures
        cstrs(b + x, p, n) == cstrs(b, p, n),
        p <= cstrs(b, p, n)->Ok_0.1,
        n > 0 ==> cstrs(b, p, n)->Ok_0.1 <= b.len(),
    decreases n,
{
    if n > 0 {
        lemma_cstrs_append(b, x, p, (n - 1) as nat);
        let (ss, q) = cstrs(b, p, (n - 1) as nat)->Ok_0;
        let z = next_zero(b.skip(q));
        assert(q + z < b.len());
        assert((b + x).skip(q) =~= b.skip(q) + x);
        lemma_next_zero_append(b.skip(q), x);
        assert((b + x).subrange(q, q + z) =~= b.subrange(q, q + z));
    }
}

/// The header of a file that reads is read alike with bytes appended.
proof fn lemma_header_append(b: Seq<u8>, x: Seq<u8>)
    requires
        spec_header(b, 0) is Ok,
    ensures
        spec_header(b + x, 0) == spec_header(b, 0),
{
    let bx = b + x;
    let q = spec_header(b, 0)->Ok_0.0;
    assert(bx.subrange(0, 4) =~= b.subrange(0, 4));
    if has_wrapper(b, 0) {
        let end = 8 + le16(b, 5);
        assert(end <= b.len());
        assert(bx.subrange(8, end) =~= b.subrange(8, end));
    }
}

/// A file that reads keeps its layout with any bytes appended.
pub proof fn trailing_bytes_keep_layout(b: Seq<u8>, extra: Seq<u8>)
    requires
        spec_layout(b) is Ok,
    ensures
        spec_layout(b + extra) == spec_layout(b),
        input_symbols_fit(b + extra) == input_symbols_fit(b),
{
    lemma_layout_facts(b);
    lemma_header_append(b, extra);
    let q = spec_header(b, 0)->Ok_0.0;
    let n = le16(b, q + 2) as nat;
    lemma_cstrs_append(b, extra, q + 56, n);
}

/// Two headers hold the same fields.
pub open spec fn same_header(h1: Header, h2: Header) -> bool {
    &&& h1.version@ == h2.version@
    &&& h1.weighted == h2.weighted
    &&& h1.number_of_input_symbols == h2.number_of_input_symbols
    &&& h1.number_of_symbols == h2.number_of_symbols
    &&& h1.size_of_index_table == h2.size_of_index_table
    &&& h1.size_of_target_table == h2.size_of_target_table
    &&& h1.number_of_states == h2.number_of_states
    &&& h1.number_of_transitions == h2.number_of_transitions
    &&& h1.deterministic == h2.deterministic
    &&& h1.input_deterministic == h2.input_deterministic
    &&& h1.minimized == h2.minimized
    &&& h1.cyclic == h2.cyclic
    &&& h1.has_epsilon_epsilon_transitions == h2.has_epsilon_epsilon_transitions
    &&& h1.has_input_epsilon_transitions == h2.has_input_epsilon_transitions
    &&& h1.has_input_epsilon_cycles == h2.has_input_epsilon_cycles
    &&& h1.has_unweighted_input_epsilon_cycles == h2.has_unweighted_input_epsilon_cycles
}

/// Bytes after the tables are ignored: the transducer loaded from a file
/// and the one loaded from the same file with any bytes appended have the
/// same header, alphabet, tables and tokenizer order.
pub proof fn trailing_bytes_are_ignored(
    b: Seq<u8>,
    extra: Seq<u8>,
    l: Layout,
    t1: Transducer,
    t2: Transducer,
)
    requires
        spec_layout(b) == Ok::<Layout, ParseFailure>(l),
        t1.loaded_from(b, l),
        t2.loaded_from(b + extra, l),
    ensures
        same_header(t1.header, t2.header),
        t1.model() == t2.model(),
{
    lemma_layout_facts(b);
    let bx = b + extra;
    let q = l.header_start;
    assert forall|p: int| 0 <= p && p + 4 <= b.len() implies le32(bx, p) == le32(b, p) && le16(
        bx,
        p,
    ) == le16(b, p) by {
        assert(bx[p] == b[p] && bx[p + 1] == b[p + 1] && bx[p + 2] == b[p + 2] && bx[p + 3] == b[p
            + 3]);
    }
    assert(le16(bx, q + 2) == le16(b, q + 2)) by {
        assert(bx[q + 2] == b[q + 2] && bx[q + 3] == b[q + 3]);
    }
    lemma_same_alphabet(t1.alphabet, t2.alphabet, l.raw_symbols);
    lemma_sorted_unique(t1.alphabet.model(), t1.tokenizer_order@, t2.tokenizer_order@);
    assert(t1.index_table@ =~= t2.index_table@) by {
        assert forall|k: int| 0 <= k < t1.index_table@.len() implies t1.index_table@[k]
            == t2.index_table@[k] by {
            let p = l.index_start + 6 * k;
            assert(p + 6 <= l.transition_start);
            assert(bx[p] == b[p] && bx[p + 1] == b[p + 1]);
            assert(le32(bx, p + 2) == le32(b, p + 2));
        }
    }
    assert(t1.transition_table@ =~= t2.transition_table@) by {
        assert forall|k: int| 0 <= k < t1.transition_table@.len() implies t1.transition_table@[k]
            == t2.transition_table@[k] by {
            let w: int = if l.weighted { 12 } else { 8 };
            let p = l.transition_start + w * k;
            assert(p + w <= l.end) by (nonlinear_arith)
                requires
                    0 <= k < le32(b, q + 8),
                    w > 0,
                    p == l.transition_start + w * k,
                    l.end == l.transition_start + w * le32(b, q + 8),
            ;
            assert(bx[p] == b[p] && bx[p + 1] == b[p + 1]);
            assert(bx[p + 2] == b[p + 2] && bx[p + 3] == b[p + 3]);
            assert(le32(bx, p + 4) == le32(b, p + 4));
            if l.weighted {
                assert(le32(bx, p + 8) == le32(b, p + 8));
            }
        }
    }
}

} // verus!
