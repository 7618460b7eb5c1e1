//! What lookup finds, stated over paths through the tables.
//!
//! A path is a list of transition-table entries taken one after another from
//! the start state. The laws here say, in terms of such paths, of the
//! feature state and of the input text, what the traversal must find: every
//! accepting path gives its analysis and every analysis comes from one; the
//! frontier covers every final state reached and a word with an analysis
//! reaches it at its end; flag diacritics gate as documented; and the tokens
//! spell the input as longest match and the stand-in symbols choose them.

use vstd::prelude::*;

use crate::alphabet::{FlagOp, EPSILON};
use crate::flag_state::{spec_apply, FlagMap};
use crate::lookup::{
    emitted, flag_of, join, none_found, out_text, spec_eps, spec_find_index, spec_is_final,
    spec_out_sym, spec_step, spec_trans, sym_text, Found, OutSym, Token, MAX_DEPTH,
};
use crate::transducer::{
    fallback_symbol, first_match, is_candidate, lemma_first_match, spec_tokenize, sym_chars, AnalysisModel,
    lemma_tokenize_bytes, lemma_tokens_bytes_mono, tokens_bytes, Transducer, TransducerModel, NO_SYMBOL, NO_TARGET,
    TARGET_TABLE_START,
};
use vstd::utf8::encode_utf8;

verus! {

// ---------------------------------------------------------------------------
// Flag diacritics.
// ---------------------------------------------------------------------------

/// Flag diacritics gate as documented, in every feature state `m`:
/// `@P.f.v@` and `@N.f.v@` always pass and bind `f` to `v`, positively or
/// negatively; `@C.f@` always passes and unbinds `f`; `@R.f@` passes exactly
/// when `f` is bound and `@R.f.v@` exactly when `f` is bound positively to
/// `v`; `@D.f@` passes exactly when `f` is unbound and `@D.f.v@` exactly
/// when `f` is not bound positively to `v`; `@R@` and `@D@` never change the
/// state; `@U.f.v@` passes exactly when `f` is unbound, bound positively to
/// `v`, or bound negatively to another value, and then binds `f` positively
/// to `v`; a valueless `@U.f@` always blocks.
pub proof fn flag_operations_gate_as_documented(
    m: FlagMap,
    f: Seq<char>,
    v: Seq<char>,
    val: Option<Seq<char>>,
)
    ensures
        spec_apply(m, (FlagOp::P, f, Some(v))) is Some,
        spec_apply(m, (FlagOp::P, f, Some(v))).unwrap().0 == m.insert(f, (v, true)),
        spec_apply(m, (FlagOp::N, f, Some(v))) is Some,
        spec_apply(m, (FlagOp::N, f, Some(v))).unwrap().0 == m.insert(f, (v, false)),
        spec_apply(m, (FlagOp::C, f, val)) is Some,
        spec_apply(m, (FlagOp::C, f, val)).unwrap().0 == m.remove(f),
        spec_apply(m, (FlagOp::R, f, None)) is Some <==> m.contains_key(f),
        spec_apply(m, (FlagOp::R, f, Some(v))) is Some <==> (m.contains_key(f) && m[f] == (
            v,
            true,
        )),
        spec_apply(m, (FlagOp::D, f, None)) is Some <==> !m.contains_key(f),
        spec_apply(m, (FlagOp::D, f, Some(v))) is Some <==> !(m.contains_key(f) && m[f] == (
            v,
            true,
        )),
        spec_apply(m, (FlagOp::R, f, val)) is Some ==> spec_apply(m, (FlagOp::R, f, val)).unwrap().0
            == m,
        spec_apply(m, (FlagOp::D, f, val)) is Some ==> spec_apply(m, (FlagOp::D, f, val)).unwrap().0
            == m,
        spec_apply(m, (FlagOp::U, f, None)) is None,
        spec_apply(m, (FlagOp::U, f, Some(v))) is Some <==> (!m.contains_key(f) || m[f] == (v, true)
            || (!m[f].1 && m[f].0 != v)),
        spec_apply(m, (FlagOp::U, f, Some(v))) is Some ==> spec_apply(
            m,
            (FlagOp::U, f, Some(v)),
        ).unwrap().0 == m.insert(f, (v, true)),
{
    if m.contains_key(f) && m[f] == (v, true) {
        assert(m.insert(f, (v, true)) =~= m);
    }
}

// ---------------------------------------------------------------------------
// Paths through the tables.
// ---------------------------------------------------------------------------

/// Entry `j` of the transition table is an epsilon or flag-diacritic entry.
pub open spec fn eps_entry(t: TransducerModel, j: int) -> bool {
    &&& 0 <= j < t.transition_table.len()
    &&& t.transition_table[j].input != NO_SYMBOL
    &&& (t.transition_table[j].input == EPSILON || flag_of(t, t.transition_table[j].input) is Some)
}

/// Where the epsilon and flag entries of state `node` begin: right after the
/// finality entry of a transition-table state, or where the epsilon slot of
/// an index-table state points.
pub open spec fn eps_block(t: TransducerModel, node: u32) -> Option<int> {
    if node >= TARGET_TABLE_START {
        Some(node - TARGET_TABLE_START + 1)
    } else if node + 1 < t.index_table.len() && t.index_table[node + 1].input == EPSILON
        && t.index_table[node + 1].target >= TARGET_TABLE_START {
        Some(t.index_table[node + 1].target - TARGET_TABLE_START)
    } else {
        None
    }
}

/// Entry `j` is an epsilon or flag transition out of `node`: it lies in the
/// run of epsilon and flag entries that begins the state's block.
pub open spec fn eps_arc(t: TransducerModel, node: u32, j: int) -> bool {
    match eps_block(t, node) {
        Some(s) => s <= j && forall|i: int| s <= i <= j ==> #[trigger] eps_entry(t, i),
        None => false,
    }
}

/// Where the transitions of `node` that consume `sym` are looked for: right
/// after the finality entry of a transition-table state, or where the slot
/// of `sym` in an index-table state points.
pub open spec fn sym_block(t: TransducerModel, node: u32, sym: u16) -> Option<int> {
    if node >= TARGET_TABLE_START {
        Some(node - TARGET_TABLE_START + 1)
    } else {
        let slot = node + 1 + sym;
        if slot < t.index_table.len() && t.index_table[slot].input == sym
            && t.index_table[slot].target >= TARGET_TABLE_START {
            Some(t.index_table[slot].target - TARGET_TABLE_START)
        } else {
            None
        }
    }
}

/// Entry `j` is a transition out of `node` that consumes `sym`: it reads
/// `sym` and lies in the state's block, before the next "no symbol" entry.
pub open spec fn sym_arc(t: TransducerModel, node: u32, sym: u16, j: int) -> bool {
    match sym_block(t, node, sym) {
        Some(s) => {
            &&& s <= j < t.transition_table.len()
            &&& t.transition_table[j].input == sym
            &&& forall|i: int|
                s <= i <= j ==> #[trigger] t.transition_table[i].input != NO_SYMBOL
        },
        None => false,
    }
}

/// `node` is a final state: its finality entry in the transition table, or
/// its entry in the index table, marks it so.
pub open spec fn final_state(t: TransducerModel, node: u32) -> bool {
    if node >= TARGET_TABLE_START {
        let k = node - TARGET_TABLE_START;
        &&& k < t.transition_table.len()
        &&& t.transition_table[k].input == NO_SYMBOL
        &&& t.transition_table[k].output == NO_SYMBOL
        &&& t.transition_table[k].target == 1
    } else {
        &&& (node as int) < t.index_table.len()
        &&& t.index_table[node as int].input == NO_SYMBOL
        &&& t.index_table[node as int].target != NO_TARGET
    }
}

/// The text an arc writes for output symbol `out` when it read a token
/// carrying character `orig`: nothing for epsilon and flags; the character
/// read, when the output is the identity or unknown symbol and the token
/// stood for a character; else the symbol's text.
pub open spec fn arc_text(t: TransducerModel, out: u16, orig: Option<char>) -> Seq<char> {
    if out == EPSILON || flag_of(t, out) is Some {
        Seq::empty()
    } else if (Some(out) == t.identity || Some(out) == t.unknown) && orig is Some {
        seq![orig.unwrap()]
    } else {
        t.symbols[out as int]
    }
}

/// One transition of a path: the transition-table entry taken, and whether
/// it reads a token (else it is an epsilon or flag transition).
pub struct Edge {
    pub entry: int,
    pub reads: bool,
}

/// The weight a final state adds at the end of a path: that of its finality
/// entry in the transition table, or, in a weighted transducer, the one its
/// index-table entry holds (0 otherwise).
pub open spec fn final_weight(t: TransducerModel, node: u32) -> u32 {
    if node >= TARGET_TABLE_START {
        t.transition_table[node - TARGET_TABLE_START].weight
    } else if t.weighted {
        t.index_table[node as int].target
    } else {
        0
    }
}

/// `a` followed by `b`: the texts joined, and the weights.
pub open spec fn then(a: AnalysisModel, b: AnalysisModel) -> AnalysisModel {
    (a.0 + b.0, a.1 + b.1)
}

/// The analysis of the path `arcs` taken from `node` with the input cursor
/// at `pos` and feature state `flags`, when it is an accepting path: each
/// epsilon transition writes its output, each flag transition passes its gate
/// and writes nothing, each reading transition reads the next token and
/// writes its output, no output is banned, and the path ends in a final state
/// at the end of the input. Its weights are those of the transitions in
/// order, then the final weight. `None` when it is not such a path.
pub open spec fn path_analysis(
    t: TransducerModel,
    toks: Seq<Token>,
    banned: Seq<u16>,
    node: u32,
    pos: int,
    flags: FlagMap,
    arcs: Seq<Edge>,
) -> Option<AnalysisModel>
    decreases arcs.len(),
{
    if arcs.len() == 0 {
        if pos == toks.len() && final_state(t, node) {
            Some((Seq::empty(), seq![final_weight(t, node)]))
        } else {
            None
        }
    } else {
        let j = arcs[0].entry;
        let rest = arcs.drop_first();
        let tr = t.transition_table[j];
        if !arcs[0].reads {
            if !eps_arc(t, node, j) {
                None
            } else if tr.input == EPSILON {
                if banned.contains(tr.output) {
                    None
                } else {
                    match path_analysis(t, toks, banned, tr.target, pos, flags, rest) {
                        Some(r) => Some(then((arc_text(t, tr.output, None), seq![tr.weight]), r)),
                        None => None,
                    }
                }
            } else {
                match spec_apply(flags, flag_of(t, tr.input).unwrap()) {
                    Some((m, _)) => match path_analysis(t, toks, banned, tr.target, pos, m, rest) {
                        Some(r) => Some(then((Seq::empty(), seq![tr.weight]), r)),
                        None => None,
                    },
                    None => None,
                }
            }
        } else if 0 <= pos < toks.len() && sym_arc(t, node, toks[pos].sym, j) && !banned.contains(
            tr.output,
        ) {
            match path_analysis(t, toks, banned, tr.target, pos + 1, flags, rest) {
                Some(r) => Some(then((arc_text(t, tr.output, toks[pos].orig), seq![tr.weight]), r)),
                None => None,
            }
        } else {
            None
        }
    }
}

/// Joining analyses is associative.
proof fn lemma_then_assoc(a: AnalysisModel, b: AnalysisModel, c: AnalysisModel)
    ensures
        then(then(a, b), c) == then(a, then(b, c)),
{
    assert((a.0 + b.0) + c.0 =~= a.0 + (b.0 + c.0));
    assert((a.1 + b.1) + c.1 =~= a.1 + (b.1 + c.1));
}

/// The empty analysis changes nothing in front.
proof fn lemma_then_empty(a: AnalysisModel)
    ensures
        then((Seq::empty(), Seq::empty()), a) == a,
{
    assert(Seq::<char>::empty() + a.0 =~= a.0);
    assert(Seq::<u32>::empty() + a.1 =~= a.1);
}

/// Some analysis found is `a`.
pub open spec fn finds(f: Found, a: AnalysisModel) -> bool {
    exists|k: int| 0 <= k < f.0.len() && #[trigger] f.0[k] == a
}

proof fn lemma_finds_join(a: Found, b: Found, x: AnalysisModel)
    ensures
        finds(a, x) ==> finds(join(a, b), x),
        finds(b, x) ==> finds(join(a, b), x),
{
    if finds(a, x) {
        let k = choose|k: int| 0 <= k < a.0.len() && #[trigger] a.0[k] == x;
        assert(join(a, b).0[k] == a.0[k]);
    }
    if finds(b, x) {
        let k = choose|k: int| 0 <= k < b.0.len() && #[trigger] b.0[k] == x;
        assert(join(a, b).0[a.0.len() + k] == b.0[k]);
    }
}

/// The text of an output symbol as recorded on the path is the arc's text.
proof fn lemma_out_text_push(t: TransducerModel, out: Seq<OutSym>, sym: u16, orig: Option<char>)
    ensures
        out_text(t, out.push(spec_out_sym(t, sym, orig))) == out_text(t, out) + arc_text(
            t,
            sym,
            orig,
        ),
{
    let o = spec_out_sym(t, sym, orig);
    assert(out.push(o).drop_last() =~= out);
    assert(out.push(o).last() == o);
    assert(sym_text(t, o) == arc_text(t, sym, orig));
}

/// What the path written so far and one more transition make.
proof fn lemma_push_then(
    t: TransducerModel,
    out: Seq<OutSym>,
    wts: Seq<u32>,
    text: Seq<char>,
    w: u32,
    r: AnalysisModel,
)
    ensures
        then((out_text(t, out) + text, wts.push(w)), r) == then(
            (out_text(t, out), wts),
            then((text, seq![w]), r),
        ),
{
    assert(wts.push(w) =~= wts + seq![w]);
    lemma_then_assoc((out_text(t, out), wts), (text, seq![w]), r);
}

/// The epsilon and flag scan from `start` finds what an epsilon or flag
/// entry `j` further on in the run finds.
proof fn lemma_eps_reaches(
    t: TransducerModel,
    toks: Seq<Token>,
    banned: Seq<u16>,
    fuel: nat,
    start: int,
    j: int,
    pos: int,
    out: Seq<OutSym>,
    flags: FlagMap,
    wts: Seq<u32>,
    x: AnalysisModel,
)
    requires
        start <= j,
        forall|i: int| start <= i <= j ==> #[trigger] eps_entry(t, i),
        ({
            let tr = t.transition_table[j];
            if tr.input == EPSILON {
                &&& !banned.contains(tr.output)
                &&& finds(
                    spec_step(
                        t,
                        toks,
                        banned,
                        fuel,
                        tr.target,
                        pos,
                        out.push(spec_out_sym(t, tr.output, None)),
                        flags,
                        wts.push(tr.weight),
                    ),
                    x,
                )
            } else {
                &&& spec_apply(flags, flag_of(t, tr.input).unwrap()) is Some
                &&& finds(
                    spec_step(
                        t,
                        toks,
                        banned,
                        fuel,
                        tr.target,
                        pos,
                        out,
                        spec_apply(flags, flag_of(t, tr.input).unwrap()).unwrap().0,
                        wts.push(tr.weight),
                    ),
                    x,
                )
            }
        }),
    ensures
        finds(spec_eps(t, toks, banned, fuel, start, pos, out, flags, wts), x),
    decreases j - start,
{
    assert(eps_entry(t, start));
    let tr = t.transition_table[start];
    let next = spec_eps(t, toks, banned, fuel, start + 1, pos, out, flags, wts);
    if start < j {
        lemma_eps_reaches(t, toks, banned, fuel, start + 1, j, pos, out, flags, wts, x);
        if tr.input == EPSILON {
            if !banned.contains(tr.output) {
                lemma_finds_join(
                    spec_step(
                        t,
                        toks,
                        banned,
                        fuel,
                        tr.target,
                        pos,
                        out.push(spec_out_sym(t, tr.output, None)),
                        flags,
                        wts.push(tr.weight),
                    ),
                    next,
                    x,
                );
            }
        } else {
            if let Some((m, _)) = spec_apply(flags, flag_of(t, tr.input).unwrap()) {
                lemma_finds_join(
                    spec_step(t, toks, banned, fuel, tr.target, pos, out, m, wts.push(tr.weight)),
                    next,
                    x,
                );
            }
        }
    } else {
        if tr.input == EPSILON {
            lemma_finds_join(
                spec_step(
                    t,
                    toks,
                    banned,
                    fuel,
                    tr.target,
                    pos,
                    out.push(spec_out_sym(t, tr.output, None)),
                    flags,
                    wts.push(tr.weight),
                ),
                next,
                x,
            );
        } else {
            let m = spec_apply(flags, flag_of(t, tr.input).unwrap()).unwrap().0;
            lemma_finds_join(
                spec_step(t, toks, banned, fuel, tr.target, pos, out, m, wts.push(tr.weight)),
                next,
                x,
            );
        }
    }
}

/// The scan for transitions consuming `tok` from `start` finds what a
/// matching entry `j` further on in the block finds.
proof fn lemma_trans_reaches(
    t: TransducerModel,
    toks: Seq<Token>,
    banned: Seq<u16>,
    fuel: nat,
    start: int,
    j: int,
    tok: Token,
    pos: int,
    out: Seq<OutSym>,
    flags: FlagMap,
    wts: Seq<u32>,
    x: AnalysisModel,
)
    requires
        0 <= start <= j < t.transition_table.len(),
        forall|i: int| start <= i <= j ==> #[trigger] t.transition_table[i].input != NO_SYMBOL,
        t.transition_table[j].input == tok.sym,
        !banned.contains(t.transition_table[j].output),
        finds(
            spec_step(
                t,
                toks,
                banned,
                fuel,
                t.transition_table[j].target,
                pos + 1,
                out.push(spec_out_sym(t, t.transition_table[j].output, tok.orig)),
                flags,
                wts.push(t.transition_table[j].weight),
            ),
            x,
        ),
    ensures
        finds(spec_trans(t, toks, banned, fuel, start, tok, pos, out, flags, wts), x),
    decreases j - start,
{
    let tr = t.transition_table[start];
    assert(tr.input != NO_SYMBOL);
    let next = spec_trans(t, toks, banned, fuel, start + 1, tok, pos, out, flags, wts);
    let child = spec_step(
        t,
        toks,
        banned,
        fuel,
        tr.target,
        pos + 1,
        out.push(spec_out_sym(t, tr.output, tok.orig)),
        flags,
        wts.push(tr.weight),
    );
    if start < j {
        lemma_trans_reaches(t, toks, banned, fuel, start + 1, j, tok, pos, out, flags, wts, x);
    }
    lemma_finds_join(child, next, x);
}

/// The traversal from a state finds the analysis of every accepting path
/// from it, after the text and weights already written.
proof fn lemma_step_reaches(
    t: TransducerModel,
    toks: Seq<Token>,
    banned: Seq<u16>,
    fuel: nat,
    node: u32,
    pos: int,
    out: Seq<OutSym>,
    flags: FlagMap,
    wts: Seq<u32>,
    arcs: Seq<Edge>,
)
    requires
        arcs.len() < fuel,
        path_analysis(t, toks, banned, node, pos, flags, arcs) is Some,
    ensures
        finds(
            spec_step(t, toks, banned, fuel, node, pos, out, flags, wts),
            then((out_text(t, out), wts), path_analysis(t, toks, banned, node, pos, flags, arcs).unwrap()),
        ),
    decreases arcs.len(),
{
    let x = then((out_text(t, out), wts), path_analysis(t, toks, banned, node, pos, flags, arcs).unwrap());
    let f1 = (fuel - 1) as nat;
    let here: Found = (Seq::empty(), if spec_is_final(t, node) { pos as nat } else { 0 }, true);
    let (e, rest) = if node >= TARGET_TABLE_START {
        let k = node - TARGET_TABLE_START;
        (
            spec_eps(t, toks, banned, f1, k + 1, pos, out, flags, wts),
            if pos == toks.len() {
                if k < t.transition_table.len() && t.transition_table[k].input == NO_SYMBOL
                    && t.transition_table[k].output == NO_SYMBOL
                    && t.transition_table[k].target == 1 {
                    emitted(t, out, wts.push(t.transition_table[k].weight))
                } else {
                    none_found()
                }
            } else {
                spec_trans(t, toks, banned, f1, k + 1, toks[pos], pos, out, flags, wts)
            },
        )
    } else {
        let i = node as int;
        (
            if i + 1 < t.index_table.len() && t.index_table[i + 1].input == EPSILON
                && t.index_table[i + 1].target >= TARGET_TABLE_START {
                spec_eps(
                    t,
                    toks,
                    banned,
                    f1,
                    t.index_table[i + 1].target - TARGET_TABLE_START,
                    pos,
                    out,
                    flags,
                    wts,
                )
            } else {
                none_found()
            },
            if pos == toks.len() {
                if i < t.index_table.len() && t.index_table[i].input == NO_SYMBOL
                    && t.index_table[i].target != NO_TARGET {
                    emitted(
                        t,
                        out,
                        wts.push(
                            if t.weighted {
                                t.index_table[i].target
                            } else {
                                0
                            },
                        ),
                    )
                } else {
                    none_found()
                }
            } else {
                spec_find_index(t, toks, banned, f1, i + 1, toks[pos], pos, out, flags, wts)
            },
        )
    };
    assert(spec_step(t, toks, banned, fuel, node, pos, out, flags, wts) == join(here, join(e, rest)));
    if arcs.len() == 0 {
        assert(out_text(t, out) + Seq::<char>::empty() =~= out_text(t, out));
        assert(wts + seq![final_weight(t, node)] =~= wts.push(final_weight(t, node)));
        assert(rest.0[0] == x);
        assert(finds(rest, x));
        lemma_finds_join(e, rest, x);
        lemma_finds_join(here, join(e, rest), x);
    } else {
        let j = arcs[0].entry;
        let tail = arcs.drop_first();
        let tr = t.transition_table[j];
        if !arcs[0].reads && tr.input == EPSILON {
            let o = spec_out_sym(t, tr.output, None);
            lemma_step_reaches(t, toks, banned, f1, tr.target, pos, out.push(o), flags, wts.push(tr.weight), tail);
            lemma_out_text_push(t, out, tr.output, None);
            let r = path_analysis(t, toks, banned, tr.target, pos, flags, tail).unwrap();
            lemma_push_then(t, out, wts, arc_text(t, tr.output, None), tr.weight, r);
            let s = eps_block(t, node).unwrap();
            lemma_eps_reaches(t, toks, banned, f1, s, j, pos, out, flags, wts, x);
            lemma_finds_join(e, rest, x);
            lemma_finds_join(here, join(e, rest), x);
        } else if !arcs[0].reads {
            let m = spec_apply(flags, flag_of(t, tr.input).unwrap()).unwrap().0;
            lemma_step_reaches(t, toks, banned, f1, tr.target, pos, out, m, wts.push(tr.weight), tail);
            let r = path_analysis(t, toks, banned, tr.target, pos, m, tail).unwrap();
            lemma_push_then(t, out, wts, Seq::empty(), tr.weight, r);
            assert(out_text(t, out) + Seq::<char>::empty() =~= out_text(t, out));
            let s = eps_block(t, node).unwrap();
            lemma_eps_reaches(t, toks, banned, f1, s, j, pos, out, flags, wts, x);
            lemma_finds_join(e, rest, x);
            lemma_finds_join(here, join(e, rest), x);
        } else {
            let tok = toks[pos];
            let o = spec_out_sym(t, tr.output, tok.orig);
            lemma_step_reaches(t, toks, banned, f1, tr.target, pos + 1, out.push(o), flags, wts.push(tr.weight), tail);
            lemma_out_text_push(t, out, tr.output, tok.orig);
            let r = path_analysis(t, toks, banned, tr.target, pos + 1, flags, tail).unwrap();
            lemma_push_then(t, out, wts, arc_text(t, tr.output, tok.orig), tr.weight, r);
            let s = sym_block(t, node, tok.sym).unwrap();
            lemma_trans_reaches(t, toks, banned, f1, s, j, tok, pos, out, flags, wts, x);
            lemma_finds_join(e, rest, x);
            lemma_finds_join(here, join(e, rest), x);
        }
    }
}

/// Lookup is complete over accepting paths: for every path from the start
/// state that reads the tokens of `input` in order, passes every flag gate,
/// emits no banned output and ends in a final state at the end of the input,
/// its output text, with its weights, is among the analyses found. (Paths
/// are followed to `MAX_DEPTH` states.)
pub proof fn lookup_finds_every_accepting_path(
    t: &Transducer,
    input: Seq<char>,
    banned: Seq<u16>,
    arcs: Seq<Edge>,
)
    requires
        t.tokens_of(input) is Some,
        arcs.len() < MAX_DEPTH,
        path_analysis(t.model(), t.tokens_of(input).unwrap(), banned, 0, 0, Map::empty(), arcs) is Some,
    ensures
        exists|k: int|
            0 <= k < t.analyses(input, banned).len() && #[trigger] t.analyses(input, banned)[k]
                == path_analysis(
                t.model(),
                t.tokens_of(input).unwrap(),
                banned,
                0,
                0,
                Map::empty(),
                arcs,
            ).unwrap(),
{
    let toks = t.tokens_of(input).unwrap();
    lemma_step_reaches(
        t.model(),
        toks,
        banned,
        MAX_DEPTH as nat,
        0,
        0,
        Seq::empty(),
        Map::empty(),
        Seq::empty(),
        arcs,
    );
    let p = path_analysis(t.model(), toks, banned, 0, 0, Map::empty(), arcs).unwrap();
    assert(out_text(t.model(), Seq::<OutSym>::empty()) == Seq::<char>::empty());
    lemma_then_empty(p);
    let f = t.search(toks, banned);
    assert(t.analyses(input, banned) == f.0);
    let k = choose|k: int| 0 <= k < f.0.len() && #[trigger] f.0[k] == p;
    assert(t.analyses(input, banned)[k] == p);
}

// ---------------------------------------------------------------------------
// Only accepting paths.
// ---------------------------------------------------------------------------

/// `x` is `prefix` followed by the analysis of an accepting path from `node`.
pub open spec fn accepted(
    t: TransducerModel,
    toks: Seq<Token>,
    banned: Seq<u16>,
    node: u32,
    pos: int,
    flags: FlagMap,
    prefix: AnalysisModel,
    x: AnalysisModel,
) -> bool {
    exists|arcs: Seq<Edge>|
        #[trigger] path_analysis(t, toks, banned, node, pos, flags, arcs) is Some && x == then(
            prefix,
            path_analysis(t, toks, banned, node, pos, flags, arcs).unwrap(),
        )
}

/// Every analysis in `f` is `prefix` followed by the analysis of an
/// accepting path from `node`.
pub open spec fn all_accepted(
    f: Found,
    t: TransducerModel,
    toks: Seq<Token>,
    banned: Seq<u16>,
    node: u32,
    pos: int,
    flags: FlagMap,
    prefix: AnalysisModel,
) -> bool {
    forall|k: int|
        0 <= k < f.0.len() ==> accepted(t, toks, banned, node, pos, flags, prefix, #[trigger] f.0[k])
}

proof fn lemma_accepted_join(
    a: Found,
    b: Found,
    t: TransducerModel,
    toks: Seq<Token>,
    banned: Seq<u16>,
    node: u32,
    pos: int,
    flags: FlagMap,
    prefix: AnalysisModel,
)
    requires
        all_accepted(a, t, toks, banned, node, pos, flags, prefix),
        all_accepted(b, t, toks, banned, node, pos, flags, prefix),
    ensures
        all_accepted(join(a, b), t, toks, banned, node, pos, flags, prefix),
{
    let c = join(a, b);
    assert forall|k: int| 0 <= k < c.0.len() implies accepted(
        t,
        toks,
        banned,
        node,
        pos,
        flags,
        prefix,
        #[trigger] c.0[k],
    ) by {
        if k < a.0.len() {
            assert(c.0[k] == a.0[k]);
        } else {
            assert(c.0[k] == b.0[k - a.0.len()]);
        }
    }
}

/// A path from a transition's target, with the transition in front, is a
/// path from the state the transition leaves.
proof fn lemma_edge_front(
    t: TransducerModel,
    toks: Seq<Token>,
    banned: Seq<u16>,
    node: u32,
    pos: int,
    flags: FlagMap,
    e: Edge,
    arcs: Seq<Edge>,
)
    ensures
        path_analysis(t, toks, banned, node, pos, flags, seq![e] + arcs) == {
            let tr = t.transition_table[e.entry];
            let pos2 = if e.reads {
                pos + 1
            } else {
                pos
            };
            let flags2 = if !e.reads && tr.input != EPSILON {
                match spec_apply(flags, flag_of(t, tr.input).unwrap()) {
                    Some((m, _)) => m,
                    None => flags,
                }
            } else {
                flags
            };
            let ok = if !e.reads {
                eps_arc(t, node, e.entry) && (if tr.input == EPSILON {
                    !banned.contains(tr.output)
                } else {
                    spec_apply(flags, flag_of(t, tr.input).unwrap()) is Some
                })
            } else {
                0 <= pos < toks.len() && sym_arc(t, node, toks[pos].sym, e.entry)
                    && !banned.contains(tr.output)
            };
            let head = if e.reads {
                arc_text(t, tr.output, toks[pos].orig)
            } else if tr.input == EPSILON {
                arc_text(t, tr.output, None)
            } else {
                Seq::empty()
            };
            if !ok {
                None
            } else {
                match path_analysis(t, toks, banned, tr.target, pos2, flags2, arcs) {
                    Some(r) => Some(then((head, seq![tr.weight]), r)),
                    None => None,
                }
            }
        },
{
    assert((seq![e] + arcs).drop_first() =~= arcs);
    assert((seq![e] + arcs)[0] == e);
}

/// One transition in front of an accepted path from its target.
proof fn lemma_accepted_front(
    t: TransducerModel,
    toks: Seq<Token>,
    banned: Seq<u16>,
    node: u32,
    pos: int,
    flags: FlagMap,
    e: Edge,
    pos2: int,
    flags2: FlagMap,
    out: Seq<OutSym>,
    wts: Seq<u32>,
    head: Seq<char>,
    child: Found,
)
    requires
        ({
            let tr = t.transition_table[e.entry];
            forall|arcs: Seq<Edge>|
                #![trigger path_analysis(t, toks, banned, tr.target, pos2, flags2, arcs)]
                path_analysis(t, toks, banned, tr.target, pos2, flags2, arcs) is Some
                    ==> path_analysis(t, toks, banned, node, pos, flags, seq![e] + arcs) == Some(
                    then(
                        (head, seq![tr.weight]),
                        path_analysis(t, toks, banned, tr.target, pos2, flags2, arcs).unwrap(),
                    ),
                )
        }),
        all_accepted(
            child,
            t,
            toks,
            banned,
            t.transition_table[e.entry].target,
            pos2,
            flags2,
            (out_text(t, out) + head, wts.push(t.transition_table[e.entry].weight)),
        ),
    ensures
        all_accepted(child, t, toks, banned, node, pos, flags, (out_text(t, out), wts)),
{
    let tr = t.transition_table[e.entry];
    assert forall|k: int| 0 <= k < child.0.len() implies accepted(
        t,
        toks,
        banned,
        node,
        pos,
        flags,
        (out_text(t, out), wts),
        #[trigger] child.0[k],
    ) by {
        let a2 = choose|arcs: Seq<Edge>|
            #[trigger] path_analysis(t, toks, banned, tr.target, pos2, flags2, arcs) is Some
                && child.0[k] == then(
                (out_text(t, out) + head, wts.push(tr.weight)),
                path_analysis(t, toks, banned, tr.target, pos2, flags2, arcs).unwrap(),
            );
        let r = path_analysis(t, toks, banned, tr.target, pos2, flags2, a2).unwrap();
        lemma_push_then(t, out, wts, head, tr.weight, r);
        assert(path_analysis(t, toks, banned, node, pos, flags, seq![e] + a2) is Some);
    }
}

proof fn lemma_step_sound(
    t: TransducerModel,
    toks: Seq<Token>,
    banned: Seq<u16>,
    fuel: nat,
    node: u32,
    pos: int,
    out: Seq<OutSym>,
    flags: FlagMap,
    wts: Seq<u32>,
)
    requires
        0 <= pos <= toks.len(),
    ensures
        all_accepted(
            spec_step(t, toks, banned, fuel, node, pos, out, flags, wts),
            t,
            toks,
            banned,
            node,
            pos,
            flags,
            (out_text(t, out), wts),
        ),
    decreases fuel, 0int, 0int,
{
    let n = toks.len();
    let pre = (out_text(t, out), wts);
    if fuel == 0 {
        return;
    }
    let f1 = (fuel - 1) as nat;
    let here: Found = (Seq::empty(), if spec_is_final(t, node) { pos as nat } else { 0 }, true);
    assert(all_accepted(here, t, toks, banned, node, pos, flags, pre));
    let e = match eps_block(t, node) {
        Some(s) => {
            lemma_eps_sound(t, toks, banned, f1, node, s, s, pos, out, flags, wts);
            spec_eps(t, toks, banned, f1, s, pos, out, flags, wts)
        },
        None => none_found(),
    };
    assert(all_accepted(none_found(), t, toks, banned, node, pos, flags, pre));
    let rest = if pos == n {
        if final_state(t, node) {
            let w = final_weight(t, node);
            let em = emitted(t, out, wts.push(w));
            let empty = Seq::<Edge>::empty();
            assert(path_analysis(t, toks, banned, node, pos, flags, empty) == Some(
                (Seq::<char>::empty(), seq![w]),
            ));
            assert(out_text(t, out) + Seq::<char>::empty() =~= out_text(t, out));
            assert(wts + seq![w] =~= wts.push(w));
            assert(em.0[0] == then(pre, (Seq::<char>::empty(), seq![w])));
            assert(all_accepted(em, t, toks, banned, node, pos, flags, pre));
            em
        } else {
            none_found()
        }
    } else {
        match sym_block(t, node, toks[pos].sym) {
            Some(s) => {
                lemma_trans_sound(t, toks, banned, f1, node, s, s, toks[pos], pos, out, flags, wts);
                spec_trans(t, toks, banned, f1, s, toks[pos], pos, out, flags, wts)
            },
            None => none_found(),
        }
    };
    lemma_accepted_join(e, rest, t, toks, banned, node, pos, flags, pre);
    lemma_accepted_join(here, join(e, rest), t, toks, banned, node, pos, flags, pre);
    if node >= TARGET_TABLE_START {
        assert(spec_step(t, toks, banned, fuel, node, pos, out, flags, wts) == join(here, join(e, rest)));
    } else {
        let i = node as int;
        if pos != n {
            assert(spec_find_index(t, toks, banned, f1, i + 1, toks[pos], pos, out, flags, wts) == rest);
        }
        assert(spec_step(t, toks, banned, fuel, node, pos, out, flags, wts) == join(here, join(e, rest)));
    }
}

proof fn lemma_eps_sound(
    t: TransducerModel,
    toks: Seq<Token>,
    banned: Seq<u16>,
    fuel: nat,
    node: u32,
    s: int,
    j: int,
    pos: int,
    out: Seq<OutSym>,
    flags: FlagMap,
    wts: Seq<u32>,
)
    requires
        0 <= pos <= toks.len(),
        eps_block(t, node) == Some(s),
        s <= j,
        forall|i: int| s <= i < j ==> #[trigger] eps_entry(t, i),
    ensures
        all_accepted(
            spec_eps(t, toks, banned, fuel, j, pos, out, flags, wts),
            t,
            toks,
            banned,
            node,
            pos,
            flags,
            (out_text(t, out), wts),
        ),
    decreases fuel, 1int, t.transition_table.len() - j,
{
    let pre = (out_text(t, out), wts);
    assert(all_accepted(none_found(), t, toks, banned, node, pos, flags, pre));
    if 0 <= j < t.transition_table.len() {
        let tr = t.transition_table[j];
        if tr.input != NO_SYMBOL && (tr.input == EPSILON || flag_of(t, tr.input) is Some) {
            assert(eps_entry(t, j));
            assert(eps_arc(t, node, j));
            lemma_eps_sound(t, toks, banned, fuel, node, s, j + 1, pos, out, flags, wts);
            let next = spec_eps(t, toks, banned, fuel, j + 1, pos, out, flags, wts);
            let edge = Edge { entry: j, reads: false };
            if tr.input == EPSILON {
                if !banned.contains(tr.output) {
                    let o = spec_out_sym(t, tr.output, None);
                    let child = spec_step(t, toks, banned, fuel, tr.target, pos, out.push(o), flags, wts.push(tr.weight));
                    lemma_step_sound(t, toks, banned, fuel, tr.target, pos, out.push(o), flags, wts.push(tr.weight));
                    lemma_out_text_push(t, out, tr.output, None);
                    assert forall|arcs: Seq<Edge>|
                        #![trigger path_analysis(t, toks, banned, tr.target, pos, flags, arcs)]
                        path_analysis(t, toks, banned, tr.target, pos, flags, arcs) is Some
                            implies path_analysis(t, toks, banned, node, pos, flags, seq![edge] + arcs)
                            == Some(then((arc_text(t, tr.output, None), seq![tr.weight]), path_analysis(t, toks, banned, tr.target, pos, flags, arcs).unwrap())) by {
                        lemma_edge_front(t, toks, banned, node, pos, flags, edge, arcs);
                    }
                    lemma_accepted_front(t, toks, banned, node, pos, flags, edge, pos, flags, out, wts, arc_text(t, tr.output, None), child);
                    lemma_accepted_join(child, next, t, toks, banned, node, pos, flags, pre);
                }
            } else {
                if let Some((m, _)) = spec_apply(flags, flag_of(t, tr.input).unwrap()) {
                    let child = spec_step(t, toks, banned, fuel, tr.target, pos, out, m, wts.push(tr.weight));
                    lemma_step_sound(t, toks, banned, fuel, tr.target, pos, out, m, wts.push(tr.weight));
                    assert(out_text(t, out) + Seq::<char>::empty() =~= out_text(t, out));
                    assert forall|arcs: Seq<Edge>|
                        #![trigger path_analysis(t, toks, banned, tr.target, pos, m, arcs)]
                        path_analysis(t, toks, banned, tr.target, pos, m, arcs) is Some
                            implies path_analysis(t, toks, banned, node, pos, flags, seq![edge] + arcs)
                            == Some(then((Seq::<char>::empty(), seq![tr.weight]), path_analysis(t, toks, banned, tr.target, pos, m, arcs).unwrap())) by {
                        lemma_edge_front(t, toks, banned, node, pos, flags, edge, arcs);
                    }
                    lemma_accepted_front(t, toks, banned, node, pos, flags, edge, pos, m, out, wts, Seq::empty(), child);
                    lemma_accepted_join(child, next, t, toks, banned, node, pos, flags, pre);
                }
            }
        }
    }
}

proof fn lemma_trans_sound(
    t: TransducerModel,
    toks: Seq<Token>,
    banned: Seq<u16>,
    fuel: nat,
    node: u32,
    s: int,
    j: int,
    tok: Token,
    pos: int,
    out: Seq<OutSym>,
    flags: FlagMap,
    wts: Seq<u32>,
)
    requires
        0 <= pos < toks.len(),
        tok == toks[pos],
        sym_block(t, node, tok.sym) == Some(s),
        s <= j,
        forall|i: int| s <= i < j ==> #[trigger] t.transition_table[i].input != NO_SYMBOL,
    ensures
        all_accepted(
            spec_trans(t, toks, banned, fuel, j, tok, pos, out, flags, wts),
            t,
            toks,
            banned,
            node,
            pos,
            flags,
            (out_text(t, out), wts),
        ),
    decreases fuel, 1int, t.transition_table.len() - j,
{
    let pre = (out_text(t, out), wts);
    assert(all_accepted(none_found(), t, toks, banned, node, pos, flags, pre));
    if 0 <= j < t.transition_table.len() {
        let tr = t.transition_table[j];
        if tr.input != NO_SYMBOL {
            lemma_trans_sound(t, toks, banned, fuel, node, s, j + 1, tok, pos, out, flags, wts);
            let next = spec_trans(t, toks, banned, fuel, j + 1, tok, pos, out, flags, wts);
            if tr.input == tok.sym && !banned.contains(tr.output) {
                assert(sym_arc(t, node, tok.sym, j));
                let edge = Edge { entry: j, reads: true };
                let o = spec_out_sym(t, tr.output, tok.orig);
                let child = spec_step(t, toks, banned, fuel, tr.target, pos + 1, out.push(o), flags, wts.push(tr.weight));
                lemma_step_sound(t, toks, banned, fuel, tr.target, pos + 1, out.push(o), flags, wts.push(tr.weight));
                lemma_out_text_push(t, out, tr.output, tok.orig);
                assert forall|arcs: Seq<Edge>|
                    #![trigger path_analysis(t, toks, banned, tr.target, pos + 1, flags, arcs)]
                    path_analysis(t, toks, banned, tr.target, pos + 1, flags, arcs) is Some
                        implies path_analysis(t, toks, banned, node, pos, flags, seq![edge] + arcs)
                        == Some(then((arc_text(t, tr.output, tok.orig), seq![tr.weight]), path_analysis(t, toks, banned, tr.target, pos + 1, flags, arcs).unwrap())) by {
                    lemma_edge_front(t, toks, banned, node, pos, flags, edge, arcs);
                }
                lemma_accepted_front(t, toks, banned, node, pos, flags, edge, pos + 1, flags, out, wts, arc_text(t, tr.output, tok.orig), child);
                lemma_accepted_join(child, next, t, toks, banned, node, pos, flags, pre);
            }
        }
    }
}

/// Lookup finds only accepting paths: every analysis of `input`, text and
/// weights, is the analysis of a path from the start state that reads the
/// tokens of `input` in order, passes every flag gate, emits no banned output
/// and ends in a final state at the end of the input.
pub proof fn lookup_finds_only_accepting_paths(t: &Transducer, input: Seq<char>, banned: Seq<u16>)
    requires
        t.tokens_of(input) is Some,
    ensures
        forall|k: int|
            0 <= k < t.analyses(input, banned).len() ==> exists|arcs: Seq<Edge>|
                path_analysis(t.model(), t.tokens_of(input).unwrap(), banned, 0, 0, Map::empty(), arcs)
                    == Some(#[trigger] t.analyses(input, banned)[k]),
{
    let toks = t.tokens_of(input).unwrap();
    let m = t.model();
    lemma_step_sound(m, toks, banned, MAX_DEPTH as nat, 0, 0, Seq::empty(), Map::empty(), Seq::empty());
    let f = t.search(toks, banned);
    assert(t.analyses(input, banned) == f.0);
    assert(out_text(m, Seq::<OutSym>::empty()) == Seq::<char>::empty());
    assert forall|k: int| 0 <= k < t.analyses(input, banned).len() implies exists|arcs: Seq<Edge>|
        path_analysis(m, toks, banned, 0, 0, Map::empty(), arcs) == Some(
            #[trigger] t.analyses(input, banned)[k],
        ) by {
        assert(accepted(m, toks, banned, 0, 0, Map::empty(), (Seq::empty(), Seq::empty()), f.0[k]));
        let a = choose|arcs: Seq<Edge>|
            #[trigger] path_analysis(m, toks, banned, 0, 0, Map::empty(), arcs) is Some && f.0[k]
                == then((Seq::empty(), Seq::empty()), path_analysis(m, toks, banned, 0, 0, Map::empty(), arcs).unwrap());
        lemma_then_empty(path_analysis(m, toks, banned, 0, 0, Map::empty(), a).unwrap());
    }
}

// ---------------------------------------------------------------------------
// The frontier of an accepted word.
// ---------------------------------------------------------------------------

/// What was found stands no deeper than `n`, and at `n` when it holds an
/// analysis.
pub open spec fn ends_at(f: Found, n: nat) -> bool {
    f.1 <= n && (f.0.len() > 0 ==> f.1 == n)
}

proof fn lemma_ends_at_join(a: Found, b: Found, n: nat)
    requires
        ends_at(a, n),
        ends_at(b, n),
    ensures
        ends_at(join(a, b), n),
{
}

proof fn lemma_step_ends(
    t: TransducerModel,
    toks: Seq<Token>,
    banned: Seq<u16>,
    fuel: nat,
    node: u32,
    pos: int,
    out: Seq<OutSym>,
    flags: FlagMap,
    wts: Seq<u32>,
)
    requires
        0 <= pos <= toks.len(),
    ensures
        ends_at(spec_step(t, toks, banned, fuel, node, pos, out, flags, wts), toks.len()),
    decreases fuel, 0int, 0int,
{
    let n = toks.len();
    if fuel > 0 {
        let f1 = (fuel - 1) as nat;
        let here: Found = (Seq::empty(), if spec_is_final(t, node) { pos as nat } else { 0 }, true);
        if node >= TARGET_TABLE_START {
            let k = node - TARGET_TABLE_START;
            lemma_eps_ends(t, toks, banned, f1, k + 1, pos, out, flags, wts);
            let e = spec_eps(t, toks, banned, f1, k + 1, pos, out, flags, wts);
            if pos == n {
                let rest = if k < t.transition_table.len() && t.transition_table[k].input == NO_SYMBOL
                    && t.transition_table[k].output == NO_SYMBOL
                    && t.transition_table[k].target == 1 {
                    emitted(t, out, wts.push(t.transition_table[k].weight))
                } else {
                    none_found()
                };
                if rest.0.len() > 0 {
                    assert(spec_is_final(t, node));
                }
                assert(ends_at(join(here, join(e, rest)), n));
            } else {
                lemma_trans_ends(t, toks, banned, f1, k + 1, toks[pos], pos, out, flags, wts);
                let rest = spec_trans(t, toks, banned, f1, k + 1, toks[pos], pos, out, flags, wts);
                lemma_ends_at_join(e, rest, n);
                lemma_ends_at_join(here, join(e, rest), n);
            }
        } else {
            let i = node as int;
            let e = if i + 1 < t.index_table.len() && t.index_table[i + 1].input == EPSILON
                && t.index_table[i + 1].target >= TARGET_TABLE_START {
                lemma_eps_ends(t, toks, banned, f1, t.index_table[i + 1].target - TARGET_TABLE_START, pos, out, flags, wts);
                spec_eps(t, toks, banned, f1, t.index_table[i + 1].target - TARGET_TABLE_START, pos, out, flags, wts)
            } else {
                none_found()
            };
            if pos == n {
                let rest = if i < t.index_table.len() && t.index_table[i].input == NO_SYMBOL
                    && t.index_table[i].target != NO_TARGET {
                    emitted(t, out, wts.push(if t.weighted { t.index_table[i].target } else { 0 }))
                } else {
                    none_found()
                };
                if rest.0.len() > 0 {
                    assert(spec_is_final(t, node));
                }
                assert(ends_at(join(here, join(e, rest)), n));
            } else {
                lemma_find_index_ends(t, toks, banned, f1, i + 1, toks[pos], pos, out, flags, wts);
                let rest = spec_find_index(t, toks, banned, f1, i + 1, toks[pos], pos, out, flags, wts);
                lemma_ends_at_join(e, rest, n);
                lemma_ends_at_join(here, join(e, rest), n);
            }
        }
    }
}

proof fn lemma_eps_ends(
    t: TransducerModel,
    toks: Seq<Token>,
    banned: Seq<u16>,
    fuel: nat,
    j: int,
    pos: int,
    out: Seq<OutSym>,
    flags: FlagMap,
    wts: Seq<u32>,
)
    requires
        0 <= pos <= toks.len(),
    ensures
        ends_at(spec_eps(t, toks, banned, fuel, j, pos, out, flags, wts), toks.len()),
    decreases fuel, 1int, t.transition_table.len() - j,
{
    let n = toks.len();
    if 0 <= j < t.transition_table.len() {
        let tr = t.transition_table[j];
        if tr.input != NO_SYMBOL {
            let next = spec_eps(t, toks, banned, fuel, j + 1, pos, out, flags, wts);
            if tr.input == EPSILON {
                lemma_eps_ends(t, toks, banned, fuel, j + 1, pos, out, flags, wts);
                if !banned.contains(tr.output) {
                    let o = spec_out_sym(t, tr.output, None);
                    lemma_step_ends(t, toks, banned, fuel, tr.target, pos, out.push(o), flags, wts.push(tr.weight));
                    lemma_ends_at_join(
                        spec_step(t, toks, banned, fuel, tr.target, pos, out.push(o), flags, wts.push(tr.weight)),
                        next,
                        n,
                    );
                }
            } else if flag_of(t, tr.input) is Some {
                lemma_eps_ends(t, toks, banned, fuel, j + 1, pos, out, flags, wts);
                if let Some((m, _)) = spec_apply(flags, flag_of(t, tr.input).unwrap()) {
                    lemma_step_ends(t, toks, banned, fuel, tr.target, pos, out, m, wts.push(tr.weight));
                    lemma_ends_at_join(
                        spec_step(t, toks, banned, fuel, tr.target, pos, out, m, wts.push(tr.weight)),
                        next,
                        n,
                    );
                }
            }
        }
    }
}

proof fn lemma_trans_ends(
    t: TransducerModel,
    toks: Seq<Token>,
    banned: Seq<u16>,
    fuel: nat,
    j: int,
    tok: Token,
    pos: int,
    out: Seq<OutSym>,
    flags: FlagMap,
    wts: Seq<u32>,
)
    requires
        0 <= pos < toks.len(),
    ensures
        ends_at(spec_trans(t, toks, banned, fuel, j, tok, pos, out, flags, wts), toks.len()),
    decreases fuel, 1int, t.transition_table.len() - j,
{
    let n = toks.len();
    if 0 <= j < t.transition_table.len() {
        let tr = t.transition_table[j];
        if tr.input != NO_SYMBOL {
            lemma_trans_ends(t, toks, banned, fuel, j + 1, tok, pos, out, flags, wts);
            if tr.input == tok.sym && !banned.contains(tr.output) {
                let o = spec_out_sym(t, tr.output, tok.orig);
                lemma_step_ends(t, toks, banned, fuel, tr.target, pos + 1, out.push(o), flags, wts.push(tr.weight));
                lemma_ends_at_join(
                    spec_step(t, toks, banned, fuel, tr.target, pos + 1, out.push(o), flags, wts.push(tr.weight)),
                    spec_trans(t, toks, banned, fuel, j + 1, tok, pos, out, flags, wts),
                    n,
                );
            }
        }
    }
}

proof fn lemma_find_index_ends(
    t: TransducerModel,
    toks: Seq<Token>,
    banned: Seq<u16>,
    fuel: nat,
    base: int,
    tok: Token,
    pos: int,
    out: Seq<OutSym>,
    flags: FlagMap,
    wts: Seq<u32>,
)
    requires
        0 <= pos < toks.len(),
    ensures
        ends_at(spec_find_index(t, toks, banned, fuel, base, tok, pos, out, flags, wts), toks.len()),
    decreases fuel, 2int, 0int,
{
    let slot = base + tok.sym;
    if 0 <= slot < t.index_table.len() && t.index_table[slot].input == tok.sym
        && t.index_table[slot].target >= TARGET_TABLE_START {
        lemma_trans_ends(t, toks, banned, fuel, t.index_table[slot].target - TARGET_TABLE_START, tok, pos, out, flags, wts);
    }
}

/// Where the path `arcs` from `node`, with the input cursor at `pos` and
/// feature state `flags`, ends when it is a path through the tables that
/// stands in a final state at its end (anywhere in the input): the input
/// position reached. Its transitions are taken as in `path_analysis`.
pub open spec fn path_end(
    t: TransducerModel,
    toks: Seq<Token>,
    banned: Seq<u16>,
    node: u32,
    pos: int,
    flags: FlagMap,
    arcs: Seq<Edge>,
) -> Option<int>
    decreases arcs.len(),
{
    if arcs.len() == 0 {
        if final_state(t, node) {
            Some(pos)
        } else {
            None
        }
    } else {
        let j = arcs[0].entry;
        let rest = arcs.drop_first();
        let tr = t.transition_table[j];
        if !arcs[0].reads {
            if !eps_arc(t, node, j) {
                None
            } else if tr.input == EPSILON {
                if banned.contains(tr.output) {
                    None
                } else {
                    path_end(t, toks, banned, tr.target, pos, flags, rest)
                }
            } else {
                match spec_apply(flags, flag_of(t, tr.input).unwrap()) {
                    Some((m, _)) => path_end(t, toks, banned, tr.target, pos, m, rest),
                    None => None,
                }
            }
        } else if 0 <= pos < toks.len() && sym_arc(t, node, toks[pos].sym, j) && !banned.contains(
            tr.output,
        ) {
            path_end(t, toks, banned, tr.target, pos + 1, flags, rest)
        } else {
            None
        }
    }
}

/// The epsilon and flag scan from `start` stands as deep as an epsilon or
/// flag entry `j` further on in the run.
proof fn lemma_eps_stands(
    t: TransducerModel,
    toks: Seq<Token>,
    banned: Seq<u16>,
    fuel: nat,
    start: int,
    j: int,
    pos: int,
    out: Seq<OutSym>,
    flags: FlagMap,
    wts: Seq<u32>,
    p: int,
)
    requires
        start <= j,
        forall|i: int| start <= i <= j ==> #[trigger] eps_entry(t, i),
        ({
            let tr = t.transition_table[j];
            if tr.input == EPSILON {
                &&& !banned.contains(tr.output)
                &&& spec_step(
                    t,
                    toks,
                    banned,
                    fuel,
                    tr.target,
                    pos,
                    out.push(spec_out_sym(t, tr.output, None)),
                    flags,
                    wts.push(tr.weight),
                ).1 >= p
            } else {
                &&& spec_apply(flags, flag_of(t, tr.input).unwrap()) is Some
                &&& spec_step(
                    t,
                    toks,
                    banned,
                    fuel,
                    tr.target,
                    pos,
                    out,
                    spec_apply(flags, flag_of(t, tr.input).unwrap()).unwrap().0,
                    wts.push(tr.weight),
                ).1 >= p
            }
        }),
    ensures
        spec_eps(t, toks, banned, fuel, start, pos, out, flags, wts).1 >= p,
    decreases j - start,
{
    assert(eps_entry(t, start));
    if start < j {
        lemma_eps_stands(t, toks, banned, fuel, start + 1, j, pos, out, flags, wts, p);
    }
}

/// The scan for transitions consuming `tok` from `start` stands as deep as
/// a matching entry `j` further on in the block.
proof fn lemma_trans_stands(
    t: TransducerModel,
    toks: Seq<Token>,
    banned: Seq<u16>,
    fuel: nat,
    start: int,
    j: int,
    tok: Token,
    pos: int,
    out: Seq<OutSym>,
    flags: FlagMap,
    wts: Seq<u32>,
    p: int,
)
    requires
        0 <= start <= j < t.transition_table.len(),
        forall|i: int| start <= i <= j ==> #[trigger] t.transition_table[i].input != NO_SYMBOL,
        t.transition_table[j].input == tok.sym,
        !banned.contains(t.transition_table[j].output),
        spec_step(
            t,
            toks,
            banned,
            fuel,
            t.transition_table[j].target,
            pos + 1,
            out.push(spec_out_sym(t, t.transition_table[j].output, tok.orig)),
            flags,
            wts.push(t.transition_table[j].weight),
        ).1 >= p,
    ensures
        spec_trans(t, toks, banned, fuel, start, tok, pos, out, flags, wts).1 >= p,
    decreases j - start,
{
    assert(t.transition_table[start].input != NO_SYMBOL);
    if start < j {
        lemma_trans_stands(t, toks, banned, fuel, start + 1, j, tok, pos, out, flags, wts, p);
    }
}

/// The traversal from a state stands at least as deep as every path from it
/// that ends in a final state.
proof fn lemma_step_stands(
    t: TransducerModel,
    toks: Seq<Token>,
    banned: Seq<u16>,
    fuel: nat,
    node: u32,
    pos: int,
    out: Seq<OutSym>,
    flags: FlagMap,
    wts: Seq<u32>,
    arcs: Seq<Edge>,
)
    requires
        0 <= pos,
        arcs.len() < fuel,
        path_end(t, toks, banned, node, pos, flags, arcs) is Some,
    ensures
        spec_step(t, toks, banned, fuel, node, pos, out, flags, wts).1 >= path_end(
            t,
            toks,
            banned,
            node,
            pos,
            flags,
            arcs,
        ).unwrap(),
    decreases arcs.len(),
{
    let p = path_end(t, toks, banned, node, pos, flags, arcs).unwrap();
    let f1 = (fuel - 1) as nat;
    if arcs.len() == 0 {
        assert(spec_is_final(t, node));
    } else {
        let j = arcs[0].entry;
        let tail = arcs.drop_first();
        let tr = t.transition_table[j];
        if !arcs[0].reads && tr.input == EPSILON {
            let o = spec_out_sym(t, tr.output, None);
            lemma_step_stands(t, toks, banned, f1, tr.target, pos, out.push(o), flags, wts.push(tr.weight), tail);
            let s = eps_block(t, node).unwrap();
            lemma_eps_stands(t, toks, banned, f1, s, j, pos, out, flags, wts, p);
        } else if !arcs[0].reads {
            let m = spec_apply(flags, flag_of(t, tr.input).unwrap()).unwrap().0;
            lemma_step_stands(t, toks, banned, f1, tr.target, pos, out, m, wts.push(tr.weight), tail);
            let s = eps_block(t, node).unwrap();
            lemma_eps_stands(t, toks, banned, f1, s, j, pos, out, flags, wts, p);
        } else {
            let tok = toks[pos];
            let o = spec_out_sym(t, tr.output, tok.orig);
            lemma_step_stands(t, toks, banned, f1, tr.target, pos + 1, out.push(o), flags, wts.push(tr.weight), tail);
            let s = sym_block(t, node, tok.sym).unwrap();
            lemma_trans_stands(t, toks, banned, f1, s, j, tok, pos, out, flags, wts, p);
        }
    }
}

/// A path never ends past the input.
proof fn lemma_path_end_bound(
    t: TransducerModel,
    toks: Seq<Token>,
    banned: Seq<u16>,
    node: u32,
    pos: int,
    flags: FlagMap,
    arcs: Seq<Edge>,
)
    requires
        0 <= pos <= toks.len(),
        path_end(t, toks, banned, node, pos, flags, arcs) is Some,
    ensures
        pos <= path_end(t, toks, banned, node, pos, flags, arcs).unwrap() <= toks.len(),
    decreases arcs.len(),
{
    if arcs.len() > 0 {
        let tr = t.transition_table[arcs[0].entry];
        let tail = arcs.drop_first();
        if !arcs[0].reads && tr.input == EPSILON {
            lemma_path_end_bound(t, toks, banned, tr.target, pos, flags, tail);
        } else if !arcs[0].reads {
            let m = spec_apply(flags, flag_of(t, tr.input).unwrap()).unwrap().0;
            lemma_path_end_bound(t, toks, banned, tr.target, pos, m, tail);
        } else {
            lemma_path_end_bound(t, toks, banned, tr.target, pos + 1, flags, tail);
        }
    }
}

/// The frontier covers every final state reached: for every path from the
/// start state that reads the first `p` tokens of `input`, passes every flag
/// gate, emits no banned output and stands in a final state, the frontier is
/// at least the byte length of those `p` tokens. (Paths are followed to
/// `MAX_DEPTH` states.)
pub proof fn frontier_covers_every_final_prefix(
    t: &Transducer,
    input: Seq<char>,
    banned: Seq<u16>,
    arcs: Seq<Edge>,
)
    requires
        t.tokens_of(input) is Some,
        arcs.len() < MAX_DEPTH,
        path_end(t.model(), t.tokens_of(input).unwrap(), banned, 0, 0, Map::empty(), arcs) is Some,
    ensures
        t.frontier(input, banned) >= tokens_bytes(
            t.model(),
            t.tokens_of(input).unwrap().take(
                path_end(t.model(), t.tokens_of(input).unwrap(), banned, 0, 0, Map::empty(), arcs).unwrap(),
            ),
        ),
{
    let toks = t.tokens_of(input).unwrap();
    let m = t.model();
    let p = path_end(m, toks, banned, 0, 0, Map::empty(), arcs).unwrap();
    lemma_path_end_bound(m, toks, banned, 0, 0, Map::empty(), arcs);
    lemma_step_stands(m, toks, banned, MAX_DEPTH as nat, 0, 0, Seq::empty(), Map::empty(), Seq::empty(), arcs);
    let f = t.search(toks, banned).1;
    let k: int = if f < toks.len() { f as int } else { toks.len() as int };
    lemma_tokens_bytes_mono(m, toks, p, k);
}

/// What `f` found stands at position 0 or at the end of a path from `node`
/// that stands in a final state.
pub open spec fn stands_at(
    f: Found,
    t: TransducerModel,
    toks: Seq<Token>,
    banned: Seq<u16>,
    node: u32,
    pos: int,
    flags: FlagMap,
) -> bool {
    f.1 == 0 || exists|arcs: Seq<Edge>|
        #[trigger] path_end(t, toks, banned, node, pos, flags, arcs) == Some(f.1 as int)
}

proof fn lemma_stands_join(
    a: Found,
    b: Found,
    t: TransducerModel,
    toks: Seq<Token>,
    banned: Seq<u16>,
    node: u32,
    pos: int,
    flags: FlagMap,
)
    requires
        stands_at(a, t, toks, banned, node, pos, flags),
        stands_at(b, t, toks, banned, node, pos, flags),
    ensures
        stands_at(join(a, b), t, toks, banned, node, pos, flags),
{
}

/// A path end from a transition's target, with the transition in front.
proof fn lemma_edge_front_end(
    t: TransducerModel,
    toks: Seq<Token>,
    banned: Seq<u16>,
    node: u32,
    pos: int,
    flags: FlagMap,
    e: Edge,
    arcs: Seq<Edge>,
)
    ensures
        path_end(t, toks, banned, node, pos, flags, seq![e] + arcs) == {
            let tr = t.transition_table[e.entry];
            let pos2 = if e.reads {
                pos + 1
            } else {
                pos
            };
            let flags2 = if !e.reads && tr.input != EPSILON {
                match spec_apply(flags, flag_of(t, tr.input).unwrap()) {
                    Some((m, _)) => m,
                    None => flags,
                }
            } else {
                flags
            };
            let ok = if !e.reads {
                eps_arc(t, node, e.entry) && (if tr.input == EPSILON {
                    !banned.contains(tr.output)
                } else {
                    spec_apply(flags, flag_of(t, tr.input).unwrap()) is Some
                })
            } else {
                0 <= pos < toks.len() && sym_arc(t, node, toks[pos].sym, e.entry)
                    && !banned.contains(tr.output)
            };
            if !ok {
                None
            } else {
                path_end(t, toks, banned, tr.target, pos2, flags2, arcs)
            }
        },
{
    assert((seq![e] + arcs).drop_first() =~= arcs);
    assert((seq![e] + arcs)[0] == e);
}

proof fn lemma_stands_front(
    t: TransducerModel,
    toks: Seq<Token>,
    banned: Seq<u16>,
    node: u32,
    pos: int,
    flags: FlagMap,
    e: Edge,
    pos2: int,
    flags2: FlagMap,
    child: Found,
)
    requires
        forall|arcs: Seq<Edge>|
            #![trigger path_end(t, toks, banned, t.transition_table[e.entry].target, pos2, flags2, arcs)]
            path_end(t, toks, banned, node, pos, flags, seq![e] + arcs) == path_end(
                t,
                toks,
                banned,
                t.transition_table[e.entry].target,
                pos2,
                flags2,
                arcs,
            ),
        stands_at(child, t, toks, banned, t.transition_table[e.entry].target, pos2, flags2),
    ensures
        stands_at(child, t, toks, banned, node, pos, flags),
{
    if child.1 != 0 {
        let a = choose|arcs: Seq<Edge>|
            #[trigger] path_end(t, toks, banned, t.transition_table[e.entry].target, pos2, flags2, arcs)
                == Some(child.1 as int);
        assert(path_end(t, toks, banned, node, pos, flags, seq![e] + a) == Some(child.1 as int));
    }
}

proof fn lemma_step_deep(
    t: TransducerModel,
    toks: Seq<Token>,
    banned: Seq<u16>,
    fuel: nat,
    node: u32,
    pos: int,
    out: Seq<OutSym>,
    flags: FlagMap,
    wts: Seq<u32>,
)
    requires
        0 <= pos <= toks.len(),
    ensures
        stands_at(spec_step(t, toks, banned, fuel, node, pos, out, flags, wts), t, toks, banned, node, pos, flags),
    decreases fuel, 0int, 0int,
{
    let n = toks.len();
    if fuel == 0 {
        return;
    }
    let f1 = (fuel - 1) as nat;
    let here: Found = (Seq::empty(), if spec_is_final(t, node) { pos as nat } else { 0 }, true);
    if spec_is_final(t, node) {
        assert(path_end(t, toks, banned, node, pos, flags, Seq::<Edge>::empty()) == Some(pos));
    }
    assert(stands_at(here, t, toks, banned, node, pos, flags));
    let e = match eps_block(t, node) {
        Some(s) => {
            lemma_eps_deep(t, toks, banned, f1, node, s, s, pos, out, flags, wts);
            spec_eps(t, toks, banned, f1, s, pos, out, flags, wts)
        },
        None => none_found(),
    };
    let rest = if pos == n {
        if final_state(t, node) {
            emitted(t, out, wts.push(final_weight(t, node)))
        } else {
            none_found()
        }
    } else {
        match sym_block(t, node, toks[pos].sym) {
            Some(s) => {
                lemma_trans_deep(t, toks, banned, f1, node, s, s, toks[pos], pos, out, flags, wts);
                spec_trans(t, toks, banned, f1, s, toks[pos], pos, out, flags, wts)
            },
            None => none_found(),
        }
    };
    lemma_stands_join(e, rest, t, toks, banned, node, pos, flags);
    lemma_stands_join(here, join(e, rest), t, toks, banned, node, pos, flags);
    if node >= TARGET_TABLE_START {
        assert(spec_step(t, toks, banned, fuel, node, pos, out, flags, wts) == join(here, join(e, rest)));
    } else {
        let i = node as int;
        if pos != n {
            assert(spec_find_index(t, toks, banned, f1, i + 1, toks[pos], pos, out, flags, wts) == rest);
        }
        assert(spec_step(t, toks, banned, fuel, node, pos, out, flags, wts) == join(here, join(e, rest)));
    }
}

proof fn lemma_eps_deep(
    t: TransducerModel,
    toks: Seq<Token>,
    banned: Seq<u16>,
    fuel: nat,
    node: u32,
    s: int,
    j: int,
    pos: int,
    out: Seq<OutSym>,
    flags: FlagMap,
    wts: Seq<u32>,
)
    requires
        0 <= pos <= toks.len(),
        eps_block(t, node) == Some(s),
        s <= j,
        forall|i: int| s <= i < j ==> #[trigger] eps_entry(t, i),
    ensures
        stands_at(spec_eps(t, toks, banned, fuel, j, pos, out, flags, wts), t, toks, banned, node, pos, flags),
    decreases fuel, 1int, t.transition_table.len() - j,
{
    if 0 <= j < t.transition_table.len() {
        let tr = t.transition_table[j];
        if tr.input != NO_SYMBOL && (tr.input == EPSILON || flag_of(t, tr.input) is Some) {
            assert(eps_entry(t, j));
            assert(eps_arc(t, node, j));
            lemma_eps_deep(t, toks, banned, fuel, node, s, j + 1, pos, out, flags, wts);
            let next = spec_eps(t, toks, banned, fuel, j + 1, pos, out, flags, wts);
            let edge = Edge { entry: j, reads: false };
            if tr.input == EPSILON {
                if !banned.contains(tr.output) {
                    let o = spec_out_sym(t, tr.output, None);
                    let child = spec_step(t, toks, banned, fuel, tr.target, pos, out.push(o), flags, wts.push(tr.weight));
                    lemma_step_deep(t, toks, banned, fuel, tr.target, pos, out.push(o), flags, wts.push(tr.weight));
                    assert forall|arcs: Seq<Edge>|
                        #![trigger path_end(t, toks, banned, tr.target, pos, flags, arcs)]
                        path_end(t, toks, banned, node, pos, flags, seq![edge] + arcs)
                            == path_end(t, toks, banned, tr.target, pos, flags, arcs) by {
                        lemma_edge_front_end(t, toks, banned, node, pos, flags, edge, arcs);
                    }
                    lemma_stands_front(t, toks, banned, node, pos, flags, edge, pos, flags, child);
                    lemma_stands_join(child, next, t, toks, banned, node, pos, flags);
                }
            } else {
                if let Some((m, _)) = spec_apply(flags, flag_of(t, tr.input).unwrap()) {
                    let child = spec_step(t, toks, banned, fuel, tr.target, pos, out, m, wts.push(tr.weight));
                    lemma_step_deep(t, toks, banned, fuel, tr.target, pos, out, m, wts.push(tr.weight));
                    assert forall|arcs: Seq<Edge>|
                        #![trigger path_end(t, toks, banned, tr.target, pos, m, arcs)]
                        path_end(t, toks, banned, node, pos, flags, seq![edge] + arcs)
                            == path_end(t, toks, banned, tr.target, pos, m, arcs) by {
                        lemma_edge_front_end(t, toks, banned, node, pos, flags, edge, arcs);
                    }
                    lemma_stands_front(t, toks, banned, node, pos, flags, edge, pos, m, child);
                    lemma_stands_join(child, next, t, toks, banned, node, pos, flags);
                }
            }
        }
    }
}

proof fn lemma_trans_deep(
    t: TransducerModel,
    toks: Seq<Token>,
    banned: Seq<u16>,
    fuel: nat,
    node: u32,
    s: int,
    j: int,
    tok: Token,
    pos: int,
    out: Seq<OutSym>,
    flags: FlagMap,
    wts: Seq<u32>,
)
    requires
        0 <= pos < toks.len(),
        tok == toks[pos],
        sym_block(t, node, tok.sym) == Some(s),
        s <= j,
        forall|i: int| s <= i < j ==> #[trigger] t.transition_table[i].input != NO_SYMBOL,
    ensures
        stands_at(spec_trans(t, toks, banned, fuel, j, tok, pos, out, flags, wts), t, toks, banned, node, pos, flags),
    decreases fuel, 1int, t.transition_table.len() - j,
{
    if 0 <= j < t.transition_table.len() {
        let tr = t.transition_table[j];
        if tr.input != NO_SYMBOL {
            lemma_trans_deep(t, toks, banned, fuel, node, s, j + 1, tok, pos, out, flags, wts);
            let next = spec_trans(t, toks, banned, fuel, j + 1, tok, pos, out, flags, wts);
            if tr.input == tok.sym && !banned.contains(tr.output) {
                assert(sym_arc(t, node, tok.sym, j));
                let edge = Edge { entry: j, reads: true };
                let o = spec_out_sym(t, tr.output, tok.orig);
                let child = spec_step(t, toks, banned, fuel, tr.target, pos + 1, out.push(o), flags, wts.push(tr.weight));
                lemma_step_deep(t, toks, banned, fuel, tr.target, pos + 1, out.push(o), flags, wts.push(tr.weight));
                assert forall|arcs: Seq<Edge>|
                    #![trigger path_end(t, toks, banned, tr.target, pos + 1, flags, arcs)]
                    path_end(t, toks, banned, node, pos, flags, seq![edge] + arcs)
                        == path_end(t, toks, banned, tr.target, pos + 1, flags, arcs) by {
                    lemma_edge_front_end(t, toks, banned, node, pos, flags, edge, arcs);
                }
                lemma_stands_front(t, toks, banned, node, pos, flags, edge, pos + 1, flags, child);
                lemma_stands_join(child, next, t, toks, banned, node, pos, flags);
            }
        }
    }
}

/// The frontier goes no further than a final state reached: it is 0, or
/// the byte length of the first `p` tokens of `input` for a path from the
/// start state that reads those `p` tokens, passes every flag gate, emits no
/// banned output and stands in a final state.
pub proof fn frontier_is_a_final_prefix(t: &Transducer, input: Seq<char>, banned: Seq<u16>)
    requires
        t.tokens_of(input) is Some,
    ensures
        t.frontier(input, banned) == 0 || exists|arcs: Seq<Edge>|
            #[trigger] path_end(t.model(), t.tokens_of(input).unwrap(), banned, 0, 0, Map::empty(), arcs)
                is Some && t.frontier(input, banned) == tokens_bytes(
                t.model(),
                t.tokens_of(input).unwrap().take(
                    path_end(t.model(), t.tokens_of(input).unwrap(), banned, 0, 0, Map::empty(), arcs).unwrap(),
                ),
            ),
{
    let toks = t.tokens_of(input).unwrap();
    let m = t.model();
    lemma_step_deep(m, toks, banned, MAX_DEPTH as nat, 0, 0, Seq::empty(), Map::empty(), Seq::empty());
    let f = t.search(toks, banned).1;
    if f != 0 {
        let a = choose|arcs: Seq<Edge>| #[trigger] path_end(m, toks, banned, 0, 0, Map::empty(), arcs) == Some(f as int);
        lemma_path_end_bound(m, toks, banned, 0, 0, Map::empty(), a);
        assert(path_end(m, toks, banned, 0, 0, Map::empty(), a) is Some);
    } else {
        assert(toks.take(0) =~= Seq::<Token>::empty());
    }
}

/// The frontier agrees with acceptance: when lookup finds an analysis of
/// `input`, whichever table holds the final state it ends in, the frontier
/// is the whole byte length of `input`.
pub proof fn accepted_input_reaches_the_frontier(t: &Transducer, input: Seq<char>, banned: Seq<u16>)
    requires
        t.ready(),
        t.analyses(input, banned).len() > 0,
    ensures
        t.frontier(input, banned) == encode_utf8(input).len(),
{
    let toks = t.tokens_of(input).unwrap();
    lemma_step_ends(
        t.model(),
        toks,
        banned,
        MAX_DEPTH as nat,
        0,
        0,
        Seq::empty(),
        Map::empty(),
        Seq::empty(),
    );
    lemma_tokenize_bytes(t.model(), input);
    assert(toks.take(toks.len() as int) =~= toks);
}


// ---------------------------------------------------------------------------
// Tokenisation.
// ---------------------------------------------------------------------------

/// The input text a token stands for: the character it carries, or its
/// symbol's text.
pub open spec fn token_text(t: TransducerModel, tok: Token) -> Seq<char> {
    match tok.orig {
        Some(c) => seq![c],
        None => t.symbols[tok.sym as int],
    }
}

/// The input text a sequence of tokens stands for.
pub open spec fn spelled(t: TransducerModel, toks: Seq<Token>) -> Seq<char>
    decreases toks.len(),
{
    if toks.len() == 0 {
        Seq::empty()
    } else {
        token_text(t, toks[0]) + spelled(t, toks.drop_first())
    }
}

/// The symbol that reads a character no symbol's text begins with: the
/// unknown symbol when the alphabet has one, else the identity symbol.
pub open spec fn stand_in(t: TransducerModel) -> Option<u16> {
    if t.unknown is Some {
        t.unknown
    } else {
        t.identity
    }
}

/// What each token is: a token read at character offset `p` of `rest` is the
/// symbol tokenisation reads there when a symbol's text begins the rest, and
/// otherwise the stand-in symbol carrying the character found there.
pub open spec fn tokens_chosen(t: &Transducer, rest: Seq<char>, toks: Seq<Token>) -> bool {
    forall|i: int|
        0 <= i < toks.len() ==> {
            let p = spelled(t.model(), toks.take(i)).len() as int;
            let here = rest.skip(p);
            &&& p < rest.len()
            &&& (#[trigger] toks[i]).orig is None ==> t.first_symbol(here) == Some(toks[i].sym)
            &&& toks[i].orig is Some ==> {
                &&& t.first_symbol(here) is None
                &&& toks[i].orig == Some(rest[p])
                &&& stand_in(t.model()) == Some(toks[i].sym)
            }
        }
}

proof fn lemma_spelled_cons(t: TransducerModel, x: Token, ts: Seq<Token>)
    ensures
        spelled(t, seq![x] + ts) == token_text(t, x) + spelled(t, ts),
{
    assert((seq![x] + ts).drop_first() =~= ts);
    assert((seq![x] + ts)[0] == x);
}

proof fn lemma_tokens_spell(t: &Transducer, rest: Seq<char>)
    requires
        t.ready(),
        spec_tokenize(t.model(), rest) is Some,
    ensures
        spelled(t.model(), spec_tokenize(t.model(), rest).unwrap()) == rest,
        tokens_chosen(t, rest, spec_tokenize(t.model(), rest).unwrap()),
    decreases rest.len(),
{
    let m = t.model();
    let toks = spec_tokenize(m, rest).unwrap();
    if rest.len() == 0 {
        return;
    }
    lemma_first_match(m, rest, 0);
    let (x, n) = match first_match(m, rest, 0) {
        Some(s) => (Token { sym: s, orig: None }, sym_chars(m, s).len() as int),
        None => (Token { sym: fallback_symbol(m).unwrap(), orig: Some(rest[0]) }, 1int),
    };
    let tail = rest.skip(n);
    let ts = spec_tokenize(m, tail).unwrap();
    assert(toks == seq![x] + ts);
    lemma_tokens_spell(t, tail);
    lemma_spelled_cons(m, x, ts);
    assert(token_text(m, x) == rest.take(n));
    assert(rest =~= rest.take(n) + tail);
    assert forall|i: int| 0 <= i < toks.len() implies {
        let p = spelled(m, toks.take(i)).len() as int;
        let here = rest.skip(p);
        &&& p < rest.len()
        &&& (#[trigger] toks[i]).orig is None ==> t.first_symbol(here) == Some(toks[i].sym)
        &&& toks[i].orig is Some ==> {
            &&& t.first_symbol(here) is None
            &&& toks[i].orig == Some(rest[p])
            &&& stand_in(m) == Some(toks[i].sym)
        }
    } by {
        if i == 0 {
            assert(toks.take(0) =~= Seq::<Token>::empty());
            assert(rest.skip(0) =~= rest);
        } else {
            let q = spelled(m, ts.take(i - 1)).len() as int;
            assert(toks.take(i) =~= seq![x] + ts.take(i - 1));
            lemma_spelled_cons(m, x, ts.take(i - 1));
            assert(toks[i] == ts[i - 1]);
            assert(rest.skip(n + q) =~= tail.skip(q));
            assert(rest[n + q] == tail[q]);
        }
    }
}

/// Tokenisation spells the input and takes what it documents: the tokens'
/// texts joined give `input` back; each token that carries no character is
/// the symbol read by longest match where it stands, and is an input symbol
/// that is neither epsilon, a flag diacritic, nor the identity or unknown
/// symbol; and each token that carries a character stands where no symbol's
/// text begins the rest, carries the character found there, and is the
/// unknown symbol, or the identity symbol when there is no unknown symbol.
pub proof fn tokens_spell_the_input(t: &Transducer, input: Seq<char>)
    requires
        t.wf(),
        t.tokens_of(input) is Some,
    ensures
        spelled(t.model(), t.tokens_of(input).unwrap()) == input,
        tokens_chosen(t, input, t.tokens_of(input).unwrap()),
        forall|i: int|
            0 <= i < t.tokens_of(input).unwrap().len() && (#[trigger] t.tokens_of(
                input,
            ).unwrap()[i]).orig is None ==> {
                let s = t.tokens_of(input).unwrap()[i].sym;
                &&& s < t.header.number_of_input_symbols
                &&& s != EPSILON
                &&& flag_of(t.model(), s) is None
                &&& Some(s) != t.alphabet.identity
                &&& Some(s) != t.alphabet.unknown
            },
{
    lemma_tokens_spell(t, input);
    let toks = t.tokens_of(input).unwrap();
    let m = t.model();
    assert forall|i: int|
        0 <= i < toks.len() && (#[trigger] toks[i]).orig is None implies {
            let s = toks[i].sym;
            &&& s < t.header.number_of_input_symbols
            &&& s != EPSILON
            &&& flag_of(m, s) is None
            &&& Some(s) != t.alphabet.identity
            &&& Some(s) != t.alphabet.unknown
        } by {
        let p = spelled(m, toks.take(i)).len() as int;
        let here = input.skip(p);
        let s = toks[i].sym;
        assert(t.first_symbol(here) == Some(s));
        lemma_first_match(m, here, 0);
        let j = choose|j: int| 0 <= j < m.tokenizer_order.len() && m.tokenizer_order[j] == s;
        assert(t.tokenizer_order@[j] == s);
        assert(is_candidate(t.alphabet.model(), t.header.number_of_input_symbols, s));
    }
}

} // verus!
