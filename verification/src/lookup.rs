//! The depth-first traversal behind `lookup`.
//!
//! A path starts at node 0 with the input cursor at 0. Epsilon and flag
//! transitions consume no input; flag diacritics gate the path and are erased
//! from the output; input transitions consume one token. Every path that
//! stands in a final state at the end of the input yields one analysis, in
//! the order the traversal reaches them. The traversal also records the
//! deepest input position at which a path stood in a final state.
//!
//! Paths are followed to a depth of [`MAX_DEPTH`] states; without such a
//! bound an epsilon cycle would be followed forever.

use vstd::prelude::*;

use crate::alphabet::{flag_model, Alphabet, FlagModel, EPSILON};
use crate::flag_state::{
    spec_apply, spec_undo, undo_model, undo_reverses_apply, undo_wf, FlagMap, FlagState,
};
use crate::text::push_char;
use crate::transducer::{
    analysis_models, Analysis, AnalysisModel, Transducer, TransducerModel, NO_SYMBOL, NO_TARGET,
    TARGET_TABLE_START,
};

verus! {

/// The longest path, in states, that the traversal follows.
pub const MAX_DEPTH: u64 = 0xFFFF_FFFF_FFFF_FFFF;

/// One tokenised input symbol, with the original character for
/// identity/unknown symbols so it can be copied through to the output.
#[derive(Clone, Copy)]
pub struct Token {
    pub sym: u16,
    pub orig: Option<char>,
}

/// One output symbol on the current path, with the original character
/// carried along when the symbol is identity/unknown.
#[derive(Clone, Copy)]
pub struct OutSym {
    pub sym: u16,
    pub orig: Option<char>,
}

/// What a part of the traversal finds: the analyses in order, the deepest
/// input position at which a path stood in a final state (0 if none), and
/// whether every analysis names only symbols that the alphabet holds.
pub type Found = (Seq<AnalysisModel>, nat, bool);

pub open spec fn none_found() -> Found {
    (Seq::empty(), 0, true)
}

pub open spec fn join(a: Found, b: Found) -> Found {
    (a.0 + b.0, if a.1 >= b.1 { a.1 } else { b.1 }, a.2 && b.2)
}

pub open spec fn imax(a: nat, b: nat) -> nat {
    if a >= b {
        a
    } else {
        b
    }
}

proof fn lemma_join_assoc(a: Found, b: Found, c: Found)
    ensures
        join(join(a, b), c) == join(a, join(b, c)),
{
    assert((a.0 + b.0) + c.0 =~= a.0 + (b.0 + c.0));
}

proof fn lemma_join_none(a: Found)
    ensures
        join(a, none_found()) == a,
        join(none_found(), a) == a,
{
    assert(a.0 + Seq::<AnalysisModel>::empty() =~= a.0);
    assert(Seq::<AnalysisModel>::empty() + a.0 =~= a.0);
}

// ---------------------------------------------------------------------------
// The specification of the traversal.
// ---------------------------------------------------------------------------

/// The flag operation of symbol `sym` (`None` past the table).
pub open spec fn flag_of(t: TransducerModel, sym: u16) -> Option<FlagModel> {
    if (sym as int) < t.flags.len() {
        t.flags[sym as int]
    } else {
        None
    }
}

/// `sym` is epsilon or a flag diacritic: it consumes no input and is erased
/// from the output.
pub open spec fn epsilon_like(t: TransducerModel, sym: u16) -> bool {
    sym == EPSILON || flag_of(t, sym) is Some
}

/// The output symbol recorded for `sym`: it keeps the original character
/// only when it is the identity or unknown symbol.
pub open spec fn spec_out_sym(t: TransducerModel, sym: u16, orig: Option<char>) -> OutSym {
    if Some(sym) == t.identity || Some(sym) == t.unknown {
        OutSym { sym, orig }
    } else {
        OutSym { sym, orig: None }
    }
}

/// The text an output symbol contributes: nothing for epsilon and flags, the
/// original character for identity/unknown, else the symbol's string.
pub open spec fn sym_text(t: TransducerModel, o: OutSym) -> Seq<char> {
    if epsilon_like(t, o.sym) {
        Seq::empty()
    } else {
        match o.orig {
            Some(c) => seq![c],
            None => t.symbols[o.sym as int],
        }
    }
}

/// The output symbol's text exists: it is erased, carries its character, or
/// names a symbol of the alphabet.
pub open spec fn sym_in_range(t: TransducerModel, o: OutSym) -> bool {
    epsilon_like(t, o.sym) || o.orig is Some || (o.sym as int) < t.symbols.len()
}

/// The text of a path's output.
pub open spec fn out_text(t: TransducerModel, out: Seq<OutSym>) -> Seq<char>
    decreases out.len(),
{
    if out.len() == 0 {
        Seq::empty()
    } else {
        out_text(t, out.drop_last()) + sym_text(t, out.last())
    }
}

/// The analysis recorded when a path ends with output `out` and weights `wts`.
pub open spec fn emitted(t: TransducerModel, out: Seq<OutSym>, wts: Seq<u32>) -> Found {
    (seq![(out_text(t, out), wts)], 0, forall|i: int| 0 <= i < out.len() ==> #[trigger] sym_in_range(t, out[i]))
}

/// `node` is a final state.
pub open spec fn spec_is_final(t: TransducerModel, node: u32) -> bool {
    if node >= TARGET_TABLE_START {
        let k = node - TARGET_TABLE_START;
        &&& k < t.transition_table.len()
        &&& t.transition_table[k].input == NO_SYMBOL
        &&& t.transition_table[k].output == NO_SYMBOL
        &&& t.transition_table[k].target == 1
    } else {
        &&& (node as int) < t.index_table.len()
        &&& t.index_table[node as int].input == NO_SYMBOL
        &&& t.index_table[node as int].target != NO_TARGET
    }
}

/// What the traversal finds from state `node` with the input cursor at `pos`,
/// on a path with output `out`, flag state `flags` and weights `wts`,
/// following at most `fuel` more states.
pub open spec fn spec_step(
    t: TransducerModel,
    toks: Seq<Token>,
    banned: Seq<u16>,
    fuel: nat,
    node: u32,
    pos: int,
    out: Seq<OutSym>,
    flags: FlagMap,
    wts: Seq<u32>,
) -> Found
    decreases fuel, 0int, 0int,
{
    if fuel == 0 {
        none_found()
    } else {
        let here: Found = (Seq::empty(), if spec_is_final(t, node) { pos as nat } else { 0 }, true);
        if node >= TARGET_TABLE_START {
            let k = node - TARGET_TABLE_START;
            let e = spec_eps(t, toks, banned, (fuel - 1) as nat, k + 1, pos, out, flags, wts);
            let rest = if pos == toks.len() {
                if k < t.transition_table.len() && t.transition_table[k].input == NO_SYMBOL
                    && t.transition_table[k].output == NO_SYMBOL
                    && t.transition_table[k].target == 1 {
                    emitted(t, out, wts.push(t.transition_table[k].weight))
                } else {
                    none_found()
                }
            } else {
                spec_trans(t, toks, banned, (fuel - 1) as nat, k + 1, toks[pos], pos, out, flags, wts)
            };
            join(here, join(e, rest))
        } else {
            let i = node as int;
            let e = if i + 1 < t.index_table.len() && t.index_table[i + 1].input == EPSILON
                && t.index_table[i + 1].target >= TARGET_TABLE_START {
                spec_eps(
                    t,
                    toks,
                    banned,
                    (fuel - 1) as nat,
                    t.index_table[i + 1].target - TARGET_TABLE_START,
                    pos,
                    out,
                    flags,
                    wts,
                )
            } else {
                none_found()
            };
            let rest = if pos == toks.len() {
                if i < t.index_table.len() && t.index_table[i].input == NO_SYMBOL
                    && t.index_table[i].target != NO_TARGET {
                    emitted(
                        t,
                        out,
                        wts.push(
                            if t.weighted {
                                t.index_table[i].target
                            } else {
                                0
                            },
                        ),
                    )
                } else {
                    none_found()
                }
            } else {
                spec_find_index(t, toks, banned, (fuel - 1) as nat, i + 1, toks[pos], pos, out, flags, wts)
            };
            join(here, join(e, rest))
        }
    }
}

/// What the epsilon and flag transitions of a transition-table state find,
/// starting at entry `j`. They consume no input.
pub open spec fn spec_eps(
    t: TransducerModel,
    toks: Seq<Token>,
    banned: Seq<u16>,
    fuel: nat,
    j: int,
    pos: int,
    out: Seq<OutSym>,
    flags: FlagMap,
    wts: Seq<u32>,
) -> Found
    decreases fuel, 1int, t.transition_table.len() - j,
{
    if j < 0 || j >= t.transition_table.len() {
        none_found()
    } else {
        let tr = t.transition_table[j];
        if tr.input == NO_SYMBOL {
            none_found()
        } else if tr.input == EPSILON {
            if banned.contains(tr.output) {
                spec_eps(t, toks, banned, fuel, j + 1, pos, out, flags, wts)
            } else {
                join(
                    spec_step(
                        t,
                        toks,
                        banned,
                        fuel,
                        tr.target,
                        pos,
                        out.push(spec_out_sym(t, tr.output, None)),
                        flags,
                        wts.push(tr.weight),
                    ),
                    spec_eps(t, toks, banned, fuel, j + 1, pos, out, flags, wts),
                )
            }
        } else if flag_of(t, tr.input) is Some {
            match spec_apply(flags, flag_of(t, tr.input).unwrap()) {
                Some((m, _)) => join(
                    spec_step(t, toks, banned, fuel, tr.target, pos, out, m, wts.push(tr.weight)),
                    spec_eps(t, toks, banned, fuel, j + 1, pos, out, flags, wts),
                ),
                None => spec_eps(t, toks, banned, fuel, j + 1, pos, out, flags, wts),
            }
        } else {
            none_found()
        }
    }
}

/// What the transitions of a transition-table state that consume `tok` find,
/// starting at entry `j`.
pub open spec fn spec_trans(
    t: TransducerModel,
    toks: Seq<Token>,
    banned: Seq<u16>,
    fuel: nat,
    j: int,
    tok: Token,
    pos: int,
    out: Seq<OutSym>,
    flags: FlagMap,
    wts: Seq<u32>,
) -> Found
    decreases fuel, 1int, t.transition_table.len() - j,
{
    if j < 0 || j >= t.transition_table.len() {
        none_found()
    } else {
        let tr = t.transition_table[j];
        if tr.input == NO_SYMBOL {
            none_found()
        } else if tr.input == tok.sym && !banned.contains(tr.output) {
            join(
                spec_step(
                    t,
                    toks,
                    banned,
                    fuel,
                    tr.target,
                    pos + 1,
                    out.push(spec_out_sym(t, tr.output, tok.orig)),
                    flags,
                    wts.push(tr.weight),
                ),
                spec_trans(t, toks, banned, fuel, j + 1, tok, pos, out, flags, wts),
            )
        } else {
            spec_trans(t, toks, banned, fuel, j + 1, tok, pos, out, flags, wts)
        }
    }
}

/// What the indexed transitions for `tok` out of an index-table state find,
/// whose symbol slots begin at `base`.
pub open spec fn spec_find_index(
    t: TransducerModel,
    toks: Seq<Token>,
    banned: Seq<u16>,
    fuel: nat,
    base: int,
    tok: Token,
    pos: int,
    out: Seq<OutSym>,
    flags: FlagMap,
    wts: Seq<u32>,
) -> Found
    decreases fuel, 2int, 0int,
{
    let slot = base + tok.sym;
    if 0 <= slot < t.index_table.len() && t.index_table[slot].input == tok.sym
        && t.index_table[slot].target >= TARGET_TABLE_START {
        spec_trans(
            t,
            toks,
            banned,
            fuel,
            t.index_table[slot].target - TARGET_TABLE_START,
            tok,
            pos,
            out,
            flags,
            wts,
        )
    } else {
        none_found()
    }
}

// ---------------------------------------------------------------------------
// The traversal.
// ---------------------------------------------------------------------------

/// Depth-first traversal state for one lookup.
pub(crate) struct Lookup {
    /// Output symbols accumulated on the current path (a stack).
    pub(crate) output: Vec<OutSym>,
    /// Flag-diacritic state on the current path, edited in place and undone
    /// on backtrack.
    pub(crate) flags: FlagState,
    /// Weights met on the current path (a stack).
    pub(crate) weights: Vec<u32>,
    pub(crate) results: Vec<Analysis>,
    /// Deepest input position at which some path stood in a final state
    /// (i.e. the longest prefix accepted as a complete analysis).
    pub(crate) max_final_pos: usize,
    /// Some path ended with an output symbol past the alphabet; its
    /// analysis cannot be written.
    pub(crate) stray: bool,
}

/// The traversal left the current path as it found it.
pub(crate) open spec fn path_kept(a: Alphabet, old: Lookup, new: Lookup) -> bool {
    &&& new.output@ == old.output@
    &&& new.weights@ == old.weights@
    &&& new.flags.wf(a.flag_models())
    &&& new.flags.map(a.flag_models()) == old.flags.map(a.flag_models())
}

/// The traversal recorded what `f` says was found: the deepest final
/// position, whether some analysis names a symbol past the alphabet, and,
/// while none has, the analyses.
pub(crate) open spec fn found_added(old: Lookup, new: Lookup, f: Found) -> bool {
    &&& new.stray == (old.stray || !f.2)
    &&& !new.stray ==> analysis_models(new.results@) == analysis_models(old.results@) + f.0
    &&& new.max_final_pos == imax(old.max_final_pos as nat, f.1)
}

/// Recording nothing records what nothing found says.
proof fn lemma_added_none(a: Lookup)
    ensures
        found_added(a, a, none_found()),
{
    assert(analysis_models(a.results@) + Seq::<AnalysisModel>::empty() =~= analysis_models(
        a.results@,
    ));
}

/// Recording one find after another records both.
proof fn lemma_added_join(a: Lookup, b: Lookup, c: Lookup, f: Found, g: Found)
    requires
        found_added(a, b, f),
        found_added(b, c, g),
    ensures
        found_added(a, c, join(f, g)),
{
    let ra = analysis_models(a.results@);
    assert((ra + f.0) + g.0 =~= ra + (f.0 + g.0));
}

/// Whether `x` occurs in `v`.
fn contains(v: &[u16], x: u16) -> (r: bool)
    ensures
        r == v@.contains(x),
{
    let mut i: usize = 0;
    while i < v.len()
        invariant
            i <= v@.len(),
            forall|k: int| 0 <= k < i ==> v@[k] != x,
        decreases v@.len() - i,
    {
        if v[i] == x {
            assert(v@[i as int] == x);
            return true;
        }
        i = i + 1;
    }
    false
}

/// Is `node` a final state? (Finality in this format is unconditional: flag
/// state gates transitions, not acceptance.)
fn is_final(t: &Transducer, node: u32) -> (r: bool)
    ensures
        r == spec_is_final(t.model(), node),
{
    if node >= TARGET_TABLE_START {
        let k = (node - TARGET_TABLE_START) as usize;
        if k < t.transition_table.len() {
            let tr = t.transition_table[k];
            tr.input == NO_SYMBOL && tr.output == NO_SYMBOL && tr.target == 1
        } else {
            false
        }
    } else {
        let i = node as usize;
        if i < t.index_table.len() {
            let e = t.index_table[i];
            e.input == NO_SYMBOL && e.target != NO_TARGET
        } else {
            false
        }
    }
}

/// Builds an output symbol, carrying the original character for
/// identity/unknown.
fn out_sym(t: &Transducer, sym: u16, orig: Option<char>) -> (o: OutSym)
    ensures
        o == spec_out_sym(t.model(), sym, orig),
{
    let keep = match t.alphabet.identity {
        Some(x) => x == sym,
        None => false,
    } || match t.alphabet.unknown {
        Some(x) => x == sym,
        None => false,
    };
    if keep {
        OutSym { sym, orig }
    } else {
        OutSym { sym, orig: None }
    }
}

impl Lookup {
    /// Records the current output path as one analysis, with `w` as the
    /// final weight. Epsilon and flag symbols are dropped; identity/unknown
    /// symbols print their original character. A path whose output names a
    /// symbol past the alphabet records no analysis and marks the traversal.
    fn emit(&mut self, t: &Transducer, w: u32)
        ensures
            final(self).output == old(self).output,
            final(self).weights == old(self).weights,
            final(self).flags == old(self).flags,
            found_added(*old(self), *final(self), emitted(t.model(), old(self).output@, old(self).weights@.push(w))),
    {
        let ghost l0 = *self;
        let ghost f = emitted(t.model(), self.output@, self.weights@.push(w));
        let mut output = String::new();
        let mut i: usize = 0;
        while i < self.output.len()
            invariant
                *self == l0,
                l0 == *old(self),
                f == emitted(t.model(), l0.output@, l0.weights@.push(w)),
                i <= self.output@.len(),
                forall|k: int| 0 <= k < i ==> #[trigger] sym_in_range(t.model(), self.output@[k]),
                output@ == out_text(t.model(), self.output@.take(i as int)),
            decreases self.output@.len() - i,
        {
            let o = self.output[i];
            proof {
                assert(self.output@.take(i + 1).drop_last() =~= self.output@.take(i as int));
                assert(self.output@.take(i + 1).last() == o);
            }
            proof {
                assert(t.alphabet.epsilon_like(o.sym) == epsilon_like(t.model(), o.sym));
                assert(t.model().symbols.len() == t.alphabet.symbols@.len());
            }
            if !t.alphabet.is_epsilon_like(o.sym) {
                match o.orig {
                    Some(c) => push_char(&mut output, c),
                    None => {
                        if (o.sym as usize) < t.alphabet.symbols.len() {
                            output.append(t.alphabet.symbols[o.sym as usize].as_str());
                        } else {
                            proof {
                                assert(self.output@[i as int] == o);
                                assert(t.alphabet.epsilon_like(o.sym) == epsilon_like(t.model(), o.sym));
                                assert(t.model().symbols.len() == t.alphabet.symbols@.len());
                                assert(!sym_in_range(t.model(), self.output@[i as int]));
                                assert(!f.2);
                            }
                            self.stray = true;
                            proof {
                                assert(self.output == l0.output);
                            }
                            return;
                        }
                    },
                }
            }
            i = i + 1;
        }
        proof {
            assert(self.output@.take(self.output@.len() as int) =~= self.output@);
            assert(f.2);
        }
        let mut weights = vstd::slice::slice_to_vec(self.weights.as_slice());
        weights.push(w);
        let ghost before = self.results@;
        self.results.push(Analysis { output, weights });
        proof {
            assert(analysis_models(self.results@) =~= analysis_models(before) + f.0);
        }
    }

    /// Visits the state addressed by `node` with the input cursor at `pos`.
    pub(crate) fn step(
        &mut self,
        t: &Transducer,
        toks: &Vec<Token>,
        banned: &[u16],
        node: u32,
        pos: usize,
        fuel: u64,
    )
        requires
            old(self).flags.wf(t.alphabet.flag_models()),
            pos <= toks@.len(),
        ensures
            path_kept(t.alphabet, *old(self), *final(self)),
            found_added(
                *old(self),
                *final(self),
                spec_step(
                    t.model(),
                    toks@,
                    banned@,
                    fuel as nat,
                    node,
                    pos as int,
                    old(self).output@,
                    old(self).flags.map(t.alphabet.flag_models()),
                    old(self).weights@,
                ),
            ),
        decreases fuel, 0int,
    {
        let ghost fm = t.alphabet.flag_models();
        let ghost out0 = self.output@;
        let ghost map0 = self.flags.map(fm);
        let ghost wts0 = self.weights@;
        let ghost l_in = *self;
        if fuel == 0 {
            proof {
                lemma_added_none(*self);
            }
            return ;
        }
        let ghost here: Found = (
            Seq::empty(),
            if spec_is_final(t.model(), node) {
                pos as nat
            } else {
                0
            },
            true,
        );
        if pos > self.max_final_pos && is_final(t, node) {
            self.max_final_pos = pos;
        }
        proof {
            assert(analysis_models(self.results@) =~= analysis_models(l_in.results@) + here.0);
            assert(found_added(l_in, *self, here));
        }
        let ghost l0 = *self;
        if node >= TARGET_TABLE_START {
            let k = (node - TARGET_TABLE_START) as usize;
            let ghost e = spec_eps(t.model(), toks@, banned@, (fuel - 1) as nat, k + 1, pos as int, out0, map0, wts0);
            self.epsilon_transitions(t, toks, banned, k + 1, pos, fuel - 1);
            let ghost l1 = *self;
            let ghost rest = if pos == toks@.len() {
                if k < t.model().transition_table.len() && t.model().transition_table[k as int].input == NO_SYMBOL
                    && t.model().transition_table[k as int].output == NO_SYMBOL
                    && t.model().transition_table[k as int].target == 1 {
                    emitted(t.model(), out0, wts0.push(t.model().transition_table[k as int].weight))
                } else {
                    none_found()
                }
            } else {
                spec_trans(t.model(), toks@, banned@, (fuel - 1) as nat, k + 1, toks@[pos as int], pos as int, out0, map0, wts0)
            };
            proof {
                lemma_added_none(l1);
            }
            if pos == toks.len() {
                if k < t.transition_table.len() {
                    let tr = t.transition_table[k];
                    if tr.input == NO_SYMBOL && tr.output == NO_SYMBOL && tr.target == 1 {
                        self.emit(t, tr.weight);
                    }
                }
            } else {
                let tok = toks[pos];
                self.transitions(t, toks, banned, k + 1, tok, pos, fuel - 1);
            }
            proof {
                lemma_added_join(l0, l1, *self, e, rest);
                lemma_added_join(l_in, l0, *self, here, join(e, rest));
            }
        } else {
            let i = node as usize;
            let ghost e = if i + 1 < t.model().index_table.len() && t.model().index_table[i + 1].input == EPSILON
                && t.model().index_table[i + 1].target >= TARGET_TABLE_START {
                spec_eps(t.model(), toks@, banned@, (fuel - 1) as nat, t.model().index_table[i + 1].target - TARGET_TABLE_START, pos as int, out0, map0, wts0)
            } else {
                none_found()
            };
            proof {
                lemma_added_none(l0);
            }
            if i + 1 < t.index_table.len() {
                let ep = t.index_table[i + 1];
                if ep.input == EPSILON && ep.target >= TARGET_TABLE_START {
                    let start = (ep.target - TARGET_TABLE_START) as usize;
                    self.epsilon_transitions(t, toks, banned, start, pos, fuel - 1);
                }
            }
            let ghost l1 = *self;
            let ghost rest = if pos == toks@.len() {
                if i < t.model().index_table.len() && t.model().index_table[i as int].input == NO_SYMBOL
                    && t.model().index_table[i as int].target != NO_TARGET {
                    emitted(t.model(), out0, wts0.push(if t.model().weighted { t.model().index_table[i as int].target } else { 0 }))
                } else {
                    none_found()
                }
            } else {
                spec_find_index(t.model(), toks@, banned@, (fuel - 1) as nat, i + 1, toks@[pos as int], pos as int, out0, map0, wts0)
            };
            proof {
                lemma_added_none(l1);
            }
            if pos == toks.len() {
                if i < t.index_table.len() {
                    let f = t.index_table[i];
                    if f.input == NO_SYMBOL && f.target != NO_TARGET {
                        let fw = if t.header.weighted {
                            f.target
                        } else {
                            0
                        };
                        self.emit(t, fw);
                    }
                }
            } else {
                let tok = toks[pos];
                self.find_index(t, toks, banned, i + 1, tok, pos, fuel - 1);
            }
            proof {
                lemma_added_join(l0, l1, *self, e, rest);
                lemma_added_join(l_in, l0, *self, here, join(e, rest));
            }
        }
    }

    /// Follows the epsilon and flag-diacritic transitions of a
    /// transition-table state, starting at `start`. These consume no input.
    fn epsilon_transitions(
        &mut self,
        t: &Transducer,
        toks: &Vec<Token>,
        banned: &[u16],
        start: usize,
        pos: usize,
        fuel: u64,
    )
        requires
            old(self).flags.wf(t.alphabet.flag_models()),
            pos <= toks@.len(),
        ensures
            path_kept(t.alphabet, *old(self), *final(self)),
            found_added(
                *old(self),
                *final(self),
                spec_eps(
                    t.model(),
                    toks@,
                    banned@,
                    fuel as nat,
                    start as int,
                    pos as int,
                    old(self).output@,
                    old(self).flags.map(t.alphabet.flag_models()),
                    old(self).weights@,
                ),
            ),
        decreases fuel, 1int,
    {
        let ghost fm = t.alphabet.flag_models();
        let ghost out0 = self.output@;
        let ghost map0 = self.flags.map(fm);
        let ghost wts0 = self.weights@;
        let ghost l0 = *self;
        let ghost total = spec_eps(t.model(), toks@, banned@, fuel as nat, start as int, pos as int, out0, map0, wts0);
        let ghost mut acc = none_found();
        let mut j = start;
        proof {
            lemma_join_none(total);
            lemma_added_none(l0);
        }
        loop
            invariant
                pos <= toks@.len(),
                self.output@ == out0,
                self.weights@ == wts0,
                self.flags.wf(fm),
                self.flags.map(fm) == map0,
                fm == t.alphabet.flag_models(),
                total == spec_eps(t.model(), toks@, banned@, fuel as nat, start as int, pos as int, out0, map0, wts0),
                join(acc, spec_eps(t.model(), toks@, banned@, fuel as nat, j as int, pos as int, out0, map0, wts0)) == total,
                found_added(l0, *self, acc),
            ensures
                self.output@ == out0,
                self.weights@ == wts0,
                self.flags.wf(fm),
                self.flags.map(fm) == map0,
                found_added(l0, *self, total),
            decreases t.model().transition_table.len() - j,
        {
            if j >= t.transition_table.len() {
                proof {
                    lemma_join_none(acc);
                }
                break;
            }
            let tr = t.transition_table[j];
            let ghost next = spec_eps(t.model(), toks@, banned@, fuel as nat, j + 1, pos as int, out0, map0, wts0);
            if tr.input == NO_SYMBOL {
                proof {
                    lemma_join_none(acc);
                }
                break;
            }
            if tr.input == EPSILON {
                if !contains(banned, tr.output) {
                    let o = out_sym(t, tr.output, None);
                    let ghost child = spec_step(t.model(), toks@, banned@, fuel as nat, tr.target, pos as int, out0.push(o), map0, wts0.push(tr.weight));
                    self.output.push(o);
                    self.weights.push(tr.weight);
                    let ghost lb = *self;
                    self.step(t, toks, banned, tr.target, pos, fuel);
                    let ghost la = *self;
                    self.output.pop();
                    self.weights.pop();
                    proof {
                        lemma_join_assoc(acc, child, next);
                        assert(found_added(lb, la, child));
                        lemma_added_join(l0, lb, *self, acc, child);
                        acc = join(acc, child);
                    }
                }
            } else if t.alphabet.flag(tr.input).is_some() {
                proof {
                    assert(t.alphabet.flag_models()[tr.input as int] == flag_model(t.alphabet.flags@[tr.input as int]));
                }
                match self.flags.apply(&t.alphabet, tr.input) {
                    Some(u) => {
                        let ghost m = self.flags.map(fm);
                        let ghost child = spec_step(t.model(), toks@, banned@, fuel as nat, tr.target, pos as int, out0, m, wts0.push(tr.weight));
                        self.weights.push(tr.weight);
                        let ghost lb = *self;
                        self.step(t, toks, banned, tr.target, pos, fuel);
                        let ghost la = *self;
                        self.weights.pop();
                        self.flags.undo(&t.alphabet, u);
                        proof {
                            undo_reverses_apply(map0, flag_of(t.model(), tr.input).unwrap());
                            lemma_join_assoc(acc, child, next);
                            assert(found_added(lb, la, child));
                            lemma_added_join(l0, lb, *self, acc, child);
                            acc = join(acc, child);
                        }
                    },
                    None => {},
                }
            } else {
                proof {
                    lemma_join_none(acc);
                }
                break;
            }
            j = j + 1;
        }
    }

    /// Takes every transition out of a transition-table state (from `start`)
    /// that consumes the input symbol `tok`.
    fn transitions(
        &mut self,
        t: &Transducer,
        toks: &Vec<Token>,
        banned: &[u16],
        start: usize,
        tok: Token,
        pos: usize,
        fuel: u64,
    )
        requires
            old(self).flags.wf(t.alphabet.flag_models()),
            pos < toks@.len(),
        ensures
            path_kept(t.alphabet, *old(self), *final(self)),
            found_added(
                *old(self),
                *final(self),
                spec_trans(
                    t.model(),
                    toks@,
                    banned@,
                    fuel as nat,
                    start as int,
                    tok,
                    pos as int,
                    old(self).output@,
                    old(self).flags.map(t.alphabet.flag_models()),
                    old(self).weights@,
                ),
            ),
        decreases fuel, 1int,
    {
        let ghost fm = t.alphabet.flag_models();
        let ghost out0 = self.output@;
        let ghost map0 = self.flags.map(fm);
        let ghost wts0 = self.weights@;
        let ghost l0 = *self;
        let ghost total = spec_trans(t.model(), toks@, banned@, fuel as nat, start as int, tok, pos as int, out0, map0, wts0);
        let ghost mut acc = none_found();
        let mut j = start;
        proof {
            lemma_join_none(total);
            lemma_added_none(l0);
        }
        let ntoks = toks.len();
        loop
            invariant
                pos < toks@.len(),
                ntoks == toks@.len(),
                self.output@ == out0,
                self.weights@ == wts0,
                self.flags.wf(fm),
                self.flags.map(fm) == map0,
                fm == t.alphabet.flag_models(),
                total == spec_trans(t.model(), toks@, banned@, fuel as nat, start as int, tok, pos as int, out0, map0, wts0),
                join(acc, spec_trans(t.model(), toks@, banned@, fuel as nat, j as int, tok, pos as int, out0, map0, wts0)) == total,
                found_added(l0, *self, acc),
            ensures
                self.output@ == out0,
                self.weights@ == wts0,
                self.flags.wf(fm),
                self.flags.map(fm) == map0,
                found_added(l0, *self, total),
            decreases t.model().transition_table.len() - j,
        {
            if j >= t.transition_table.len() {
                proof {
                    lemma_join_none(acc);
                }
                break;
            }
            let tr = t.transition_table[j];
            let ghost next = spec_trans(t.model(), toks@, banned@, fuel as nat, j + 1, tok, pos as int, out0, map0, wts0);
            if tr.input == NO_SYMBOL {
                proof {
                    lemma_join_none(acc);
                }
                break;
            }
            if tr.input == tok.sym && !contains(banned, tr.output) {
                let o = out_sym(t, tr.output, tok.orig);
                let ghost child = spec_step(t.model(), toks@, banned@, fuel as nat, tr.target, pos + 1, out0.push(o), map0, wts0.push(tr.weight));
                self.output.push(o);
                self.weights.push(tr.weight);
                let ghost lb = *self;
                self.step(t, toks, banned, tr.target, pos + 1, fuel);
                let ghost la = *self;
                self.output.pop();
                self.weights.pop();
                proof {
                    lemma_join_assoc(acc, child, next);
                    assert(found_added(lb, la, child));
                    lemma_added_join(l0, lb, *self, acc, child);
                    acc = join(acc, child);
                }
            }
            j = j + 1;
        }
    }

    /// Takes the indexed transition for symbol `tok` out of an index-table
    /// state whose symbol slots begin at `base` (= state index + 1).
    fn find_index(
        &mut self,
        t: &Transducer,
        toks: &Vec<Token>,
        banned: &[u16],
        base: usize,
        tok: Token,
        pos: usize,
        fuel: u64,
    )
        requires
            old(self).flags.wf(t.alphabet.flag_models()),
            pos < toks@.len(),
            base <= 0x8000_0000,
        ensures
            path_kept(t.alphabet, *old(self), *final(self)),
            found_added(
                *old(self),
                *final(self),
                spec_find_index(
                    t.model(),
                    toks@,
                    banned@,
                    fuel as nat,
                    base as int,
                    tok,
                    pos as int,
                    old(self).output@,
                    old(self).flags.map(t.alphabet.flag_models()),
                    old(self).weights@,
                ),
            ),
        decreases fuel, 2int,
    {
        let slot = base + tok.sym as usize;
        if slot < t.index_table.len() {
            let e = t.index_table[slot];
            if e.input == tok.sym && e.target >= TARGET_TABLE_START {
                let start = (e.target - TARGET_TABLE_START) as usize;
                self.transitions(t, toks, banned, start, tok, pos, fuel);
                return ;
            }
        }
        proof {
            lemma_added_none(*self);
        }
    }
}

} // verus!

verus! {

// ---------------------------------------------------------------------------
// Facts about what the traversal finds.
// ---------------------------------------------------------------------------

/// The transducer is unweighted and every transition weighs zero.
pub open spec fn zero_weights(t: TransducerModel) -> bool {
    &&& !t.weighted
    &&& forall|k: int|
        0 <= k < t.transition_table.len() ==> (#[trigger] t.transition_table[k]).weight == 0
}

/// Every transition outputs epsilon, a flag, or a symbol of the alphabet.
pub open spec fn outputs_in_range(t: TransducerModel) -> bool {
    forall|k: int|
        0 <= k < t.transition_table.len() && (#[trigger] t.transition_table[k]).input != NO_SYMBOL
            ==> epsilon_like(t, t.transition_table[k].output) || (t.transition_table[k].output as int)
            < t.symbols.len()
}

pub open spec fn all_zero(wts: Seq<u32>) -> bool {
    forall|i: int| 0 <= i < wts.len() ==> #[trigger] wts[i] == 0
}

/// Every analysis found weighs zero at every step.
pub open spec fn found_zero(f: Found) -> bool {
    forall|k: int| 0 <= k < f.0.len() ==> all_zero((#[trigger] f.0[k]).1)
}

pub open spec fn outs_ok(t: TransducerModel, out: Seq<OutSym>) -> bool {
    forall|i: int| 0 <= i < out.len() ==> #[trigger] sym_in_range(t, out[i])
}

proof fn lemma_join_props(a: Found, b: Found)
    ensures
        found_zero(a) && found_zero(b) ==> found_zero(join(a, b)),
{
    if found_zero(a) && found_zero(b) {
        assert forall|k: int| 0 <= k < join(a, b).0.len() implies all_zero((#[trigger] join(a, b).0[k]).1) by {
            if k < a.0.len() {
                assert(join(a, b).0[k] == a.0[k]);
            } else {
                assert(join(a, b).0[k] == b.0[k - a.0.len()]);
            }
        }
    }
}

proof fn lemma_push_props(t: TransducerModel, out: Seq<OutSym>, o: OutSym, wts: Seq<u32>, w: u32)
    ensures
        outs_ok(t, out) && sym_in_range(t, o) ==> outs_ok(t, out.push(o)),
        all_zero(wts) && w == 0 ==> all_zero(wts.push(w)),
{
    if outs_ok(t, out) && sym_in_range(t, o) {
        assert forall|i: int| 0 <= i < out.push(o).len() implies #[trigger] sym_in_range(t, out.push(o)[i]) by {
            if i < out.len() {
                assert(out.push(o)[i] == out[i]);
            }
        }
    }
    if all_zero(wts) && w == 0 {
        assert forall|i: int| 0 <= i < wts.push(w).len() implies #[trigger] wts.push(w)[i] == 0 by {
            if i < wts.len() {
                assert(wts.push(w)[i] == wts[i]);
            }
        }
    }
}

proof fn lemma_emitted_props(t: TransducerModel, out: Seq<OutSym>, wts: Seq<u32>)
    ensures
        all_zero(wts) ==> found_zero(emitted(t, out, wts)),
        outs_ok(t, out) ==> emitted(t, out, wts).2,
{
}

/// What a state finds weighs nothing when no transition weighs anything,
/// and names known symbols when every transition outputs one.
pub(crate) proof fn lemma_step_props(
    t: TransducerModel,
    toks: Seq<Token>,
    banned: Seq<u16>,
    fuel: nat,
    node: u32,
    pos: int,
    out: Seq<OutSym>,
    flags: FlagMap,
    wts: Seq<u32>,
)
    ensures
        zero_weights(t) && all_zero(wts) ==> found_zero(
            spec_step(t, toks, banned, fuel, node, pos, out, flags, wts),
        ),
        outputs_in_range(t) && outs_ok(t, out) ==> spec_step(
            t,
            toks,
            banned,
            fuel,
            node,
            pos,
            out,
            flags,
            wts,
        ).2,
    decreases fuel, 0int, 0int,
{
    if fuel > 0 {
        let here: Found = (Seq::empty(), if spec_is_final(t, node) { pos as nat } else { 0 }, true);
        if node >= TARGET_TABLE_START {
            let k = node - TARGET_TABLE_START;
            lemma_eps_props(t, toks, banned, (fuel - 1) as nat, k + 1, pos, out, flags, wts);
            let e = spec_eps(t, toks, banned, (fuel - 1) as nat, k + 1, pos, out, flags, wts);
            let rest = if pos == toks.len() {
                if k < t.transition_table.len() && t.transition_table[k].input == NO_SYMBOL
                    && t.transition_table[k].output == NO_SYMBOL
                    && t.transition_table[k].target == 1 {
                    lemma_push_props(t, out, OutSym { sym: 0, orig: None }, wts, t.transition_table[k].weight);
                    lemma_emitted_props(t, out, wts.push(t.transition_table[k].weight));
                    emitted(t, out, wts.push(t.transition_table[k].weight))
                } else {
                    none_found()
                }
            } else {
                lemma_trans_props(t, toks, banned, (fuel - 1) as nat, k + 1, toks[pos], pos, out, flags, wts);
                spec_trans(t, toks, banned, (fuel - 1) as nat, k + 1, toks[pos], pos, out, flags, wts)
            };
            lemma_join_props(e, rest);
            lemma_join_props(here, join(e, rest));
        } else {
            let i = node as int;
            let e = if i + 1 < t.index_table.len() && t.index_table[i + 1].input == EPSILON
                && t.index_table[i + 1].target >= TARGET_TABLE_START {
                lemma_eps_props(t, toks, banned, (fuel - 1) as nat, t.index_table[i + 1].target - TARGET_TABLE_START, pos, out, flags, wts);
                spec_eps(t, toks, banned, (fuel - 1) as nat, t.index_table[i + 1].target - TARGET_TABLE_START, pos, out, flags, wts)
            } else {
                none_found()
            };
            let rest = if pos == toks.len() {
                if i < t.index_table.len() && t.index_table[i].input == NO_SYMBOL
                    && t.index_table[i].target != NO_TARGET {
                    let w: u32 = if t.weighted { t.index_table[i].target } else { 0 };
                    lemma_push_props(t, out, OutSym { sym: 0, orig: None }, wts, w);
                    lemma_emitted_props(t, out, wts.push(w));
                    emitted(t, out, wts.push(w))
                } else {
                    none_found()
                }
            } else {
                lemma_find_index_props(t, toks, banned, (fuel - 1) as nat, i + 1, toks[pos], pos, out, flags, wts);
                spec_find_index(t, toks, banned, (fuel - 1) as nat, i + 1, toks[pos], pos, out, flags, wts)
            };
            lemma_join_props(e, rest);
            lemma_join_props(here, join(e, rest));
        }
    }
}

pub(crate) proof fn lemma_eps_props(
    t: TransducerModel,
    toks: Seq<Token>,
    banned: Seq<u16>,
    fuel: nat,
    j: int,
    pos: int,
    out: Seq<OutSym>,
    flags: FlagMap,
    wts: Seq<u32>,
)
    ensures
        zero_weights(t) && all_zero(wts) ==> found_zero(
            spec_eps(t, toks, banned, fuel, j, pos, out, flags, wts),
        ),
        outputs_in_range(t) && outs_ok(t, out) ==> spec_eps(
            t,
            toks,
            banned,
            fuel,
            j,
            pos,
            out,
            flags,
            wts,
        ).2,
    decreases fuel, 1int, t.transition_table.len() - j,
{
    if 0 <= j < t.transition_table.len() {
        let tr = t.transition_table[j];
        if tr.input != NO_SYMBOL {
            if tr.input == EPSILON {
                lemma_eps_props(t, toks, banned, fuel, j + 1, pos, out, flags, wts);
                if !banned.contains(tr.output) {
                    let o = spec_out_sym(t, tr.output, None);
                    lemma_push_props(t, out, o, wts, tr.weight);
                    lemma_step_props(t, toks, banned, fuel, tr.target, pos, out.push(o), flags, wts.push(tr.weight));
                    lemma_join_props(
                        spec_step(t, toks, banned, fuel, tr.target, pos, out.push(o), flags, wts.push(tr.weight)),
                        spec_eps(t, toks, banned, fuel, j + 1, pos, out, flags, wts),
                    );
                }
            } else if flag_of(t, tr.input) is Some {
                lemma_eps_props(t, toks, banned, fuel, j + 1, pos, out, flags, wts);
                if let Some((m, _)) = spec_apply(flags, flag_of(t, tr.input).unwrap()) {
                    lemma_push_props(t, out, OutSym { sym: 0, orig: None }, wts, tr.weight);
                    lemma_step_props(t, toks, banned, fuel, tr.target, pos, out, m, wts.push(tr.weight));
                    lemma_join_props(
                        spec_step(t, toks, banned, fuel, tr.target, pos, out, m, wts.push(tr.weight)),
                        spec_eps(t, toks, banned, fuel, j + 1, pos, out, flags, wts),
                    );
                }
            }
        }
    }
}

pub(crate) proof fn lemma_trans_props(
    t: TransducerModel,
    toks: Seq<Token>,
    banned: Seq<u16>,
    fuel: nat,
    j: int,
    tok: Token,
    pos: int,
    out: Seq<OutSym>,
    flags: FlagMap,
    wts: Seq<u32>,
)
    ensures
        zero_weights(t) && all_zero(wts) ==> found_zero(
            spec_trans(t, toks, banned, fuel, j, tok, pos, out, flags, wts),
        ),
        outputs_in_range(t) && outs_ok(t, out) ==> spec_trans(
            t,
            toks,
            banned,
            fuel,
            j,
            tok,
            pos,
            out,
            flags,
            wts,
        ).2,
    decreases fuel, 1int, t.transition_table.len() - j,
{
    if 0 <= j < t.transition_table.len() {
        let tr = t.transition_table[j];
        if tr.input != NO_SYMBOL {
            lemma_trans_props(t, toks, banned, fuel, j + 1, tok, pos, out, flags, wts);
            if tr.input == tok.sym && !banned.contains(tr.output) {
                let o = spec_out_sym(t, tr.output, tok.orig);
                lemma_push_props(t, out, o, wts, tr.weight);
                lemma_step_props(t, toks, banned, fuel, tr.target, pos + 1, out.push(o), flags, wts.push(tr.weight));
                lemma_join_props(
                    spec_step(t, toks, banned, fuel, tr.target, pos + 1, out.push(o), flags, wts.push(tr.weight)),
                    spec_trans(t, toks, banned, fuel, j + 1, tok, pos, out, flags, wts),
                );
            }
        }
    }
}

pub(crate) proof fn lemma_find_index_props(
    t: TransducerModel,
    toks: Seq<Token>,
    banned: Seq<u16>,
    fuel: nat,
    base: int,
    tok: Token,
    pos: int,
    out: Seq<OutSym>,
    flags: FlagMap,
    wts: Seq<u32>,
)
    ensures
        zero_weights(t) && all_zero(wts) ==> found_zero(
            spec_find_index(t, toks, banned, fuel, base, tok, pos, out, flags, wts),
        ),
        outputs_in_range(t) && outs_ok(t, out) ==> spec_find_index(
            t,
            toks,
            banned,
            fuel,
            base,
            tok,
            pos,
            out,
            flags,
            wts,
        ).2,
    decreases fuel, 2int, 0int,
{
    let slot = base + tok.sym;
    if 0 <= slot < t.index_table.len() && t.index_table[slot].input == tok.sym
        && t.index_table[slot].target >= TARGET_TABLE_START {
        lemma_trans_props(t, toks, banned, fuel, t.index_table[slot].target - TARGET_TABLE_START, tok, pos, out, flags, wts);
    }
}

} // verus!

verus! {

// ---------------------------------------------------------------------------
// Banning outputs only prunes.
// ---------------------------------------------------------------------------

/// `f` places the elements of `a` in `b`, in order.
pub open spec fn embeds<A>(f: spec_fn(int) -> int, a: Seq<A>, b: Seq<A>) -> bool {
    &&& forall|i: int| 0 <= i < a.len() ==> 0 <= #[trigger] f(i) < b.len() && b[f(i)] == a[i]
    &&& forall|i: int, j: int| 0 <= i < j < a.len() ==> #[trigger] f(i) < #[trigger] f(j)
}

/// `a` is `b` with some elements left out and the rest kept in order.
pub open spec fn is_subseq<A>(a: Seq<A>, b: Seq<A>) -> bool {
    exists|f: spec_fn(int) -> int| embeds(f, a, b)
}

/// What was found with outputs banned is part of what was found without.
pub open spec fn pruned(fb: Found, fu: Found) -> bool {
    is_subseq(fb.0, fu.0) && fb.1 <= fu.1
}

proof fn lemma_subseq_refl<A>(a: Seq<A>)
    ensures
        is_subseq(a, a),
{
    let f = |i: int| i;
    assert(embeds(f, a, a));
}

proof fn lemma_subseq_concat<A>(a1: Seq<A>, b1: Seq<A>, a2: Seq<A>, b2: Seq<A>)
    requires
        is_subseq(a1, b1),
        is_subseq(a2, b2),
    ensures
        is_subseq(a1 + a2, b1 + b2),
{
    let f1 = choose|f: spec_fn(int) -> int| embeds(f, a1, b1);
    let f2 = choose|f: spec_fn(int) -> int| embeds(f, a2, b2);
    let n1 = a1.len() as int;
    let m1 = b1.len() as int;
    let f = |i: int| if i < n1 { f1(i) } else { m1 + f2(i - n1) };
    let a = a1 + a2;
    let b = b1 + b2;
    assert forall|i: int| 0 <= i < a.len() implies 0 <= #[trigger] f(i) < b.len() && b[f(i)] == a[i] by {
        if i < n1 {
            assert(0 <= f1(i) < m1);
        } else {
            assert(0 <= f2(i - n1) < b2.len());
        }
    }
    assert forall|i: int, j: int| 0 <= i < j < a.len() implies #[trigger] f(i) < #[trigger] f(j) by {
        if j < n1 {
            assert(f1(i) < f1(j));
        } else if i < n1 {
            assert(f1(i) < m1);
        } else {
            assert(f2(i - n1) < f2(j - n1));
        }
    }
    assert(embeds(f, a, b));
}

proof fn lemma_subseq_empty<A>(b: Seq<A>)
    ensures
        is_subseq(Seq::<A>::empty(), b),
{
    let f = |i: int| i;
    assert(embeds(f, Seq::<A>::empty(), b));
}

proof fn lemma_pruned_refl(a: Found)
    ensures
        pruned(a, a),
{
    lemma_subseq_refl(a.0);
}

proof fn lemma_pruned_join(a: Found, b: Found, c: Found, d: Found)
    requires
        pruned(a, b),
        pruned(c, d),
    ensures
        pruned(join(a, c), join(b, d)),
{
    lemma_subseq_concat(a.0, b.0, c.0, d.0);
}

/// Leaving out a first part keeps a pruning.
proof fn lemma_pruned_skip(a: Found, c: Found, b: Found)
    requires
        pruned(a, b),
    ensures
        pruned(a, join(c, b)),
{
    lemma_subseq_empty(c.0);
    lemma_subseq_concat(Seq::<AnalysisModel>::empty(), c.0, a.0, b.0);
    assert(Seq::<AnalysisModel>::empty() + a.0 =~= a.0);
}

/// `fewer` bans no symbol that `banned` does not.
pub open spec fn bans_within(fewer: Seq<u16>, banned: Seq<u16>) -> bool {
    forall|x: u16| #[trigger] fewer.contains(x) ==> banned.contains(x)
}

/// What a state finds with outputs banned is part of what it finds with
/// fewer outputs banned.
pub(crate) proof fn lemma_step_pruned(
    t: TransducerModel,
    toks: Seq<Token>,
    banned: Seq<u16>,
    fewer: Seq<u16>,
    fuel: nat,
    node: u32,
    pos: int,
    out: Seq<OutSym>,
    flags: FlagMap,
    wts: Seq<u32>,
)
    requires
        bans_within(fewer, banned),
    ensures
        pruned(
            spec_step(t, toks, banned, fuel, node, pos, out, flags, wts),
            spec_step(t, toks, fewer, fuel, node, pos, out, flags, wts),
        ),
    decreases fuel, 0int, 0int,
{
    let e0 = fewer;
    if fuel == 0 {
        lemma_pruned_refl(none_found());
    } else {
        let here: Found = (Seq::empty(), if spec_is_final(t, node) { pos as nat } else { 0 }, true);
        lemma_pruned_refl(here);
        if node >= TARGET_TABLE_START {
            let k = node - TARGET_TABLE_START;
            lemma_eps_pruned(t, toks, banned, fewer, (fuel - 1) as nat, k + 1, pos, out, flags, wts);
            let eb = spec_eps(t, toks, banned, (fuel - 1) as nat, k + 1, pos, out, flags, wts);
            let eu = spec_eps(t, toks, e0, (fuel - 1) as nat, k + 1, pos, out, flags, wts);
            if pos == toks.len() {
                let r = if k < t.transition_table.len() && t.transition_table[k].input == NO_SYMBOL
                    && t.transition_table[k].output == NO_SYMBOL
                    && t.transition_table[k].target == 1 {
                    emitted(t, out, wts.push(t.transition_table[k].weight))
                } else {
                    none_found()
                };
                lemma_pruned_refl(r);
                lemma_pruned_join(eb, eu, r, r);
                lemma_pruned_join(here, here, join(eb, r), join(eu, r));
            } else {
                lemma_trans_pruned(t, toks, banned, fewer, (fuel - 1) as nat, k + 1, toks[pos], pos, out, flags, wts);
                let rb = spec_trans(t, toks, banned, (fuel - 1) as nat, k + 1, toks[pos], pos, out, flags, wts);
                let ru = spec_trans(t, toks, e0, (fuel - 1) as nat, k + 1, toks[pos], pos, out, flags, wts);
                lemma_pruned_join(eb, eu, rb, ru);
                lemma_pruned_join(here, here, join(eb, rb), join(eu, ru));
            }
        } else {
            let i = node as int;
            let has_eps = i + 1 < t.index_table.len() && t.index_table[i + 1].input == EPSILON
                && t.index_table[i + 1].target >= TARGET_TABLE_START;
            let (eb, eu) = if has_eps {
                let j = t.index_table[i + 1].target - TARGET_TABLE_START;
                lemma_eps_pruned(t, toks, banned, fewer, (fuel - 1) as nat, j, pos, out, flags, wts);
                (
                    spec_eps(t, toks, banned, (fuel - 1) as nat, j, pos, out, flags, wts),
                    spec_eps(t, toks, e0, (fuel - 1) as nat, j, pos, out, flags, wts),
                )
            } else {
                lemma_pruned_refl(none_found());
                (none_found(), none_found())
            };
            if pos == toks.len() {
                let r = if i < t.index_table.len() && t.index_table[i].input == NO_SYMBOL
                    && t.index_table[i].target != NO_TARGET {
                    emitted(
                        t,
                        out,
                        wts.push(
                            if t.weighted {
                                t.index_table[i].target
                            } else {
                                0
                            },
                        ),
                    )
                } else {
                    none_found()
                };
                lemma_pruned_refl(r);
                lemma_pruned_join(eb, eu, r, r);
                lemma_pruned_join(here, here, join(eb, r), join(eu, r));
            } else {
                lemma_find_index_pruned(t, toks, banned, fewer, (fuel - 1) as nat, i + 1, toks[pos], pos, out, flags, wts);
                let rb = spec_find_index(t, toks, banned, (fuel - 1) as nat, i + 1, toks[pos], pos, out, flags, wts);
                let ru = spec_find_index(t, toks, e0, (fuel - 1) as nat, i + 1, toks[pos], pos, out, flags, wts);
                lemma_pruned_join(eb, eu, rb, ru);
                lemma_pruned_join(here, here, join(eb, rb), join(eu, ru));
            }
        }
    }
}

pub(crate) proof fn lemma_eps_pruned(
    t: TransducerModel,
    toks: Seq<Token>,
    banned: Seq<u16>,
    fewer: Seq<u16>,
    fuel: nat,
    j: int,
    pos: int,
    out: Seq<OutSym>,
    flags: FlagMap,
    wts: Seq<u32>,
)
    requires
        bans_within(fewer, banned),
    ensures
        pruned(
            spec_eps(t, toks, banned, fuel, j, pos, out, flags, wts),
            spec_eps(t, toks, fewer, fuel, j, pos, out, flags, wts),
        ),
    decreases fuel, 1int, t.transition_table.len() - j,
{
    let e0 = fewer;
    if j < 0 || j >= t.transition_table.len() {
        lemma_pruned_refl(none_found());
    } else {
        let tr = t.transition_table[j];
        if tr.input == NO_SYMBOL {
            lemma_pruned_refl(none_found());
        } else if tr.input == EPSILON {
            lemma_eps_pruned(t, toks, banned, fewer, fuel, j + 1, pos, out, flags, wts);
            let o = spec_out_sym(t, tr.output, None);
            let nb = spec_eps(t, toks, banned, fuel, j + 1, pos, out, flags, wts);
            let nu = spec_eps(t, toks, e0, fuel, j + 1, pos, out, flags, wts);
            let su = spec_step(t, toks, e0, fuel, tr.target, pos, out.push(o), flags, wts.push(tr.weight));
            if banned.contains(tr.output) && fewer.contains(tr.output) {
            } else if banned.contains(tr.output) {
                lemma_pruned_skip(nb, su, nu);
            } else {
                lemma_step_pruned(t, toks, banned, fewer, fuel, tr.target, pos, out.push(o), flags, wts.push(tr.weight));
                let sb = spec_step(t, toks, banned, fuel, tr.target, pos, out.push(o), flags, wts.push(tr.weight));
                lemma_pruned_join(sb, su, nb, nu);
            }
        } else if flag_of(t, tr.input) is Some {
            lemma_eps_pruned(t, toks, banned, fewer, fuel, j + 1, pos, out, flags, wts);
            let nb = spec_eps(t, toks, banned, fuel, j + 1, pos, out, flags, wts);
            let nu = spec_eps(t, toks, e0, fuel, j + 1, pos, out, flags, wts);
            if let Some((m, _)) = spec_apply(flags, flag_of(t, tr.input).unwrap()) {
                lemma_step_pruned(t, toks, banned, fewer, fuel, tr.target, pos, out, m, wts.push(tr.weight));
                let sb = spec_step(t, toks, banned, fuel, tr.target, pos, out, m, wts.push(tr.weight));
                let su = spec_step(t, toks, e0, fuel, tr.target, pos, out, m, wts.push(tr.weight));
                lemma_pruned_join(sb, su, nb, nu);
            }
        } else {
            lemma_pruned_refl(none_found());
        }
    }
}

pub(crate) proof fn lemma_trans_pruned(
    t: TransducerModel,
    toks: Seq<Token>,
    banned: Seq<u16>,
    fewer: Seq<u16>,
    fuel: nat,
    j: int,
    tok: Token,
    pos: int,
    out: Seq<OutSym>,
    flags: FlagMap,
    wts: Seq<u32>,
)
    requires
        bans_within(fewer, banned),
    ensures
        pruned(
            spec_trans(t, toks, banned, fuel, j, tok, pos, out, flags, wts),
            spec_trans(t, toks, fewer, fuel, j, tok, pos, out, flags, wts),
        ),
    decreases fuel, 1int, t.transition_table.len() - j,
{
    let e0 = fewer;
    if j < 0 || j >= t.transition_table.len() {
        lemma_pruned_refl(none_found());
    } else {
        let tr = t.transition_table[j];
        if tr.input == NO_SYMBOL {
            lemma_pruned_refl(none_found());
        } else {
            lemma_trans_pruned(t, toks, banned, fewer, fuel, j + 1, tok, pos, out, flags, wts);
            let nb = spec_trans(t, toks, banned, fuel, j + 1, tok, pos, out, flags, wts);
            let nu = spec_trans(t, toks, e0, fuel, j + 1, tok, pos, out, flags, wts);
            if tr.input == tok.sym {
                let o = spec_out_sym(t, tr.output, tok.orig);
                let su = spec_step(t, toks, e0, fuel, tr.target, pos + 1, out.push(o), flags, wts.push(tr.weight));
                if banned.contains(tr.output) && fewer.contains(tr.output) {
                } else if banned.contains(tr.output) {
                    lemma_pruned_skip(nb, su, nu);
                } else {
                    lemma_step_pruned(t, toks, banned, fewer, fuel, tr.target, pos + 1, out.push(o), flags, wts.push(tr.weight));
                    let sb = spec_step(t, toks, banned, fuel, tr.target, pos + 1, out.push(o), flags, wts.push(tr.weight));
                    lemma_pruned_join(sb, su, nb, nu);
                }
            }
        }
    }
}

pub(crate) proof fn lemma_find_index_pruned(
    t: TransducerModel,
    toks: Seq<Token>,
    banned: Seq<u16>,
    fewer: Seq<u16>,
    fuel: nat,
    base: int,
    tok: Token,
    pos: int,
    out: Seq<OutSym>,
    flags: FlagMap,
    wts: Seq<u32>,
)
    requires
        bans_within(fewer, banned),
    ensures
        pruned(
            spec_find_index(t, toks, banned, fuel, base, tok, pos, out, flags, wts),
            spec_find_index(t, toks, fewer, fuel, base, tok, pos, out, flags, wts),
        ),
    decreases fuel, 2int, 0int,
{
    let slot = base + tok.sym;
    if 0 <= slot < t.index_table.len() && t.index_table[slot].input == tok.sym
        && t.index_table[slot].target >= TARGET_TABLE_START {
        lemma_trans_pruned(t, toks, banned, fewer, fuel, t.index_table[slot].target - TARGET_TABLE_START, tok, pos, out, flags, wts);
    } else {
        lemma_pruned_refl(none_found());
    }
}

} // verus!
