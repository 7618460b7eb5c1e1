//! The flag-diacritic feature state along one path of the traversal.
//!
//! Each set feature maps to a value and a sign (`@N...@` records a
//! *negative* setting). The traversal keeps one state and edits it in place
//! as it descends, undoing each edit on the way back out, so a flag
//! transition allocates nothing: a binding only names the flag symbol whose
//! feature and value it holds.

use vstd::prelude::*;

use crate::alphabet::{flag_model, Alphabet, FlagModel, FlagOp};

verus! {

/// The feature state as a map: feature -> (value, positive).
pub type FlagMap = Map<Seq<char>, (Seq<char>, bool)>;

/// How to reverse an applied operation: `None` when nothing changed, else
/// the feature and its previous binding (`None` when it had none).
pub type UndoModel = Option<(Seq<char>, Option<(Seq<char>, bool)>)>;

/// The binding of `f` in `m`, if any.
pub open spec fn prior(m: FlagMap, f: Seq<char>) -> Option<(Seq<char>, bool)> {
    if m.contains_key(f) {
        Some(m[f])
    } else {
        None
    }
}

/// Applies a flag operation to the feature state: the new state and the undo
/// record if the operation is permitted, or `None` if it blocks the path.
pub open spec fn spec_apply(m: FlagMap, op: FlagModel) -> Option<(FlagMap, UndoModel)> {
    let (kind, f, val) = op;
    match kind {
        FlagOp::P | FlagOp::N => match val {
            None => Some((m, None)),
            Some(v) => Some((m.insert(f, (v, kind == FlagOp::P)), Some((f, prior(m, f))))),
        },
        FlagOp::C => Some((m.remove(f), Some((f, prior(m, f))))),
        FlagOp::R => match (prior(m, f), val) {
            (Some((cv, true)), Some(v)) => if cv == v {
                Some((m, None))
            } else {
                None
            },
            (Some(_), None) => Some((m, None)),
            _ => None,
        },
        FlagOp::D => match (prior(m, f), val) {
            (None, _) => Some((m, None)),
            (Some((cv, true)), Some(v)) => if cv == v {
                None
            } else {
                Some((m, None))
            },
            (Some(_), Some(_)) => Some((m, None)),
            (Some(_), None) => None,
        },
        FlagOp::U => match val {
            None => None,
            Some(v) => match prior(m, f) {
                Some((cv, true)) => if cv == v {
                    Some((m, None))
                } else {
                    None
                },
                Some((cv, false)) => if cv != v {
                    Some((m.insert(f, (v, true)), Some((f, prior(m, f)))))
                } else {
                    None
                },
                None => Some((m.insert(f, (v, true)), Some((f, prior(m, f))))),
            },
        },
    }
}

/// Reverses an edit recorded by `spec_apply`.
pub open spec fn spec_undo(m: FlagMap, u: UndoModel) -> FlagMap {
    match u {
        None => m,
        Some((f, Some(b))) => m.insert(f, b),
        Some((f, None)) => m.remove(f),
    }
}

/// Undoing a permitted flag operation restores the feature state it was
/// applied to: for every state and every operation, if applying the
/// operation succeeds, undoing it with its undo record gives the state back.
pub proof fn undo_reverses_apply(m: FlagMap, op: FlagModel)
    requires
        spec_apply(m, op) is Some,
    ensures
        spec_undo(spec_apply(m, op).unwrap().0, spec_apply(m, op).unwrap().1) == m,
{
    let (m2, u) = spec_apply(m, op).unwrap();
    match u {
        None => {},
        Some((f, Some(b))) => {
            assert(m2.insert(f, b) =~= m);
        },
        Some((f, None)) => {
            assert(m2.remove(f) =~= m);
        },
    }
}

/// A feature binding: the flag symbol whose feature and value it holds, and
/// its sign.
#[derive(Clone, Copy)]
pub(crate) struct Binding {
    pub(crate) src: u16,
    pub(crate) positive: bool,
}

/// How to reverse one applied flag operation when the path backtracks.
pub(crate) enum FlagUndo {
    /// A gating operation, or a valueless set: nothing changed.
    Nothing,
    /// The feature of the given flag symbol was set or cleared; restore its
    /// previous binding, or remove it again if it had none.
    Restore(u16, Option<Binding>),
}

/// The feature state on the current path.
pub(crate) struct FlagState {
    pub(crate) entries: Vec<Binding>,
}

/// The feature that symbol `s` names.
pub(crate) open spec fn feature_at(fm: Seq<Option<FlagModel>>, s: u16) -> Seq<char> {
    fm[s as int].unwrap().1
}

/// Symbol `s` is a flag diacritic.
pub(crate) open spec fn is_flag_sym(fm: Seq<Option<FlagModel>>, s: u16) -> bool {
    (s as int) < fm.len() && fm[s as int] is Some
}

/// Symbol `s` is a flag diacritic with a value.
pub(crate) open spec fn is_valued_flag_sym(fm: Seq<Option<FlagModel>>, s: u16) -> bool {
    is_flag_sym(fm, s) && fm[s as int].unwrap().2 is Some
}

/// What a binding maps its feature to.
pub(crate) open spec fn binding_value(fm: Seq<Option<FlagModel>>, b: Binding) -> (Seq<char>, bool) {
    (fm[b.src as int].unwrap().2.unwrap(), b.positive)
}

/// The map that a list of bindings stands for.
pub(crate) open spec fn entries_map(fm: Seq<Option<FlagModel>>, es: Seq<Binding>) -> FlagMap
    decreases es.len(),
{
    if es.len() == 0 {
        Map::empty()
    } else {
        entries_map(fm, es.drop_last()).insert(
            feature_at(fm, es.last().src),
            binding_value(fm, es.last()),
        )
    }
}

/// Every binding names a flag with a value, and no feature is bound twice.
pub(crate) open spec fn entries_wf(fm: Seq<Option<FlagModel>>, es: Seq<Binding>) -> bool {
    &&& forall|i: int| 0 <= i < es.len() ==> #[trigger] is_valued_flag_sym(fm, es[i].src)
    &&& forall|i: int, j: int|
        0 <= i < es.len() && 0 <= j < es.len() && i != j ==> feature_at(fm, #[trigger] es[i].src)
            != feature_at(fm, #[trigger] es[j].src)
}

/// The model of an undo token.
pub(crate) open spec fn undo_model(fm: Seq<Option<FlagModel>>, u: FlagUndo) -> UndoModel {
    match u {
        FlagUndo::Nothing => None,
        FlagUndo::Restore(s, Some(b)) => Some((feature_at(fm, s), Some(binding_value(fm, b)))),
        FlagUndo::Restore(s, None) => Some((feature_at(fm, s), None)),
    }
}

/// The token names flag symbols, the previous binding a valued one.
pub(crate) open spec fn undo_wf(fm: Seq<Option<FlagModel>>, u: FlagUndo) -> bool {
    match u {
        FlagUndo::Nothing => true,
        FlagUndo::Restore(s, Some(b)) => is_flag_sym(fm, s) && is_valued_flag_sym(fm, b.src)
            && feature_at(fm, b.src) == feature_at(fm, s),
        FlagUndo::Restore(s, None) => is_flag_sym(fm, s),
    }
}

/// Each binding's feature maps to its value, and features that no binding
/// holds are unbound.
proof fn lemma_entries_lookup(fm: Seq<Option<FlagModel>>, es: Seq<Binding>, k: Seq<char>)
    requires
        entries_wf(fm, es),
    ensures
        (exists|i: int| 0 <= i < es.len() && feature_at(fm, es[i].src) == k) <==> entries_map(
            fm,
            es,
        ).contains_key(k),
        forall|i: int|
            0 <= i < es.len() && feature_at(fm, #[trigger] es[i].src) == k ==> entries_map(
                fm,
                es,
            )[k] == binding_value(fm, es[i]),
    decreases es.len(),
{
    if es.len() > 0 {
        let init = es.drop_last();
        assert(entries_wf(fm, init)) by {
            assert forall|i: int, j: int|
                0 <= i < init.len() && 0 <= j < init.len() && i != j implies feature_at(
                fm,
                #[trigger] init[i].src,
            ) != feature_at(fm, #[trigger] init[j].src) by {
                assert(init[i] == es[i] && init[j] == es[j]);
            }
            assert forall|i: int| 0 <= i < init.len() implies #[trigger] is_valued_flag_sym(
                fm,
                init[i].src,
            ) by {
                assert(init[i] == es[i]);
            }
        }
        lemma_entries_lookup(fm, init, k);
        let last = es.len() - 1;
        if exists|i: int| 0 <= i < es.len() && feature_at(fm, es[i].src) == k {
            let i = choose|i: int| 0 <= i < es.len() && feature_at(fm, es[i].src) == k;
            if i < last {
                assert(init[i] == es[i]);
            }
        }
        if exists|i: int| 0 <= i < init.len() && feature_at(fm, init[i].src) == k {
            let i = choose|i: int| 0 <= i < init.len() && feature_at(fm, init[i].src) == k;
            assert(init[i] == es[i]);
        }
        assert forall|i: int|
            0 <= i < es.len() && feature_at(fm, #[trigger] es[i].src) == k implies entries_map(
            fm,
            es,
        )[k] == binding_value(fm, es[i]) by {
            if i < last {
                assert(init[i] == es[i]);
                assert(feature_at(fm, es[i].src) != feature_at(fm, es[last].src));
            }
        }
    }
}

/// Replacing a binding by one of the same feature rebinds that feature.
proof fn lemma_entries_update(fm: Seq<Option<FlagModel>>, es: Seq<Binding>, i: int, b: Binding)
    requires
        entries_wf(fm, es),
        0 <= i < es.len(),
        is_valued_flag_sym(fm, b.src),
        feature_at(fm, b.src) == feature_at(fm, es[i].src),
    ensures
        entries_wf(fm, es.update(i, b)),
        entries_map(fm, es.update(i, b)) == entries_map(fm, es).insert(
            feature_at(fm, b.src),
            binding_value(fm, b),
        ),
    decreases es.len(),
{
    let es2 = es.update(i, b);
    assert(entries_wf(fm, es2)) by {
        assert forall|p: int, q: int|
            0 <= p < es2.len() && 0 <= q < es2.len() && p != q implies feature_at(
            fm,
            #[trigger] es2[p].src,
        ) != feature_at(fm, #[trigger] es2[q].src) by {
            assert(feature_at(fm, es2[p].src) == feature_at(fm, es[p].src));
            assert(feature_at(fm, es2[q].src) == feature_at(fm, es[q].src));
        }
    }
    let init = es.drop_last();
    let last = es.len() - 1;
    assert(entries_wf(fm, init)) by {
        assert forall|p: int, q: int|
            0 <= p < init.len() && 0 <= q < init.len() && p != q implies feature_at(
            fm,
            #[trigger] init[p].src,
        ) != feature_at(fm, #[trigger] init[q].src) by {
            assert(init[p] == es[p] && init[q] == es[q]);
        }
        assert forall|p: int| 0 <= p < init.len() implies #[trigger] is_valued_flag_sym(
            fm,
            init[p].src,
        ) by {
            assert(init[p] == es[p]);
        }
    }
    if i == last {
        assert(es2.drop_last() =~= init);
        lemma_entries_lookup(fm, init, feature_at(fm, b.src));
        assert forall|p: int| 0 <= p < init.len() implies feature_at(fm, init[p].src)
            != feature_at(fm, b.src) by {
            assert(init[p] == es[p]);
        }
        assert(entries_map(fm, es2) =~= entries_map(fm, es).insert(
            feature_at(fm, b.src),
            binding_value(fm, b),
        ));
    } else {
        lemma_entries_update(fm, init, i, b);
        assert(es2.drop_last() =~= init.update(i, b));
        assert(feature_at(fm, es[i].src) != feature_at(fm, es[last].src));
        assert(entries_map(fm, es2) =~= entries_map(fm, es).insert(
            feature_at(fm, b.src),
            binding_value(fm, b),
        ));
    }
}

/// Removing a binding unbinds its feature.
proof fn lemma_entries_remove(fm: Seq<Option<FlagModel>>, es: Seq<Binding>, i: int)
    requires
        entries_wf(fm, es),
        0 <= i < es.len(),
    ensures
        entries_wf(fm, es.remove(i)),
        entries_map(fm, es.remove(i)) == entries_map(fm, es).remove(feature_at(fm, es[i].src)),
    decreases es.len(),
{
    let es2 = es.remove(i);
    assert(entries_wf(fm, es2)) by {
        assert forall|p: int, q: int|
            0 <= p < es2.len() && 0 <= q < es2.len() && p != q implies feature_at(
            fm,
            #[trigger] es2[p].src,
        ) != feature_at(fm, #[trigger] es2[q].src) by {
            let pp = if p < i { p } else { p + 1 };
            let qq = if q < i { q } else { q + 1 };
            assert(es2[p] == es[pp] && es2[q] == es[qq]);
        }
        assert forall|p: int| 0 <= p < es2.len() implies #[trigger] is_valued_flag_sym(
            fm,
            es2[p].src,
        ) by {
            let pp = if p < i { p } else { p + 1 };
            assert(es2[p] == es[pp]);
        }
    }
    let init = es.drop_last();
    let last = es.len() - 1;
    let k = feature_at(fm, es[i].src);
    assert(entries_wf(fm, init)) by {
        assert forall|p: int, q: int|
            0 <= p < init.len() && 0 <= q < init.len() && p != q implies feature_at(
            fm,
            #[trigger] init[p].src,
        ) != feature_at(fm, #[trigger] init[q].src) by {
            assert(init[p] == es[p] && init[q] == es[q]);
        }
        assert forall|p: int| 0 <= p < init.len() implies #[trigger] is_valued_flag_sym(
            fm,
            init[p].src,
        ) by {
            assert(init[p] == es[p]);
        }
    }
    if i == last {
        assert(es2 =~= init);
        lemma_entries_lookup(fm, init, k);
        assert forall|p: int| 0 <= p < init.len() implies feature_at(fm, init[p].src) != k by {
            assert(init[p] == es[p]);
        }
        assert(entries_map(fm, es2) =~= entries_map(fm, es).remove(k));
    } else {
        lemma_entries_remove(fm, init, i);
        assert(es2.drop_last() =~= init.remove(i));
        assert(es2.last() == es.last());
        assert(feature_at(fm, es[i].src) != feature_at(fm, es[last].src));
        assert(init[i] == es[i]);
        assert(entries_map(fm, es2) =~= entries_map(fm, es).remove(k));
    }
}

/// The feature named by flag symbol `s`.
fn feature_of(a: &Alphabet, s: u16) -> (f: &String)
    requires
        is_flag_sym(a.flag_models(), s),
    ensures
        f@ == feature_at(a.flag_models(), s),
{
    proof {
        assert(flag_model(a.flags@[s as int]) == a.flag_models()[s as int]);
    }
    match &a.flags[s as usize] {
        Some(op) => &op.feature,
        None => vstd::pervasive::unreached(),
    }
}

/// The value carried by flag symbol `s`.
fn value_of(a: &Alphabet, s: u16) -> (v: &String)
    requires
        is_valued_flag_sym(a.flag_models(), s),
    ensures
        v@ == a.flag_models()[s as int].unwrap().2.unwrap(),
{
    proof {
        assert(flag_model(a.flags@[s as int]) == a.flag_models()[s as int]);
    }
    match &a.flags[s as usize] {
        Some(op) => match &op.value {
            Some(v) => v,
            None => vstd::pervasive::unreached(),
        },
        None => vstd::pervasive::unreached(),
    }
}

impl FlagState {
    pub(crate) open spec fn wf(&self, fm: Seq<Option<FlagModel>>) -> bool {
        entries_wf(fm, self.entries@)
    }

    pub(crate) open spec fn map(&self, fm: Seq<Option<FlagModel>>) -> FlagMap {
        entries_map(fm, self.entries@)
    }

    /// The empty state.
    pub(crate) fn new() -> (s: FlagState)
        ensures
            s.entries@.len() == 0,
    {
        FlagState { entries: Vec::new() }
    }

    /// The position of the binding for the feature of flag symbol `s`.
    fn find(&self, a: &Alphabet, s: u16) -> (r: Option<usize>)
        requires
            self.wf(a.flag_models()),
            is_flag_sym(a.flag_models(), s),
        ensures
            match r {
                Some(i) => i < self.entries@.len() && feature_at(
                    a.flag_models(),
                    self.entries@[i as int].src,
                ) == feature_at(a.flag_models(), s),
                None => forall|i: int|
                    0 <= i < self.entries@.len() ==> feature_at(
                        a.flag_models(),
                        #[trigger] self.entries@[i].src,
                    ) != feature_at(a.flag_models(), s),
            },
    {
        let f = feature_of(a, s);
        let mut i: usize = 0;
        while i < self.entries.len()
            invariant
                self.wf(a.flag_models()),
                is_flag_sym(a.flag_models(), s),
                f@ == feature_at(a.flag_models(), s),
                i <= self.entries@.len(),
                forall|j: int|
                    0 <= j < i ==> feature_at(a.flag_models(), #[trigger] self.entries@[j].src)
                        != feature_at(a.flag_models(), s),
            decreases self.entries@.len() - i,
        {
            let e = self.entries[i];
            proof {
                assert(is_valued_flag_sym(a.flag_models(), self.entries@[i as int].src));
            }
            if *feature_of(a, e.src) == *f {
                return Some(i);
            }
            i = i + 1;
        }
        None
    }

    /// Binds the feature of `b` (a valued flag symbol) as `b` says; returns
    /// the previous binding of that feature.
    fn insert(&mut self, a: &Alphabet, b: Binding) -> (prev: Option<Binding>)
        requires
            old(self).wf(a.flag_models()),
            is_valued_flag_sym(a.flag_models(), b.src),
        ensures
            final(self).wf(a.flag_models()),
            final(self).map(a.flag_models()) == old(self).map(a.flag_models()).insert(
                feature_at(a.flag_models(), b.src),
                binding_value(a.flag_models(), b),
            ),
            match prev {
                Some(p) => is_valued_flag_sym(a.flag_models(), p.src) && feature_at(
                    a.flag_models(),
                    p.src,
                ) == feature_at(a.flag_models(), b.src) && prior(
                    old(self).map(a.flag_models()),
                    feature_at(a.flag_models(), b.src),
                ) == Some(binding_value(a.flag_models(), p)),
                None => prior(
                    old(self).map(a.flag_models()),
                    feature_at(a.flag_models(), b.src),
                ) is None,
            },
    {
        let ghost fm = a.flag_models();
        let ghost k = feature_at(fm, b.src);
        proof {
            lemma_entries_lookup(fm, self.entries@, k);
        }
        match self.find(a, b.src) {
            Some(i) => {
                let p = self.entries[i];
                proof {
                    lemma_entries_update(fm, self.entries@, i as int, b);
                }
                self.entries.set(i, b);
                Some(p)
            },
            None => {
                let ghost old_entries = self.entries@;
                self.entries.push(b);
                proof {
                    assert(self.entries@.drop_last() =~= old_entries);
                    assert forall|p: int, q: int|
                        0 <= p < self.entries@.len() && 0 <= q < self.entries@.len() && p
                            != q implies feature_at(fm, #[trigger] self.entries@[p].src)
                        != feature_at(fm, #[trigger] self.entries@[q].src) by {
                        if p < old_entries.len() {
                            assert(self.entries@[p] == old_entries[p]);
                        }
                        if q < old_entries.len() {
                            assert(self.entries@[q] == old_entries[q]);
                        }
                    }
                    assert forall|p: int| 0 <= p < self.entries@.len() implies #[trigger] is_valued_flag_sym(
                        fm,
                        self.entries@[p].src,
                    ) by {
                        if p < old_entries.len() {
                            assert(self.entries@[p] == old_entries[p]);
                        }
                    }
                }
                None
            },
        }
    }

    /// Unbinds the feature of flag symbol `s`; returns its previous binding.
    fn remove(&mut self, a: &Alphabet, s: u16) -> (prev: Option<Binding>)
        requires
            old(self).wf(a.flag_models()),
            is_flag_sym(a.flag_models(), s),
        ensures
            final(self).wf(a.flag_models()),
            final(self).map(a.flag_models()) == old(self).map(a.flag_models()).remove(
                feature_at(a.flag_models(), s),
            ),
            match prev {
                Some(p) => is_valued_flag_sym(a.flag_models(), p.src) && feature_at(
                    a.flag_models(),
                    p.src,
                ) == feature_at(a.flag_models(), s) && prior(
                    old(self).map(a.flag_models()),
                    feature_at(a.flag_models(), s),
                ) == Some(binding_value(a.flag_models(), p)),
                None => prior(old(self).map(a.flag_models()), feature_at(a.flag_models(), s))
                    is None,
            },
    {
        let ghost fm = a.flag_models();
        let ghost k = feature_at(fm, s);
        proof {
            lemma_entries_lookup(fm, self.entries@, k);
        }
        match self.find(a, s) {
            Some(i) => {
                proof {
                    lemma_entries_remove(fm, self.entries@, i as int);
                }
                let p = self.entries.remove(i);
                Some(p)
            },
            None => {
                assert(self.map(fm).remove(k) =~= self.map(fm));
                None
            },
        }
    }

    /// The binding of the feature of flag symbol `s`, if any.
    fn get(&self, a: &Alphabet, s: u16) -> (r: Option<Binding>)
        requires
            self.wf(a.flag_models()),
            is_flag_sym(a.flag_models(), s),
        ensures
            match r {
                Some(p) => is_valued_flag_sym(a.flag_models(), p.src) && prior(
                    self.map(a.flag_models()),
                    feature_at(a.flag_models(), s),
                ) == Some(binding_value(a.flag_models(), p)),
                None => prior(self.map(a.flag_models()), feature_at(a.flag_models(), s)) is None,
            },
    {
        proof {
            lemma_entries_lookup(a.flag_models(), self.entries@, feature_at(a.flag_models(), s));
        }
        match self.find(a, s) {
            Some(i) => Some(self.entries[i]),
            None => None,
        }
    }

    /// Applies the flag operation of symbol `sym` in place. Returns the undo
    /// token if the operation is permitted on this path, or `None` if it
    /// blocks (the path is then pruned, and the state is left as it was).
    pub(crate) fn apply(&mut self, a: &Alphabet, sym: u16) -> (r: Option<FlagUndo>)
        requires
            old(self).wf(a.flag_models()),
            is_flag_sym(a.flag_models(), sym),
        ensures
            final(self).wf(a.flag_models()),
            match spec_apply(
                old(self).map(a.flag_models()),
                a.flag_models()[sym as int].unwrap(),
            ) {
                None => r is None && final(self).entries@ == old(self).entries@,
                Some((m, u)) => r matches Some(t) && final(self).map(a.flag_models()) == m
                    && undo_model(a.flag_models(), t) == u && undo_wf(a.flag_models(), t),
            },
    {
        let ghost fm = a.flag_models();
        proof {
            assert(flag_model(a.flags@[sym as int]) == fm[sym as int]);
        }
        let (kind, has_value) = match &a.flags[sym as usize] {
            Some(op) => (op.op, op.value.is_some()),
            None => vstd::pervasive::unreached(),
        };
        match kind {
            FlagOp::P | FlagOp::N => {
                if !has_value {
                    return Some(FlagUndo::Nothing);
                }
                let positive = match kind {
                    FlagOp::P => true,
                    _ => false,
                };
                let prev = self.insert(a, Binding { src: sym, positive });
                Some(FlagUndo::Restore(sym, prev))
            },
            FlagOp::C => {
                let prev = self.remove(a, sym);
                Some(FlagUndo::Restore(sym, prev))
            },
            FlagOp::R => match self.get(a, sym) {
                Some(cur) => {
                    if has_value {
                        if cur.positive && *value_of(a, cur.src) == *value_of(a, sym) {
                            Some(FlagUndo::Nothing)
                        } else {
                            None
                        }
                    } else {
                        Some(FlagUndo::Nothing)
                    }
                },
                None => None,
            },
            FlagOp::D => match self.get(a, sym) {
                None => Some(FlagUndo::Nothing),
                Some(cur) => {
                    if has_value {
                        if cur.positive && *value_of(a, cur.src) == *value_of(a, sym) {
                            None
                        } else {
                            Some(FlagUndo::Nothing)
                        }
                    } else {
                        None
                    }
                },
            },
            FlagOp::U => {
                if !has_value {
                    return None;
                }
                match self.get(a, sym) {
                    Some(cur) => {
                        let same = *value_of(a, cur.src) == *value_of(a, sym);
                        if cur.positive {
                            if same {
                                return Some(FlagUndo::Nothing);
                            } else {
                                return None;
                            }
                        } else if same {
                            return None;
                        }
                    },
                    None => {},
                }
                let prev = self.insert(a, Binding { src: sym, positive: true });
                Some(FlagUndo::Restore(sym, prev))
            },
        }
    }

    /// Reverses the edit recorded by [`FlagState::apply`].
    pub(crate) fn undo(&mut self, a: &Alphabet, undo: FlagUndo)
        requires
            old(self).wf(a.flag_models()),
            undo_wf(a.flag_models(), undo),
        ensures
            final(self).wf(a.flag_models()),
            final(self).map(a.flag_models()) == spec_undo(
                old(self).map(a.flag_models()),
                undo_model(a.flag_models(), undo),
            ),
    {
        match undo {
            FlagUndo::Nothing => {},
            FlagUndo::Restore(_, Some(prev)) => {
                self.insert(a, prev);
            },
            FlagUndo::Restore(s, None) => {
                self.remove(a, s);
            },
        }
    }
}

} // verus!

verus! {

/// Applies the operations in order: the final state and the undo records,
/// first to last, or `None` when one of them blocks.
pub open spec fn apply_all(m: FlagMap, ops: Seq<FlagModel>) -> Option<(FlagMap, Seq<UndoModel>)>
    decreases ops.len(),
{
    if ops.len() == 0 {
        Some((m, Seq::empty()))
    } else {
        match spec_apply(m, ops[0]) {
            None => None,
            Some((m1, u)) => match apply_all(m1, ops.drop_first()) {
                None => None,
                Some((m2, us)) => Some((m2, seq![u] + us)),
            },
        }
    }
}

/// Undoes the records from the last back to the first.
pub open spec fn undo_all(m: FlagMap, us: Seq<UndoModel>) -> FlagMap
    decreases us.len(),
{
    if us.len() == 0 {
        m
    } else {
        undo_all(spec_undo(m, us.last()), us.drop_last())
    }
}

/// Undoing a first record comes last.
proof fn lemma_undo_all_first(m: FlagMap, u: UndoModel, us: Seq<UndoModel>)
    ensures
        undo_all(m, seq![u] + us) == spec_undo(undo_all(m, us), u),
    decreases us.len(),
{
    let all = seq![u] + us;
    if us.len() == 0 {
        assert(all.drop_last() =~= Seq::<UndoModel>::empty());
        assert(all.last() == u);
        assert(undo_all(spec_undo(m, u), Seq::<UndoModel>::empty()) == spec_undo(m, u));
        assert(undo_all(m, us) == m);
    } else {
        assert(all.drop_last() =~= seq![u] + us.drop_last());
        assert(all.last() == us.last());
        lemma_undo_all_first(spec_undo(m, us.last()), u, us.drop_last());
        assert(undo_all(m, all) == undo_all(spec_undo(m, us.last()), seq![u] + us.drop_last()));
        assert(undo_all(m, us) == undo_all(spec_undo(m, us.last()), us.drop_last()));
    }
}

/// Undoing a chain of permitted flag operations in reverse order restores
/// the feature state they were applied to: for every state and every
/// sequence of operations that all succeed one after another, undoing their
/// records from the last back to the first gives the state back.
pub proof fn undo_all_reverses_apply_all(m: FlagMap, ops: Seq<FlagModel>)
    requires
        apply_all(m, ops) is Some,
    ensures
        undo_all(apply_all(m, ops).unwrap().0, apply_all(m, ops).unwrap().1) == m,
    decreases ops.len(),
{
    if ops.len() > 0 {
        let (m1, u) = spec_apply(m, ops[0]).unwrap();
        let (m2, us) = apply_all(m1, ops.drop_first()).unwrap();
        undo_all_reverses_apply_all(m1, ops.drop_first());
        lemma_undo_all_first(m2, u, us);
        undo_reverses_apply(m, ops[0]);
    }
}

} // verus!
