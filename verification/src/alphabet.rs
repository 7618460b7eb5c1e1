//! The symbol table (alphabet) and flag-diacritic operations.
//!
//! Right after the header come `number_of_symbols` NUL-terminated UTF-8
//! strings. A symbol is an ordinary surface/analysis symbol (`a`, `+N`, ...),
//! the epsilon symbol (index 0), the identity/unknown markers, or a **flag
//! diacritic** like `@P.CASE.NOM@` / `@R.CASE@`, which is erased from the
//! output but gates the traversal.

use vstd::prelude::*;
use vstd::slice::slice_subrange;

use crate::error::{format_error, Result};
use crate::header::{find_zero, next_zero, reports, Cursor, ParseFailure};
use crate::text::{chars_of, lossy_string, utf8_lossy};

verus! {

/// The kind of a flag-diacritic operation.
#[derive(Debug, Clone, Copy, PartialEq, Eq, Structural)]
pub enum FlagOp {
    /// `@P.f.v@`: set feature `f` to value `v` (positive).
    P,
    /// `@N.f.v@`: set feature `f` to value `v` (negative).
    N,
    /// `@R.f@` / `@R.f.v@`: require `f` to be set / set to `v`.
    R,
    /// `@D.f@` / `@D.f.v@`: disallow `f` being set / set to `v`.
    D,
    /// `@C.f@`: clear feature `f`.
    C,
    /// `@U.f.v@`: unify: `f` must be unset or already equal to `v`.
    U,
}

/// A parsed flag-diacritic symbol.
#[derive(Debug, Clone)]
pub struct FlagDiacriticOperation {
    pub op: FlagOp,
    pub feature: String,
    /// `None` for the valueless forms (`@R.f@`, `@D.f@`, `@C.f@`).
    pub value: Option<String>,
}

/// The mathematical content of a flag diacritic: operation, feature, value.
pub type FlagModel = (FlagOp, Seq<char>, Option<Seq<char>>);

impl FlagDiacriticOperation {
    pub open spec fn model(&self) -> FlagModel {
        (
            self.op,
            self.feature@,
            match self.value {
                Some(v) => Some(v@),
                None => None,
            },
        )
    }
}

/// The model of an optional flag operation.
pub open spec fn flag_model(f: Option<FlagDiacriticOperation>) -> Option<FlagModel> {
    match f {
        Some(op) => Some(op.model()),
        None => None,
    }
}

/// Offset of the first `c` in `s`, or `s.len()` when there is none.
pub open spec fn next_char(s: Seq<char>, c: char) -> nat
    decreases s.len(),
{
    if s.len() == 0 {
        0
    } else if s[0] == c {
        0
    } else {
        1 + next_char(s.drop_first(), c)
    }
}

/// The text of `s` before its first `.` (all of it when there is none).
pub open spec fn before_dot(s: Seq<char>) -> Seq<char> {
    s.take(next_char(s, '.') as int)
}

/// The text of `s` after its first `.`, or `None` when there is none.
pub open spec fn after_dot(s: Seq<char>) -> Option<Seq<char>> {
    let d = next_char(s, '.');
    if d < s.len() {
        Some(s.skip((d + 1) as int))
    } else {
        None
    }
}

/// The operation named by the first part of a flag diacritic.
pub open spec fn op_named(t: Seq<char>) -> Option<FlagOp> {
    if t == seq!['P'] {
        Some(FlagOp::P)
    } else if t == seq!['N'] {
        Some(FlagOp::N)
    } else if t == seq!['R'] {
        Some(FlagOp::R)
    } else if t == seq!['D'] {
        Some(FlagOp::D)
    } else if t == seq!['C'] {
        Some(FlagOp::C)
    } else if t == seq!['U'] {
        Some(FlagOp::U)
    } else {
        None
    }
}

/// A symbol read as a flag diacritic: `@OP.FEATURE@` or `@OP.FEATURE.VALUE@`
/// (further `.`-separated parts are ignored), or `None` when it is not one.
pub open spec fn spec_flag(sym: Seq<char>) -> Option<FlagModel> {
    if sym.len() < 2 || sym[0] != '@' || sym[sym.len() - 1] != '@' {
        None
    } else {
        let inner = sym.subrange(1, sym.len() - 1);
        match op_named(before_dot(inner)) {
            None => None,
            Some(op) => match after_dot(inner) {
                None => None,
                Some(rest) => Some(
                    (
                        op,
                        before_dot(rest),
                        match after_dot(rest) {
                            None => None,
                            Some(rest2) => Some(before_dot(rest2)),
                        },
                    ),
                ),
            },
        }
    }
}

/// `next_char` is the offset of the first `c`, where there is one.
proof fn lemma_next_char(s: Seq<char>, c: char, k: int)
    requires
        0 <= k <= s.len(),
        forall|i: int| 0 <= i < k ==> s[i] != c,
        k == s.len() || s[k] == c,
    ensures
        next_char(s, c) == k,
    decreases s.len(),
{
    if s.len() > 0 && k > 0 {
        assert forall|i: int| 0 <= i < k - 1 implies s.drop_first()[i] != c by {
            assert(s.drop_first()[i] == s[i + 1]);
        }
        lemma_next_char(s.drop_first(), c, k - 1);
    }
}

/// The position of the first `c` in `v[from..to]`, or `to` when there is none.
fn find_char(v: &Vec<char>, from: usize, to: usize, c: char) -> (k: usize)
    requires
        from <= to <= v@.len(),
    ensures
        k == from + next_char(v@.subrange(from as int, to as int), c),
        from <= k <= to,
{
    let mut k = from;
    while k < to && v[k] != c
        invariant
            from <= k <= to <= v@.len(),
            forall|i: int| from <= i < k ==> v@[i] != c,
        decreases to - k,
    {
        k = k + 1;
    }
    proof {
        let t = v@.subrange(from as int, to as int);
        assert forall|i: int| 0 <= i < k - from implies t[i] != c by {
            assert(t[i] == v@[from + i]);
        }
        lemma_next_char(t, c, k - from);
    }
    k
}

impl FlagDiacriticOperation {
    /// Parses a symbol string as a flag diacritic, or `None` if it is not one.
    pub(crate) fn parse(sym: &str) -> (r: Option<FlagDiacriticOperation>)
        ensures
            flag_model(r) == spec_flag(sym@),
    {
        let v = chars_of(sym);
        let n = v.len();
        if n < 2 || v[0] != '@' || v[n - 1] != '@' {
            return None;
        }
        let ghost inner = sym@.subrange(1, n - 1);
        let d1 = find_char(&v, 1, n - 1, '.');
        proof {
            assert(inner =~= v@.subrange(1, n - 1));
            assert(before_dot(inner) =~= v@.subrange(1, d1 as int));
        }
        let op = if d1 == 2 {
            let c = v[1];
            proof {
                assert(v@.subrange(1, 2) =~= seq![c]);
            }
            if c == 'P' {
                FlagOp::P
            } else if c == 'N' {
                FlagOp::N
            } else if c == 'R' {
                FlagOp::R
            } else if c == 'D' {
                FlagOp::D
            } else if c == 'C' {
                FlagOp::C
            } else if c == 'U' {
                FlagOp::U
            } else {
                return None;
            }
        } else {
            proof {
                assert(v@.subrange(1, d1 as int).len() != 1);
            }
            return None;
        };
        if d1 == n - 1 {
            return None;
        }
        let ghost rest = inner.skip(d1 as int);
        proof {
            assert(rest =~= v@.subrange(d1 + 1, n - 1));
        }
        let d2 = find_char(&v, d1 + 1, n - 1, '.');
        let feature = String::from_str(sym.substring_char(d1 + 1, d2));
        proof {
            assert(before_dot(rest) =~= v@.subrange(d1 + 1, d2 as int));
        }
        let value = if d2 == n - 1 {
            None
        } else {
            let ghost rest2 = rest.skip((d2 - d1) as int);
            proof {
                assert(rest2 =~= v@.subrange(d2 + 1, n - 1));
            }
            let d3 = find_char(&v, d2 + 1, n - 1, '.');
            proof {
                assert(before_dot(rest2) =~= v@.subrange(d2 + 1, d3 as int));
            }
            Some(String::from_str(sym.substring_char(d2 + 1, d3)))
        };
        Some(FlagDiacriticOperation { op, feature, value })
    }
}

/// The epsilon symbol is always symbol number 0 in the optimized-lookup format.
pub const EPSILON: u16 = 0;

/// The texts of a sequence of strings.
pub open spec fn texts(v: Seq<String>) -> Seq<Seq<char>> {
    v.map_values(|s: String| s@)
}

/// The index of the last symbol equal to `t`, if any.
pub open spec fn last_index(syms: Seq<Seq<char>>, t: Seq<char>) -> Option<int>
    decreases syms.len(),
{
    if syms.len() == 0 {
        None
    } else if syms.last() == t {
        Some(syms.len() - 1)
    } else {
        last_index(syms.drop_last(), t)
    }
}

/// `o` holds the same symbol number as `i`.
pub open spec fn same_index(o: Option<u16>, i: Option<int>) -> bool {
    match (o, i) {
        (Some(a), Some(b)) => a == b,
        (None, None) => true,
        _ => false,
    }
}

/// The identity marker symbol.
pub open spec fn identity_text() -> Seq<char> {
    "@_IDENTITY_SYMBOL_@"@
}

/// The unknown marker symbol.
pub open spec fn unknown_text() -> Seq<char> {
    "@_UNKNOWN_SYMBOL_@"@
}

/// The transducer's symbol table.
#[derive(Debug, Clone)]
pub struct Alphabet {
    /// Symbol strings, indexed by symbol number.
    pub symbols: Vec<String>,
    /// Parallel to `symbols`: the flag-diacritic operation for each symbol that
    /// is one, else `None`.
    pub flags: Vec<Option<FlagDiacriticOperation>>,
    /// Symbol number of `@_IDENTITY_SYMBOL_@`, if present.
    pub identity: Option<u16>,
    /// Symbol number of `@_UNKNOWN_SYMBOL_@`, if present.
    pub unknown: Option<u16>,
}

/// The mathematical content of an alphabet.
pub struct AlphabetModel {
    /// The symbol texts.
    pub symbols: Seq<Seq<char>>,
    /// The flag operation of each symbol.
    pub flags: Seq<Option<FlagModel>>,
    /// The recorded identity symbol.
    pub identity: Option<u16>,
    /// The recorded unknown symbol.
    pub unknown: Option<u16>,
}

impl AlphabetModel {
    /// `sym` is epsilon or a flag diacritic.
    pub open spec fn epsilon_like(self, sym: u16) -> bool {
        sym == EPSILON || ((sym as int) < self.flags.len() && self.flags[sym as int] is Some)
    }
}

impl Alphabet {
    /// The mathematical content of the alphabet.
    pub open spec fn model(&self) -> AlphabetModel {
        AlphabetModel {
            symbols: self.symbol_texts(),
            flags: self.flag_models(),
            identity: self.identity,
            unknown: self.unknown,
        }
    }

    /// The symbol texts.
    pub open spec fn symbol_texts(&self) -> Seq<Seq<char>> {
        texts(self.symbols@)
    }

    /// The flag operation of each symbol, as a model.
    pub open spec fn flag_models(&self) -> Seq<Option<FlagModel>> {
        self.flags@.map_values(|f: Option<FlagDiacriticOperation>| flag_model(f))
    }

    /// The table is what parsing its symbol texts gives: one flag entry per
    /// symbol, each the symbol read as a flag diacritic, and the identity and
    /// unknown markers at the last symbols that spell them.
    pub open spec fn wf(&self) -> bool {
        &&& self.symbols@.len() == self.flags@.len()
        &&& self.symbols@.len() <= u16::MAX
        &&& forall|i: int|
            0 <= i < self.symbols@.len() ==> #[trigger] flag_model(self.flags@[i]) == spec_flag(
                self.symbols@[i]@,
            )
        &&& same_index(self.identity, last_index(self.symbol_texts(), identity_text()))
        &&& same_index(self.unknown, last_index(self.symbol_texts(), unknown_text()))
    }

    /// The flag operation of symbol `sym`, as a model (`None` past the table).
    pub open spec fn flag_of(&self, sym: u16) -> Option<FlagModel> {
        if (sym as int) < self.flags@.len() {
            flag_model(self.flags@[sym as int])
        } else {
            None
        }
    }

    /// `sym` is epsilon or a flag diacritic: it consumes no input and is
    /// erased from the output.
    pub open spec fn epsilon_like(&self, sym: u16) -> bool {
        sym == EPSILON || self.flag_of(sym) is Some
    }

    /// Reads `count` NUL-terminated symbol strings, advancing the cursor to
    /// the first byte of the transition-index table.
    pub(crate) fn parse(c: &mut Cursor, count: u16) -> (res: Result<Alphabet>)
        requires
            old(c).wf(),
        ensures
            final(c).buf@ == old(c).buf@,
            final(c).wf(),
            match cstrs(old(c).buf@, old(c).pos as int, count as nat) {
                Ok((raws, q)) => res matches Ok(a) && a.wf() && a.symbols@.len() == count
                    && raws.len() == count && final(c).pos == q && forall|i: int|
                    0 <= i < count ==> #[trigger] a.symbols@[i]@ == utf8_lossy(raws[i]),
                Err(f) => res matches Err(e) && reports(e, f),
            },
    {
        let ghost b = c.buf@;
        let ghost p0 = c.pos as int;
        let mut symbols: Vec<String> = Vec::with_capacity(count as usize);
        let mut flags: Vec<Option<FlagDiacriticOperation>> = Vec::with_capacity(count as usize);
        let mut identity: Option<u16> = None;
        let mut unknown: Option<u16> = None;
        let mut n: u16 = 0;
        while n < count
            invariant
                c.buf@ == b,
                b == old(c).buf@,
                p0 == old(c).pos,
                c.wf(),
                n <= count,
                symbols@.len() == n,
                flags@.len() == n,
                cstrs(b, p0, n as nat) matches Ok((raws, q)) && c.pos == q && raws.len() == n
                    && forall|i: int|
                    0 <= i < n ==> #[trigger] symbols@[i]@ == utf8_lossy(raws[i]),
                forall|i: int|
                    0 <= i < n ==> #[trigger] flag_model(flags@[i]) == spec_flag(symbols@[i]@),
                same_index(identity, last_index(texts(symbols@), identity_text())),
                same_index(unknown, last_index(texts(symbols@), unknown_text())),
            decreases count - n,
        {
            let ghost before = symbols@;
            let ghost q = c.pos as int;
            let s = match read_cstr(c) {
                Ok(s) => s,
                Err(e) => {
                    proof {
                        lemma_cstrs_fail(b, p0, (n + 1) as nat, count as nat);
                    }
                    return Err(e);
                },
            };
            flags.push(FlagDiacriticOperation::parse(s.as_str()));
            if s == String::from_str("@_IDENTITY_SYMBOL_@") {
                identity = Some(n);
            } else if s == String::from_str("@_UNKNOWN_SYMBOL_@") {
                unknown = Some(n);
            }
            symbols.push(s);
            proof {
                assert(texts(symbols@).drop_last() =~= texts(before));
                assert(texts(symbols@).last() == symbols@[n as int]@);
                lemma_marker_texts_differ();
                let z = next_zero(b.skip(q));
                assert(b.skip(q).take(z as int) =~= b.subrange(q, q + z));
                let (raws, _) = cstrs(b, p0, n as nat)->Ok_0;
                let raws2 = raws.push(b.subrange(q, q + z));
                assert forall|i: int| 0 <= i < n + 1 implies #[trigger] symbols@[i]@ == utf8_lossy(
                    raws2[i],
                ) by {
                    if i < n {
                        assert(symbols@[i] == before[i]);
                    }
                }
            }
            n = n + 1;
        }
        Ok(Alphabet { symbols, flags, identity, unknown })
    }

    /// Whether the alphabet contains any flag diacritics.
    pub fn has_flags(&self) -> (r: bool)
        ensures
            r == exists|i: int| 0 <= i < self.flags@.len() && #[trigger] self.flags@[i] is Some,
    {
        let mut i: usize = 0;
        while i < self.flags.len()
            invariant
                i <= self.flags@.len(),
                forall|j: int| 0 <= j < i ==> #[trigger] self.flags@[j] is None,
            decreases self.flags@.len() - i,
        {
            if self.flags[i].is_some() {
                return true;
            }
            i = i + 1;
        }
        false
    }

    /// The flag-diacritic operation for symbol `sym`, if it is one.
    pub(crate) fn flag(&self, sym: u16) -> (r: Option<&FlagDiacriticOperation>)
        ensures
            flag_model(
                match r {
                    Some(op) => Some(*op),
                    None => None,
                },
            ) == self.flag_of(sym),
    {
        if (sym as usize) < self.flags.len() {
            match &self.flags[sym as usize] {
                Some(op) => Some(op),
                None => None,
            }
        } else {
            None
        }
    }

    /// Whether `sym` is an epsilon or flag-diacritic symbol, i.e. consumes no
    /// input and is erased from the output.
    pub(crate) fn is_epsilon_like(&self, sym: u16) -> (r: bool)
        ensures
            r == self.epsilon_like(sym),
    {
        sym == EPSILON || self.flag(sym).is_some()
    }
}

/// The two marker symbols are different texts.
proof fn lemma_marker_texts_differ()
    ensures
        identity_text() != unknown_text(),
{
    reveal_strlit("@_IDENTITY_SYMBOL_@");
    reveal_strlit("@_UNKNOWN_SYMBOL_@");
    assert(identity_text().len() != unknown_text().len());
}

/// The raw bytes of `n` NUL-terminated strings starting at `p`, and the
/// position after them.
pub open spec fn cstrs(b: Seq<u8>, p: int, n: nat) -> core::result::Result<
    (Seq<Seq<u8>>, int),
    ParseFailure,
>
    decreases n,
{
    if n == 0 {
        Ok((Seq::empty(), p))
    } else {
        match cstrs(b, p, (n - 1) as nat) {
            Err(f) => Err(f),
            Ok((ss, q)) => {
                let z = next_zero(b.skip(q));
                if q + z >= b.len() {
                    Err(ParseFailure::UnterminatedSymbol)
                } else {
                    Ok((ss.push(b.subrange(q, q + z)), q + z + 1))
                }
            },
        }
    }
}

/// Once reading strings has failed, reading more fails the same way.
proof fn lemma_cstrs_fail(b: Seq<u8>, p: int, n: nat, m: nat)
    requires
        n <= m,
        cstrs(b, p, n) is Err,
    ensures
        cstrs(b, p, m) == cstrs(b, p, n),
    decreases m - n,
{
    if n < m {
        lemma_cstrs_fail(b, p, n, (m - 1) as nat);
    }
}

/// Reads one NUL-terminated UTF-8 string from the cursor.
fn read_cstr(c: &mut Cursor) -> (res: Result<String>)
    requires
        old(c).wf(),
    ensures
        final(c).buf@ == old(c).buf@,
        final(c).wf(),
        ({
            let rest = old(c).buf@.skip(old(c).pos as int);
            let z = next_zero(rest);
            if z >= rest.len() {
                res matches Err(e) && reports(e, ParseFailure::UnterminatedSymbol) && final(c).pos
                    == old(c).pos
            } else {
                res matches Ok(s) && s@ == utf8_lossy(rest.take(z as int)) && final(c).pos
                    == old(c).pos + z + 1
            }
        }),
{
    let rest = c.remaining();
    let end = find_zero(rest, 0);
    proof {
        assert(rest@.skip(0) =~= rest@);
    }
    if end >= rest.len() {
        return Err(format_error("unterminated symbol string"));
    }
    let s = lossy_string(slice_subrange(rest, 0, end));
    proof {
        assert(rest@.subrange(0, end as int) =~= rest@.take(end as int));
    }
    c.take(end + 1)?;
    Ok(s)
}

} // verus!

verus! {

/// The letter that names an operation in a flag diacritic.
pub open spec fn op_letter(op: FlagOp) -> char {
    match op {
        FlagOp::P => 'P',
        FlagOp::N => 'N',
        FlagOp::R => 'R',
        FlagOp::D => 'D',
        FlagOp::C => 'C',
        FlagOp::U => 'U',
    }
}

/// The symbol text of a flag diacritic: `@OP.FEATURE@`, or
/// `@OP.FEATURE.VALUE@` when it has a value.
pub open spec fn flag_text(op: FlagOp, feature: Seq<char>, value: Option<Seq<char>>) -> Seq<char> {
    seq!['@', op_letter(op), '.'] + feature + match value {
        Some(v) => seq!['.'] + v,
        None => Seq::empty(),
    } + seq!['@']
}

/// The letter of an operation names it.
proof fn lemma_op_named(op: FlagOp)
    ensures
        op_named(seq![op_letter(op)]) == Some(op),
{
    let t = seq![op_letter(op)];
    assert(t[0] == op_letter(op));
    assert(seq!['P'][0] == 'P');
    assert(seq!['N'][0] == 'N');
    assert(seq!['R'][0] == 'R');
    assert(seq!['D'][0] == 'D');
    assert(seq!['C'][0] == 'C');
    assert(seq!['U'][0] == 'U');
    match op {
        FlagOp::P => assert(t =~= seq!['P']),
        FlagOp::N => assert(t =~= seq!['N']),
        FlagOp::R => assert(t =~= seq!['R']),
        FlagOp::D => assert(t =~= seq!['D']),
        FlagOp::C => assert(t =~= seq!['C']),
        FlagOp::U => assert(t =~= seq!['U']),
    }
}

/// A text with no `.` has none before its end.
proof fn lemma_no_dot(s: Seq<char>, tail: Seq<char>)
    requires
        !s.contains('.'),
        tail.len() == 0 || tail[0] == '.',
    ensures
        next_char(s + tail, '.') == s.len(),
{
    assert forall|i: int| 0 <= i < s.len() implies (s + tail)[i] != '.' by {
        if (s + tail)[i] == '.' {
            assert(s[i] == '.');
        }
    }
    lemma_next_char(s + tail, '.', s.len() as int);
}

/// Spelling a flag diacritic and reading it back gives the same operation,
/// feature and value, when neither the feature nor the value holds a `.`.
pub proof fn flag_text_reads_back(op: FlagOp, feature: Seq<char>, value: Option<Seq<char>>)
    requires
        !feature.contains('.'),
        value matches Some(v) ==> !v.contains('.'),
    ensures
        spec_flag(flag_text(op, feature, value)) == Some((op, feature, value)),
{
    let sym = flag_text(op, feature, value);
    let tail: Seq<char> = match value {
        Some(v) => seq!['.'] + v,
        None => Seq::empty(),
    };
    let inner = sym.subrange(1, sym.len() - 1);
    assert(inner =~= seq![op_letter(op), '.'] + (feature + tail));
    lemma_next_char(inner, '.', 1);
    assert(before_dot(inner) =~= seq![op_letter(op)]);
    lemma_op_named(op);
    let rest = feature + tail;
    assert(inner.skip(2) =~= rest);
    lemma_no_dot(feature, tail);
    assert(before_dot(rest) =~= feature);
    match value {
        Some(v) => {
            assert(rest.skip(feature.len() as int + 1) =~= v);
            assert(after_dot(rest) == Some(v));
            assert(v + Seq::<char>::empty() =~= v);
            lemma_no_dot(v, Seq::empty());
            assert(next_char(v, '.') == v.len());
            assert(before_dot(v) =~= v);

        },
        None => {
            assert(rest =~= feature);
        },
    }
}

} // verus!

verus! {

/// `last_index` names the last position holding `t`, or none.
proof fn lemma_last_index(syms: Seq<Seq<char>>, t: Seq<char>)
    ensures
        match last_index(syms, t) {
            Some(i) => 0 <= i < syms.len() && syms[i] == t && forall|j: int|
                i < j < syms.len() ==> #[trigger] syms[j] != t,
            None => forall|j: int| 0 <= j < syms.len() ==> #[trigger] syms[j] != t,
        },
    decreases syms.len(),
{
    if syms.len() > 0 {
        let prev = syms.drop_last();
        lemma_last_index(prev, t);
        let n = syms.len() - 1;
        if syms.last() != t {
            assert(last_index(syms, t) == last_index(prev, t));
            match last_index(prev, t) {
                Some(i) => {
                    assert(syms[i] == prev[i]);
                    assert forall|j: int| i < j < syms.len() implies #[trigger] syms[j] != t by {
                        if j < n {
                            assert(syms[j] == prev[j]);
                        }
                    }
                },
                None => {
                    assert forall|j: int| 0 <= j < syms.len() implies #[trigger] syms[j] != t by {
                        if j < n {
                            assert(syms[j] == prev[j]);
                        }
                    }
                },
            }
        }
    }
}

/// The identity and unknown symbols of a well-formed alphabet are the last
/// symbols spelled `@_IDENTITY_SYMBOL_@` and `@_UNKNOWN_SYMBOL_@`, and are
/// absent exactly when no symbol is spelled so.
pub proof fn markers_are_the_last_so_spelled(a: &Alphabet)
    requires
        a.wf(),
    ensures
        match a.identity {
            Some(i) => (i as int) < a.symbols@.len() && a.symbols@[i as int]@ == identity_text()
                && forall|j: int|
                i < j < a.symbols@.len() ==> (#[trigger] a.symbols@[j])@ != identity_text(),
            None => forall|j: int|
                0 <= j < a.symbols@.len() ==> (#[trigger] a.symbols@[j])@ != identity_text(),
        },
        match a.unknown {
            Some(i) => (i as int) < a.symbols@.len() && a.symbols@[i as int]@ == unknown_text()
                && forall|j: int|
                i < j < a.symbols@.len() ==> (#[trigger] a.symbols@[j])@ != unknown_text(),
            None => forall|j: int|
                0 <= j < a.symbols@.len() ==> (#[trigger] a.symbols@[j])@ != unknown_text(),
        },
{
    let ts = a.symbol_texts();
    lemma_last_index(ts, identity_text());
    lemma_last_index(ts, unknown_text());
    assert forall|j: int| 0 <= j < a.symbols@.len() implies ts[j] == (#[trigger] a.symbols@[j])@ by {}
}

} // verus!
