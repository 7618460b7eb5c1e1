//! Tests against the output of `hfst-optimized-lookup` on small toy
//! transducers.
//!
//! Each toy transducer is assembled here, byte by byte, in the
//! optimized-lookup format: an analyzer (surface -> analysis) and a
//! generator (analysis -> surface) for a regular tagset, and the same for a
//! lexicon with flag diacritics. The expected output of each is what
//! `hfst-optimized-lookup` gives for the same transducer.

use std::collections::{BTreeMap, BTreeSet};

use hfstol::Transducer;

const NO_SYMBOL: u16 = 0xFFFF;
const NO_TARGET: u32 = 0xFFFF_FFFF;
const START: u32 = 0x8000_0000;

/// One state: its final weight (if final) and its transitions
/// `(input, output, target state, weight)`, epsilons first, then flags.
struct State {
    fin: Option<f32>,
    arcs: Vec<(u16, u16, usize, f32)>,
}

fn st(fin: bool, arcs: &[(u16, u16, usize)]) -> State {
    State {
        fin: if fin { Some(0.0) } else { None },
        arcs: arcs.iter().map(|&(i, o, t)| (i, o, t, 0.0)).collect(),
    }
}

/// Assembles a transducer file. State 0 is the start state; it is stored in
/// the index table (pointing into its copy in the transition table), every
/// state in the transition table.
fn build(symbols: &[&str], n_in: u16, states: &[State], weighted: bool, wrapped: bool) -> Vec<u8> {
    let mut pos = Vec::new();
    let mut n = 0usize;
    for s in states {
        pos.push(n);
        n += 1 + s.arcs.len();
    }
    let mut trans: Vec<(u16, u16, u32, f32)> = Vec::new();
    for s in states {
        match s.fin {
            Some(w) => trans.push((NO_SYMBOL, NO_SYMBOL, 1, w)),
            None => trans.push((NO_SYMBOL, NO_SYMBOL, NO_TARGET, 0.0)),
        }
        for &(i, o, t, w) in &s.arcs {
            trans.push((i, o, START + pos[t] as u32, w));
        }
    }
    let mut index: Vec<(u16, u32)> = Vec::new();
    let start = &states[0];
    index.push(match start.fin {
        Some(w) => (NO_SYMBOL, if weighted { w.to_bits() } else { 0 }),
        None => (NO_SYMBOL, NO_TARGET),
    });
    let first = START + pos[0] as u32 + 1;
    for s in 0..n_in {
        let used = if s == 0 {
            start.arcs.iter().any(|a| a.0 == 0 || symbols[a.0 as usize].starts_with("@P.")
                || symbols[a.0 as usize].starts_with("@N.") || symbols[a.0 as usize].starts_with("@R.")
                || symbols[a.0 as usize].starts_with("@D.") || symbols[a.0 as usize].starts_with("@C.")
                || symbols[a.0 as usize].starts_with("@U."))
        } else {
            start.arcs.iter().any(|a| a.0 == s)
        };
        index.push(if used { (s, first) } else { (NO_SYMBOL, NO_TARGET) });
    }

    let mut out = Vec::new();
    if wrapped {
        let mut block = Vec::new();
        block.extend_from_slice(b"version\x003.3\x00type\x00");
        block.extend_from_slice(if weighted { b"HFST_OLW" } else { b"HFST_OL" });
        block.push(0);
        block.extend_from_slice(b"name\x00toy\x00");
        out.extend_from_slice(b"HFST\x00");
        out.extend_from_slice(&(block.len() as u16).to_le_bytes());
        out.push(0);
        out.extend_from_slice(&block);
    }
    out.extend_from_slice(&n_in.to_le_bytes());
    out.extend_from_slice(&(symbols.len() as u16).to_le_bytes());
    out.extend_from_slice(&(index.len() as u32).to_le_bytes());
    out.extend_from_slice(&(trans.len() as u32).to_le_bytes());
    out.extend_from_slice(&(states.len() as u32).to_le_bytes());
    out.extend_from_slice(&(trans.len() as u32).to_le_bytes());
    let flags = [weighted, false, false, true, false, false, true, false, false];
    for f in flags {
        out.extend_from_slice(&(f as u32).to_le_bytes());
    }
    for s in symbols {
        out.extend_from_slice(s.as_bytes());
        out.push(0);
    }
    for (i, t) in index {
        out.extend_from_slice(&i.to_le_bytes());
        out.extend_from_slice(&t.to_le_bytes());
    }
    for (i, o, t, w) in trans {
        out.extend_from_slice(&i.to_le_bytes());
        out.extend_from_slice(&o.to_le_bytes());
        out.extend_from_slice(&t.to_le_bytes());
        if weighted {
            out.extend_from_slice(&w.to_bits().to_le_bytes());
        }
    }
    out
}

/// Parses an expected `.tsv` (`input<TAB>analysis`, `+?` => no analysis) into
/// `input -> set of analyses`.
fn parse_expected(text: &str) -> BTreeMap<String, BTreeSet<String>> {
    let mut m: BTreeMap<String, BTreeSet<String>> = BTreeMap::new();
    for line in text.lines() {
        let mut f = line.splitn(2, '\t');
        let (Some(inp), Some(out)) = (f.next(), f.next()) else {
            continue;
        };
        let entry = m.entry(inp.to_string()).or_default();
        if out != "+?" {
            entry.insert(out.to_string());
        }
    }
    m
}

/// Compares a transducer's analyses against expected output.
fn check(bytes: &[u8], expected_tsv: &str, label: &str) {
    let t = Transducer::from_bytes(bytes).expect("load transducer");
    let expected = parse_expected(expected_tsv);
    let mut mismatches = Vec::new();
    for (inp, exp) in &expected {
        let got: BTreeSet<String> = match t.lookup(inp) {
            Ok(rs) => rs.into_iter().map(|a| a.output).collect(),
            Err(e) => panic!("{label}: lookup({inp:?}) errored: {}", e.to_string()),
        };
        if &got != exp {
            mismatches.push(format!("  {inp:?}: expected {exp:?}, got {got:?}"));
        }
    }
    assert!(
        mismatches.is_empty(),
        "{label}: {} input(s) disagree with the expected output:\n{}",
        mismatches.len(),
        mismatches.join("\n")
    );
}

/// Symbols of the noun lexicon: epsilon, the letters, the tags.
const NOUN_SYMBOLS: [&str; 11] =
    ["@_EPSILON_SYMBOL_@", "c", "a", "t", "d", "o", "g", "s", "+N", "+Sg", "+Pl"];

/// cat, dog (+N) with +Sg (nothing) or +Pl (-s), as an analyzer.
fn toy_nouns_bytes(wrapped: bool) -> Vec<u8> {
    let (c, a, t, d, o, g, s, n, sg, pl) = (1, 2, 3, 4, 5, 6, 7, 8, 9, 10);
    let states = vec![
        st(false, &[(c, c, 1), (d, d, 4)]),
        st(false, &[(a, a, 2)]),
        st(false, &[(t, t, 3)]),
        st(false, &[(0, n, 6)]),
        st(false, &[(o, o, 5)]),
        st(false, &[(g, g, 3)]),
        st(false, &[(0, sg, 7), (s, pl, 7)]),
        st(true, &[]),
    ];
    build(&NOUN_SYMBOLS, 8, &states, false, wrapped)
}

/// The same lexicon as a generator: the analysis side is the input.
fn toy_nouns_gen_bytes() -> Vec<u8> {
    let (c, a, t, d, o, g, s, n, sg, pl) = (1, 2, 3, 4, 5, 6, 7, 8, 9, 10);
    let states = vec![
        st(false, &[(c, c, 1), (d, d, 4)]),
        st(false, &[(a, a, 2)]),
        st(false, &[(t, t, 3)]),
        st(false, &[(n, 0, 6)]),
        st(false, &[(o, o, 5)]),
        st(false, &[(g, g, 3)]),
        st(false, &[(sg, 0, 7), (pl, s, 7)]),
        st(true, &[]),
    ];
    build(&NOUN_SYMBOLS, 11, &states, false, true)
}

const FLAG_SYMBOLS: [&str; 12] = [
    "@_EPSILON_SYMBOL_@",
    "t",
    "h",
    "e",
    "a",
    "c",
    "+Det",
    "+N",
    "@P.CASE.NOM@",
    "@P.CASE.ACC@",
    "@R.CASE@",
    "+",
];

/// Determiner + noun, glued by flag diacritics: a determiner sets CASE, the
/// noun requires it to be set.
fn toy_flags_bytes() -> Vec<u8> {
    let (t, h, e, a, c, det, n, pnom, pacc, rcase, plus) = (1, 2, 3, 4, 5, 6, 7, 8, 9, 10, 11);
    let states = vec![
        st(false, &[(t, t, 1), (a, a, 4)]),
        st(false, &[(h, h, 2)]),
        st(false, &[(e, e, 3)]),
        st(false, &[(pnom, pnom, 5)]),
        st(false, &[(pacc, pacc, 5)]),
        st(false, &[(0, det, 12)]),
        st(false, &[(c, c, 7)]),
        st(false, &[(a, a, 8)]),
        st(false, &[(t, t, 9)]),
        st(false, &[(rcase, rcase, 10)]),
        st(false, &[(0, n, 11)]),
        st(true, &[]),
        st(false, &[(0, plus, 6)]),
    ];
    build(&FLAG_SYMBOLS, 6, &states, false, true)
}

const FLAG_GEN_SYMBOLS: [&str; 11] = [
    "@_EPSILON_SYMBOL_@",
    "t",
    "h",
    "e",
    "a",
    "c",
    "+Det",
    "+N",
    "+",
    "@P.CASE.NOM@",
    "@R.CASE.NOM@",
];

/// The generator: only `the` sets CASE to NOM, and the noun requires NOM.
fn toy_flags_gen_bytes() -> Vec<u8> {
    let (t, h, e, a, c, det, n, plus, pnom, rnom) = (1, 2, 3, 4, 5, 6, 7, 8, 9, 10);
    let states = vec![
        st(false, &[(t, t, 1), (a, a, 11)]),
        st(false, &[(h, h, 2)]),
        st(false, &[(e, e, 3)]),
        st(false, &[(pnom, pnom, 4)]),
        st(false, &[(det, 0, 12)]),
        st(false, &[(c, c, 6)]),
        st(false, &[(a, a, 7)]),
        st(false, &[(t, t, 8)]),
        st(false, &[(rnom, rnom, 9)]),
        st(false, &[(n, 0, 10)]),
        st(true, &[]),
        st(false, &[(det, 0, 12)]),
        st(false, &[(plus, 0, 5)]),
    ];
    build(&FLAG_GEN_SYMBOLS, 9, &states, false, true)
}

#[test]
fn toy_nouns() {
    check(
        &toy_nouns_bytes(true),
        "cat\tcat+N+Sg\ncats\tcat+N+Pl\ndog\tdog+N+Sg\ndogs\tdog+N+Pl\nfish\t+?\n",
        "toy_nouns",
    );
}

#[test]
fn toy_flags() {
    check(
        &toy_flags_bytes(),
        "thecat\tthe+Det+cat+N\nacat\ta+Det+cat+N\nthe\t+?\na\t+?\n",
        "toy_flags",
    );
}

#[test]
fn toy_nouns_gen() {
    check(
        &toy_nouns_gen_bytes(),
        "cat+N+Sg\tcat\ncat+N+Pl\tcats\ndog+N+Sg\tdog\ndog+N+Pl\tdogs\n",
        "toy_nouns_gen",
    );
}

/// Generation direction with flag gating: `the+Det+cat+N` generates `thecat`
/// (the `@P.CASE.NOM@` path satisfies the noun's `@R.CASE.NOM@`), while
/// `a+Det+cat+N` generates nothing (the flag is never set).
#[test]
fn toy_flags_gen() {
    check(
        &toy_flags_gen_bytes(),
        "the+Det+cat+N\tthecat\na+Det+cat+N\t+?\n",
        "toy_flags_gen",
    );
}

/// A bare optimized-lookup file (no `HFST` wrapper) must load and apply
/// identically to the wrapped one. The wrapper is stripped from the toy
/// fixture in memory; the weighted flag then has to come from the
/// optimized-lookup header instead of the wrapper's `type`.
#[test]
fn bare_ol_header() {
    let bytes = toy_nouns_bytes(true);
    assert_eq!(&bytes[..4], b"HFST", "fixture should be HFST-wrapped");
    // Wrapper = "HFST"(4) + \0(1) + u16 len(2) + \0(1) + len bytes.
    let len = u16::from_le_bytes([bytes[5], bytes[6]]) as usize;
    let bare = &bytes[8 + len..];

    let wrapped = Transducer::from_bytes(&bytes).expect("load wrapped");
    let raw = Transducer::from_bytes(bare).expect("load bare");
    assert!(!raw.header.weighted, "toy_nouns is unweighted (read from OL header)");
    for w in ["cat", "cats", "dog", "dogs", "fish"] {
        let a: Vec<String> = wrapped.lookup(w).unwrap().into_iter().map(|x| x.output).collect();
        let b: Vec<String> = raw.lookup(w).unwrap().into_iter().map(|x| x.output).collect();
        assert_eq!(a, b, "bare vs wrapped disagree on {w:?}");
    }
}
