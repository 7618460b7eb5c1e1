//! Tests of loading, lookup, weights, the frontier, banned outputs, symbol
//! selection and errors, on small transducers assembled in memory.

use hfstol::{Error, FlagOp, Transducer};

const NO_SYMBOL: u16 = 0xFFFF;
const NO_TARGET: u32 = 0xFFFF_FFFF;
const START: u32 = 0x8000_0000;

/// A state: its final weight (if final) and its arcs
/// `(input, output, target state, weight)`.
struct Node {
    fin: Option<f32>,
    arcs: Vec<(u16, u16, usize, f32)>,
}

fn node(fin: Option<f32>, arcs: &[(u16, u16, usize, f32)]) -> Node {
    Node { fin, arcs: arcs.to_vec() }
}

fn plain(fin: bool, arcs: &[(u16, u16, usize)]) -> Node {
    Node {
        fin: if fin { Some(0.0) } else { None },
        arcs: arcs.iter().map(|&(i, o, t)| (i, o, t, 0.0)).collect(),
    }
}

/// The wrapper block for a transducer of type `ty`.
fn wrapper(ty: &str) -> Vec<u8> {
    let mut block = Vec::new();
    block.extend_from_slice(b"version\x003.3\x00type\x00");
    block.extend_from_slice(ty.as_bytes());
    block.push(0);
    let mut out = Vec::new();
    out.extend_from_slice(b"HFST\x00");
    out.extend_from_slice(&(block.len() as u16).to_le_bytes());
    out.push(0);
    out.extend_from_slice(&block);
    out
}

/// Assembles a wrapped transducer file: state 0 is the start state, stored in
/// the index table, and every state is stored in the transition table.
fn assemble(symbols: &[&str], n_in: u16, states: &[Node], weighted: bool) -> Vec<u8> {
    let mut pos = Vec::new();
    let mut n = 0usize;
    for s in states {
        pos.push(n);
        n += 1 + s.arcs.len();
    }
    let mut trans: Vec<(u16, u16, u32, f32)> = Vec::new();
    for s in states {
        match s.fin {
            Some(w) => trans.push((NO_SYMBOL, NO_SYMBOL, 1, w)),
            None => trans.push((NO_SYMBOL, NO_SYMBOL, NO_TARGET, 0.0)),
        }
        for &(i, o, t, w) in &s.arcs {
            trans.push((i, o, START + pos[t] as u32, w));
        }
    }
    let start = &states[0];
    let mut index: Vec<(u16, u32)> = Vec::new();
    index.push(match start.fin {
        Some(w) => (NO_SYMBOL, if weighted { w.to_bits() } else { 0 }),
        None => (NO_SYMBOL, NO_TARGET),
    });
    let first = START + pos[0] as u32 + 1;
    for s in 0..n_in {
        let used = start.arcs.iter().any(|a| a.0 == s);
        index.push(if used { (s, first) } else { (NO_SYMBOL, NO_TARGET) });
    }
    let mut out = wrapper(if weighted { "HFST_OLW" } else { "HFST_OL" });
    out.extend_from_slice(&n_in.to_le_bytes());
    out.extend_from_slice(&(symbols.len() as u16).to_le_bytes());
    out.extend_from_slice(&(index.len() as u32).to_le_bytes());
    out.extend_from_slice(&(trans.len() as u32).to_le_bytes());
    out.extend_from_slice(&(states.len() as u32).to_le_bytes());
    out.extend_from_slice(&(trans.len() as u32).to_le_bytes());
    for f in [weighted, false, false, true, false, false, true, false, false] {
        out.extend_from_slice(&(f as u32).to_le_bytes());
    }
    for s in symbols {
        out.extend_from_slice(s.as_bytes());
        out.push(0);
    }
    for (i, t) in index {
        out.extend_from_slice(&i.to_le_bytes());
        out.extend_from_slice(&t.to_le_bytes());
    }
    for (i, o, t, w) in trans {
        out.extend_from_slice(&i.to_le_bytes());
        out.extend_from_slice(&o.to_le_bytes());
        out.extend_from_slice(&t.to_le_bytes());
        if weighted {
            out.extend_from_slice(&w.to_bits().to_le_bytes());
        }
    }
    out
}

const NOUNS: [&str; 11] =
    ["@_EPSILON_SYMBOL_@", "c", "a", "t", "d", "o", "g", "s", "+N", "+Sg", "+Pl"];

/// cat, dog (+N) with +Sg (nothing) or +Pl (-s).
fn nouns() -> Transducer {
    let (c, a, t, d, o, g, s, n, sg, pl) = (1, 2, 3, 4, 5, 6, 7, 8, 9, 10);
    let states = vec![
        plain(false, &[(c, c, 1), (d, d, 4)]),
        plain(false, &[(a, a, 2)]),
        plain(false, &[(t, t, 3)]),
        plain(false, &[(0, n, 6)]),
        plain(false, &[(o, o, 5)]),
        plain(false, &[(g, g, 3)]),
        plain(false, &[(0, sg, 7), (s, pl, 7)]),
        plain(true, &[]),
    ];
    Transducer::from_bytes(&assemble(&NOUNS, 8, &states, false)).expect("load nouns")
}

fn outputs(t: &Transducer, w: &str) -> Vec<String> {
    t.lookup(w).expect("lookup").into_iter().map(|a| a.output).collect()
}

fn message(e: Error) -> String {
    e.to_string()
}

#[test]
fn header_fields_are_read() {
    let t = nouns();
    assert_eq!(t.header.version, "3.3");
    assert!(!t.header.weighted);
    assert_eq!(t.header.number_of_input_symbols, 8);
    assert_eq!(t.header.number_of_symbols, 11);
    assert_eq!(t.header.size_of_index_table, 9);
    assert_eq!(t.header.number_of_states, 8);
    assert_eq!(t.header.size_of_target_table, t.header.number_of_transitions);
    assert!(t.header.minimized);
    assert!(t.header.has_input_epsilon_transitions);
    assert!(!t.header.cyclic);
    assert_eq!(t.alphabet.symbols.len(), 11);
    assert_eq!(t.alphabet.symbols[8], "+N");
}

#[test]
fn analyses_come_in_traversal_order() {
    let t = nouns();
    assert_eq!(outputs(&t, "cat"), vec!["cat+N+Sg"]);
    assert_eq!(outputs(&t, "dogs"), vec!["dog+N+Pl"]);
    assert!(outputs(&t, "ca").is_empty());
    assert!(outputs(&t, "").is_empty());
}

#[test]
fn unmatched_character_without_fallback_has_no_analysis() {
    let t = nouns();
    assert!(outputs(&t, "cax").is_empty());
    let (v, f) = t.lookup_with_frontier("catx", &[]).unwrap();
    assert!(v.is_empty());
    assert_eq!(f, 0);
}

#[test]
fn unweighted_analyses_weigh_zero() {
    let t = nouns();
    for w in ["cat", "cats", "dog", "dogs"] {
        for a in t.lookup(w).unwrap() {
            assert!(!a.weights.is_empty());
            assert!(a.weights.iter().all(|&b| b == 0), "{w}: {:?}", a.weights);
            let total: f32 = a.weights.iter().fold(0.0, |s, &b| s + f32::from_bits(b));
            assert_eq!(total, 0.0);
        }
    }
}

#[test]
fn weighted_path_weights_are_recorded() {
    let symbols = ["@_EPSILON_SYMBOL_@", "a", "b"];
    let states = vec![node(None, &[(1, 2, 1, 0.5)]), node(Some(1.25), &[])];
    let t = Transducer::from_bytes(&assemble(&symbols, 3, &states, true)).unwrap();
    assert!(t.header.weighted);
    let rs = t.lookup("a").unwrap();
    assert_eq!(rs.len(), 1);
    assert_eq!(rs[0].output, "b");
    assert_eq!(rs[0].weights, vec![0.5f32.to_bits(), 1.25f32.to_bits()]);
    let total: f32 = rs[0].weights.iter().fold(0.0, |s, &b| s + f32::from_bits(b));
    assert_eq!(total, 1.75);
}

#[test]
fn weighted_start_state_final_weight() {
    let symbols = ["@_EPSILON_SYMBOL_@", "a"];
    let states = vec![node(Some(2.5), &[])];
    let t = Transducer::from_bytes(&assemble(&symbols, 2, &states, true)).unwrap();
    let rs = t.lookup("").unwrap();
    assert_eq!(rs.len(), 1);
    assert_eq!(rs[0].output, "");
    assert_eq!(rs[0].weights, vec![2.5f32.to_bits()]);
}

#[test]
fn frontier_marks_longest_accepted_prefix() {
    let t = nouns();
    let (v, f) = t.lookup_with_frontier("catsdog", &[]).unwrap();
    assert!(v.is_empty());
    assert_eq!(f, 4);
    let (v, f) = t.lookup_with_frontier("cats", &[]).unwrap();
    assert_eq!(v.len(), 1);
    assert_eq!(f, 4);
    let (v, f) = t.lookup_with_frontier("do", &[]).unwrap();
    assert!(v.is_empty());
    assert_eq!(f, 0);
}

#[test]
fn banned_outputs_prune_paths() {
    let t = nouns();
    let (v, f) = t.lookup_with_frontier("cats", &[10]).unwrap();
    assert!(v.is_empty());
    assert_eq!(f, 3);
    let (v, _) = t.lookup_with_frontier("cat", &[10]).unwrap();
    let got: Vec<String> = v.into_iter().map(|a| a.output).collect();
    assert_eq!(got, vec!["cat+N+Sg"]);
    let (v, _) = t.lookup_with_frontier("cat", &[8]).unwrap();
    assert!(v.is_empty());
}

#[test]
fn symbols_where_selects_in_order() {
    let t = nouns();
    assert_eq!(t.symbols_where(|s| s.starts_with('+')), vec![8, 9, 10]);
    assert_eq!(t.symbols_where(|s| s == "+Pl"), vec![10]);
    assert!(t.symbols_where(|_| false).is_empty());
}

#[test]
fn flag_diacritics_are_parsed() {
    let symbols = [
        "@_EPSILON_SYMBOL_@",
        "a",
        "@P.CASE.NOM@",
        "@R.CASE@",
        "@U.X.Y.Z@",
        "@Q.CASE.NOM@",
        "@P@",
        "@C.F@",
    ];
    let states = vec![plain(true, &[])];
    let t = Transducer::from_bytes(&assemble(&symbols, 2, &states, false)).unwrap();
    assert!(t.alphabet.has_flags());
    let f = &t.alphabet.flags;
    assert!(f[0].is_none());
    assert!(f[1].is_none());
    let p = f[2].as_ref().unwrap();
    assert_eq!(p.op, FlagOp::P);
    assert_eq!(p.feature, "CASE");
    assert_eq!(p.value.as_deref(), Some("NOM"));
    let r = f[3].as_ref().unwrap();
    assert_eq!(r.op, FlagOp::R);
    assert_eq!(r.feature, "CASE");
    assert_eq!(r.value, None);
    let u = f[4].as_ref().unwrap();
    assert_eq!(u.op, FlagOp::U);
    assert_eq!(u.feature, "X");
    assert_eq!(u.value.as_deref(), Some("Y"));
    assert!(f[5].is_none());
    assert!(f[6].is_none());
    assert_eq!(f[7].as_ref().unwrap().op, FlagOp::C);
    assert!(!nouns().alphabet.has_flags());
}

#[test]
fn unknown_symbol_copies_the_character() {
    let symbols = ["@_EPSILON_SYMBOL_@", "a", "@_UNKNOWN_SYMBOL_@", "+X"];
    let states = vec![
        plain(false, &[(2, 2, 1), (1, 3, 1)]),
        plain(true, &[]),
    ];
    let t = Transducer::from_bytes(&assemble(&symbols, 3, &states, false)).unwrap();
    assert_eq!(outputs(&t, "z"), vec!["z"]);
    assert_eq!(outputs(&t, "é"), vec!["é"]);
    assert_eq!(outputs(&t, "a"), vec!["+X"]);
    assert!(outputs(&t, "zz").is_empty());
}

#[test]
fn longest_symbol_wins_tokenisation() {
    let symbols = ["@_EPSILON_SYMBOL_@", "a", "ab", "b", "X", "Y"];
    let states = vec![
        plain(false, &[(1, 4, 1), (2, 5, 2)]),
        plain(false, &[(3, 3, 2)]),
        plain(true, &[]),
    ];
    let t = Transducer::from_bytes(&assemble(&symbols, 4, &states, false)).unwrap();
    // "ab" is read as the one symbol "ab", never as "a" then "b".
    assert_eq!(outputs(&t, "ab"), vec!["Y"]);
    assert!(t.outputs_are_named());
}

#[test]
fn outputs_past_the_alphabet_are_detected() {
    let symbols = ["@_EPSILON_SYMBOL_@", "a"];
    let states = vec![plain(false, &[(1, 7, 1)]), plain(true, &[])];
    let t = Transducer::from_bytes(&assemble(&symbols, 2, &states, false)).unwrap();
    assert!(!t.outputs_are_named());
    assert!(nouns().outputs_are_named());
    // Only the words whose analysis names the stray symbol fail.
    let e = t.lookup("a").err().expect("stray output symbol");
    assert_eq!(message(e), "format error: analysis names an output symbol past the alphabet");
    assert!(t.lookup("b").unwrap().is_empty());
    let e = t.lookup_with_frontier("a", &[]).err().unwrap();
    assert!(matches!(e, Error::Format(_)));
    assert!(t.lookup_with_frontier("a", &[7]).unwrap().0.is_empty());
}

#[test]
fn empty_input_is_end_of_file() {
    let e = Transducer::from_bytes(&[]).err().expect("no transducer in no bytes");
    assert!(matches!(&e, Error::Format(m) if m == "unexpected end of file"));
    assert_eq!(message(e), "format error: unexpected end of file");
}

#[test]
fn malformed_cookie_is_reported() {
    let e = Transducer::from_bytes(b"HFSTX\x00\x00\x00").err().unwrap();
    assert_eq!(message(e), "format error: malformed HFST cookie");
}

#[test]
fn unexpected_type_is_reported() {
    let mut bytes = wrapper("HFST_FOO");
    bytes.extend_from_slice(&[0u8; 56]);
    let e = Transducer::from_bytes(&bytes).err().unwrap();
    assert_eq!(
        message(e),
        "format error: unexpected transducer type \"HFST_FOO\" (want HFST_OL or HFST_OLW)"
    );
}

#[test]
fn unterminated_symbol_is_reported() {
    let mut bytes = wrapper("HFST_OL");
    let mut header = vec![0u8; 56];
    header[0] = 1;
    header[2] = 1;
    bytes.extend_from_slice(&header);
    bytes.extend_from_slice(b"abc");
    let e = Transducer::from_bytes(&bytes).err().unwrap();
    assert_eq!(message(e), "format error: unterminated symbol string");
}

#[test]
fn truncated_tables_are_end_of_file() {
    let mut bytes = assemble(&NOUNS, 8, &[plain(true, &[])], false);
    bytes.truncate(bytes.len() - 3);
    let e = Transducer::from_bytes(&bytes).err().unwrap();
    assert_eq!(message(e), "format error: unexpected end of file");
}

#[test]
fn unsupported_error_message() {
    assert_eq!(Error::Unsupported("weighted flags").to_string(), "unsupported: weighted flags");
}

#[test]
fn invalid_utf8_symbols_are_replaced() {
    let mut bytes = wrapper("HFST_OL");
    let mut header = vec![0u8; 56];
    header[0] = 2;
    header[2] = 2;
    bytes.extend_from_slice(&header);
    bytes.extend_from_slice(b"@_EPSILON_SYMBOL_@\x00a\xffb\x00");
    let t = Transducer::from_bytes(&bytes).unwrap();
    assert_eq!(t.alphabet.symbols[1], "a\u{FFFD}b");
}

#[test]
fn symbol_counts_fit_checks_input_symbols() {
    let symbols = ["@_EPSILON_SYMBOL_@", "a"];
    let ok = assemble(&symbols, 2, &[plain(true, &[])], false);
    assert!(Transducer::symbol_counts_fit(&ok));
    let mut too_many = assemble(&symbols, 3, &[plain(true, &[])], false);
    assert!(!Transducer::symbol_counts_fit(&too_many));
    // A file that does not read can be handed over: it reports its error.
    too_many.truncate(too_many.len() - 1);
    assert!(Transducer::symbol_counts_fit(&too_many));
    assert!(Transducer::symbol_counts_fit(&[]));
}

#[test]
fn loaded_transducer_clones_and_applies_alike() {
    let t = nouns();
    let u = t.clone();
    assert_eq!(outputs(&t, "cats"), outputs(&u, "cats"));
}

#[test]
fn a_choice_and_its_opposite_split_the_symbols() {
    let t = nouns();
    let tags = t.symbols_where(|s| s.starts_with('+'));
    let rest = t.symbols_where(|s| !s.starts_with('+'));
    assert_eq!(tags, vec![8, 9, 10]);
    assert_eq!(rest, vec![0, 1, 2, 3, 4, 5, 6, 7]);
}

#[test]
fn banning_more_prunes_more() {
    let t = nouns();
    let (few, f_few) = t.lookup_with_frontier("cats", &[9]).unwrap();
    let (more, f_more) = t.lookup_with_frontier("cats", &[9, 10]).unwrap();
    assert_eq!(few.len(), 1);
    assert_eq!(f_few, 4);
    assert!(more.is_empty());
    assert_eq!(f_more, 0);
}

#[test]
fn trailing_bytes_are_ignored() {
    let symbols = NOUNS;
    let (c, a, t, d, o, g, s, n, sg, pl) = (1, 2, 3, 4, 5, 6, 7, 8, 9, 10);
    let states = vec![
        plain(false, &[(c, c, 1), (d, d, 4)]),
        plain(false, &[(a, a, 2)]),
        plain(false, &[(t, t, 3)]),
        plain(false, &[(0, n, 6)]),
        plain(false, &[(o, o, 5)]),
        plain(false, &[(g, g, 3)]),
        plain(false, &[(0, sg, 7), (s, pl, 7)]),
        plain(true, &[]),
    ];
    let bytes = assemble(&symbols, 8, &states, false);
    let mut longer = bytes.clone();
    longer.extend_from_slice(&[0xFF, 0x00, 0x12, 0x34, 0x56]);
    let t1 = Transducer::from_bytes(&bytes).unwrap();
    let t2 = Transducer::from_bytes(&longer).unwrap();
    assert_eq!(t1.header.number_of_states, t2.header.number_of_states);
    assert_eq!(t1.alphabet.symbols, t2.alphabet.symbols);
    for w in ["cat", "cats", "dog", "dogs", "fish"] {
        assert_eq!(outputs(&t1, w), outputs(&t2, w));
    }
}
