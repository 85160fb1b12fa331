use lex_core::lexer::{Lexer, LexerError};
use lex_core::vobset::VobSet;
use vob::Vob;

fn build(patterns: &[&str]) -> (Lexer, VobSet) {
    let mut vs = VobSet::new();
    let pats: Vec<String> = patterns.iter().map(|p| p.to_string()).collect();
    let names = pats.clone();
    let skip = Vob::from_elem(false, pats.len());
    let lex = Lexer::from(pats, skip, names, &mut vs).unwrap();
    (lex, vs)
}

/// Feeds `bytes` then the end-of-input signal, collecting every completed
/// pattern index; `None` when matching fails.
fn tokenize(lex: &Lexer, bytes: &[u8]) -> Option<Vec<usize>> {
    let mut toks = Vec::new();
    let mut state = lex.initial;
    for &b in bytes {
        let (s2, _h, tok) = lex.advance(state, Some(b))?;
        if let Some(t) = tok {
            toks.push(t);
        }
        state = s2;
    }
    let (_s, _h, tok) = lex.advance(state, None)?;
    if let Some(t) = tok {
        toks.push(t);
    }
    Some(toks)
}

#[test]
fn advance_is_deterministic() {
    let (lex, _vs) = build(&["ab", "cd"]);
    let r1 = lex.advance(lex.initial, Some(b'a'));
    let r2 = lex.advance(lex.initial, Some(b'a'));
    assert_eq!(r1, r2);
    let r3 = lex.advance(lex.initial, Some(b'z'));
    let r4 = lex.advance(lex.initial, Some(b'z'));
    assert_eq!(r3, r4);
    let r5 = lex.advance(lex.initial, None);
    let r6 = lex.advance(lex.initial, None);
    assert_eq!(r5, r6);
}

#[test]
fn possible_set_shrinks_monotonically() {
    let (lex, vs) = build(&["a", "ab"]);
    let (s1, h1, t1) = lex.advance(lex.initial, Some(b'a')).unwrap();
    assert_eq!(t1, None);
    assert!(!h1.is_zero());
    let (_s2, h2, t2) = lex.advance(s1, Some(b'b')).unwrap();
    assert_eq!(t2, None);
    assert!(!h2.is_zero());
    // after 'a' both patterns are possible; after 'b' only "ab" remains, a
    // subset, so the two interned sets intersect
    assert!(!vs.and_is_zero(h1, h2));
}

#[test]
fn zero_handle_only_on_dead_states() {
    let (lex, _vs) = build(&["ab"]);
    // a byte no pattern can start with kills the match and completes no token
    assert!(lex.advance(lex.initial, Some(b'z')).is_none());
    let (s1, h1, _) = lex.advance(lex.initial, Some(b'a')).unwrap();
    assert!(!h1.is_zero());
    let (_s2, h2, _) = lex.advance(s1, Some(b'b')).unwrap();
    assert!(!h2.is_zero());
}

#[test]
fn tie_break_lowest_pattern_index_wins() {
    let (lex, _vs) = build(&["while", "[a-z]+"]);
    let mut s = lex.initial;
    for &b in b"while" {
        let (s2, _h, t) = lex.advance(s, Some(b)).unwrap();
        assert_eq!(t, None);
        s = s2;
    }
    // the keyword's bytes followed by a non-identifier byte: the keyword
    // (index 0) wins over the identifier (index 1)
    let (_s2, _h, t) = lex.advance(s, Some(b' ')).unwrap();
    assert_eq!(t, Some(0));
}

#[test]
fn maximal_munch_with_restart() {
    let (lex, _vs) = build(&["ab", "cd"]);
    let s0 = lex.initial;
    let (s1, _h1, t1) = lex.advance(s0, Some(b'a')).unwrap();
    assert_eq!(t1, None);
    let (s2, _h2, t2) = lex.advance(s1, Some(b'b')).unwrap();
    assert_eq!(t2, None);
    // 'c' cannot extend "ab": pattern 0 completes and matching restarts
    // from the initial state on 'c'
    let (s3, _h3, t3) = lex.advance(s2, Some(b'c')).unwrap();
    assert_eq!(t3, Some(0));
    let (s3b, _hb, tb) = lex.advance(s0, Some(b'c')).unwrap();
    assert_eq!(tb, None);
    assert_eq!(s3, s3b);
    let (s4, _h4, t4) = lex.advance(s3, Some(b'd')).unwrap();
    assert_eq!(t4, None);
    let (s5, _h5, t5) = lex.advance(s4, None).unwrap();
    assert_eq!(t5, Some(1));
    assert_eq!(s5, lex.initial);
}

#[test]
fn invalid_pattern_fails_construction() {
    let mut vs = VobSet::new();
    let pats = vec!["(".to_string()];
    let skip = Vob::from_elem(false, 1);
    let names = vec!["broken".to_string()];
    let r = Lexer::from(pats, skip, names, &mut vs);
    assert!(matches!(r, Err(LexerError::InvalidPattern)));
}

#[test]
fn end_of_input_resolution() {
    let (lex, _vs) = build(&["ab"]);
    let (s1, _h, t1) = lex.advance(lex.initial, Some(b'a')).unwrap();
    assert_eq!(t1, None);
    // "a" is no complete token: end of input reports no result
    assert!(lex.advance(s1, None).is_none());
    let (s2, _h2, t2) = lex.advance(s1, Some(b'b')).unwrap();
    assert_eq!(t2, None);
    let r = lex.advance(s2, None).unwrap();
    assert_eq!(r.2, Some(0));
    assert_eq!(r.0, lex.initial);
}

#[test]
fn tokenizes_keyword_space_identifier() {
    let (lex, _vs) = build(&["while", "[a-z]+", " +"]);
    assert_eq!(tokenize(&lex, b"while x"), Some(vec![0, 2, 1]));
    assert_eq!(tokenize(&lex, b"whilex"), Some(vec![1]));
    assert_eq!(tokenize(&lex, b"while  while"), Some(vec![0, 2, 0]));
    assert_eq!(tokenize(&lex, b"while 9"), None);
}

#[test]
fn skip_patterns_and_names_carried_through() {
    let mut vs = VobSet::new();
    let pats = vec!["while".to_string(), "[a-z]+".to_string(), " +".to_string()];
    let mut skip = Vob::from_elem(false, 3);
    skip.set(2, true);
    let names = vec!["kw".to_string(), "ident".to_string(), "ws".to_string()];
    let lex = Lexer::from(pats, skip, names, &mut vs).unwrap();
    assert_eq!(lex.skip_patterns.get(2), Some(true));
    assert_eq!(lex.skip_patterns.get(0), Some(false));
    assert_eq!(lex.friendly_pattern_names[1], "ident");
    assert_eq!(lex.friendly_pattern_names.len(), 3);
}

#[test]
fn file_start_is_newline_successor_of_initial() {
    let (lex, _vs) = build(&["ab"]);
    // no pattern starts with a line break, so the file-start state is dead
    // for this pattern set and matching from it fails on any byte
    assert!(lex.advance(lex.file_start, Some(b'a')).is_none());
}

#[test]
fn session_seed_accessors_match_fields() {
    let (lex, _vs) = build(&["ab"]);
    assert_eq!(lex.initial_state(), lex.initial);
    assert_eq!(lex.file_start_state(), lex.file_start);
}
