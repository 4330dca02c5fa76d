use rick::lex::{lex, TT};

fn all(src: &str, start: usize) -> Vec<(TT, usize)> {
    let mut l = lex(src.as_bytes().to_vec(), start);
    let mut out = Vec::new();
    while let Some(t) = l.next() {
        out.push((t, l.lineno()));
    }
    out
}

#[test]
fn lexes_a_calculation() {
    let toks: Vec<TT> = all("DO .1 <- #1", 1).into_iter().map(|t| t.0).collect();
    assert_eq!(toks, vec![TT::DO, TT::SPOT, TT::NUMBER(1), TT::GETS, TT::MESH, TT::NUMBER(1)]);
}

#[test]
fn longest_match_and_joined_words() {
    let toks: Vec<TT> = all("PLEASE DO ABSTAIN FROM NEXTING", 1).into_iter().map(|t| t.0).collect();
    assert_eq!(toks, vec![TT::PLEASEDO, TT::ABSTAIN, TT::FROM, TT::NEXTING]);
    let toks: Vec<TT> = all("PLEASE DON'T GIVE UP", 1).into_iter().map(|t| t.0).collect();
    assert_eq!(toks, vec![TT::PLEASEDO, TT::NOT, TT::GIVEUP]);
}

#[test]
fn wow_splits_into_spark_and_spot() {
    let toks: Vec<TT> = all("!1~.2'", 1).into_iter().map(|t| t.0).collect();
    assert_eq!(toks, vec![TT::SPARK, TT::SPOT, TT::NUMBER(1), TT::SQUIGGLE, TT::SPOT, TT::NUMBER(2), TT::SPARK]);
}

#[test]
fn lines_are_counted() {
    let toks = all("DO\nCOME\nFROM (1)\n\nGIVE UP", 5);
    assert_eq!(toks[0], (TT::DO, 5));
    assert_eq!(toks[1], (TT::COMEFROM, 6));
    assert_eq!(toks[2], (TT::WAX, 7));
    assert_eq!(toks[5], (TT::GIVEUP, 9));
}

#[test]
fn numbers_saturate_and_unknowns_pass() {
    let toks: Vec<TT> = all("#99999999999 @ \u{20ac} \u{2200}", 1).into_iter().map(|t| t.0).collect();
    assert_eq!(toks, vec![TT::MESH, TT::NUMBER(0xFFFF_FFFF), TT::UNKNOWN, TT::MONEY, TT::WHAT]);
}

#[test]
fn peek_and_push_back() {
    let mut l = lex(b"DO GIVE UP".to_vec(), 1);
    assert_eq!(l.peek(), Some(TT::DO));
    assert_eq!(l.peek(), Some(TT::DO));
    assert_eq!(l.next(), Some(TT::DO));
    l.push(TT::NOT);
    assert_eq!(l.next(), Some(TT::NOT));
    assert_eq!(l.next(), Some(TT::GIVEUP));
    assert_eq!(l.next(), None);
    assert_eq!(l.peek(), None);
}
