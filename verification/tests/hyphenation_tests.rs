use grafeia_core::hyphenation::{bytes_order, merge_sorted, parse_hyphen_line, Hyphen, Hyphenator, Hyphens};

fn points(h: &Hyphens) -> Vec<u8> {
    let mut it = h.iter();
    let mut out = vec![];
    while let Some(p) = it.next() {
        out.push(p.pos());
    }
    out
}

#[test]
fn hyphen_splits_a_word_by_characters() {
    assert_eq!(Hyphen::at(3).apply("hyphen"), ("hyp", "hen"));
    assert_eq!(Hyphen::at(1).apply("éa"), ("é", "a"));
    assert_eq!(Hyphen::at(0).apply("word"), ("", "word"));
    assert_eq!(Hyphen::at(10).apply("word"), ("word", ""));
}

#[test]
fn hyphens_come_back_last_first() {
    let h = Hyphens::default();
    assert_eq!(h.len(), 0);
    let h = h.shl(Hyphen::at(2)).shl(Hyphen::at(5));
    assert_eq!(h.to_packed(), 2 * 256 + 5);
    assert_eq!(h.len(), 2);
    assert_eq!(points(&h), vec![5, 2]);
    let mut g = Hyphens::default();
    g.shl_assign(Hyphen::at(7));
    assert_eq!(points(&g), vec![7]);
}

#[test]
fn a_point_at_the_start_first_is_lost() {
    // a first point at 0 leaves the packed value at 0
    let h = Hyphens::default().shl(Hyphen::at(0)).shl(Hyphen::at(4));
    assert_eq!(points(&h), vec![4]);
}

#[test]
fn parse_a_line_of_the_hyphen_list() {
    let (word, h) = parse_hyphen_line("hy|phen|a|tion");
    assert_eq!(word, "hyphenation");
    assert_eq!(h.to_packed(), 2 * 65536 + 6 * 256 + 7);
    assert_eq!(points(&h), vec![7, 6, 2]);
    let (word, h) = parse_hyphen_line("word");
    assert_eq!(word, "word");
    assert_eq!(h.len(), 0);
}

#[test]
fn bytes_order_is_lexicographic() {
    assert!(bytes_order(b"abc", b"abd") < 0);
    assert!(bytes_order(b"ab", b"abc") < 0);
    assert!(bytes_order(b"b", b"abc") > 0);
    assert_eq!(bytes_order(b"same", b"same"), 0);
    assert_eq!(bytes_order(b"", b""), 0);
}

#[test]
fn merge_takes_the_changes_first() {
    let a = vec![(b"a".to_vec(), 1), (b"c".to_vec(), 3), (b"e".to_vec(), 5)];
    let b = vec![(b"b".to_vec(), 2), (b"c".to_vec(), 30)];
    let m = merge_sorted(&a, &b);
    assert_eq!(m, vec![(b"a".to_vec(), 1), (b"b".to_vec(), 2), (b"c".to_vec(), 30), (b"e".to_vec(), 5)]);
    assert_eq!(merge_sorted(&vec![], &b), b);
    assert_eq!(merge_sorted(&a, &vec![]), a);
}

#[test]
fn hyphenator_looks_words_up_in_lower_case() {
    let mut h = Hyphenator::empty();
    assert!(h.get("Hyphen").is_none());
    let hs = Hyphens::default().shl(Hyphen::at(3));
    h.add("hyphen".to_string(), hs);
    assert_eq!(h.get("Hyphen").map(|x| x.to_packed()), Some(3));
    assert_eq!(h.get("hyphen").map(|x| x.to_packed()), Some(3));
    // a word added in upper case is not found
    h.add("Word".to_string(), hs);
    assert!(h.get("Word").is_none());
}

#[test]
fn hyphenator_saves_only_with_changes() {
    let h = Hyphenator::empty();
    assert!(h.save_bytes().is_none());
}

#[test]
fn hyphenator_round_trip() {
    let mut h = Hyphenator::empty();
    h.add_hyphen_list(&vec!["hy|phen".to_string(), "ta|ble".to_string(), "al|pha".to_string()]);
    let bytes = h.save_bytes().unwrap().unwrap();
    let mut loaded = Hyphenator::load(bytes).ok().unwrap();
    assert_eq!(loaded.get("table").map(|x| x.to_packed()), Some(2));
    assert_eq!(loaded.get("HYPHEN").map(|x| x.to_packed()), Some(2));
    assert_eq!(loaded.get("alpha").map(|x| x.to_packed()), Some(2));
    assert!(loaded.get("beta").is_none());
    // a change wins over what is stored, and is kept on the next save
    loaded.add("table".to_string(), Hyphens::default().shl(Hyphen::at(1)));
    assert_eq!(loaded.get("table").map(|x| x.to_packed()), Some(1));
    let bytes = loaded.save_bytes().unwrap().unwrap();
    let again = Hyphenator::load(bytes).ok().unwrap();
    assert_eq!(again.get("table").map(|x| x.to_packed()), Some(1));
    assert_eq!(again.get("alpha").map(|x| x.to_packed()), Some(2));
}

#[test]
fn loading_garbage_fails() {
    assert!(Hyphenator::load(vec![1, 2, 3]).is_err());
}

#[test]
fn hyphenator_with_changes_saves_valid_bytes() {
    let mut h = Hyphenator::empty();
    assert!(!h.changed());
    h.add("word".to_string(), Hyphens::default().shl(Hyphen::at(2)));
    assert!(h.changed());
    let bytes = match h.save_bytes() {
        Some(Ok(bytes)) => bytes,
        _ => panic!("saving a hyphenator with changes gives bytes"),
    };
    let loaded = Hyphenator::load(bytes).ok().unwrap();
    assert!(!loaded.changed());
    assert_eq!(loaded.get("word").map(|x| x.to_packed()), Some(2));
}
