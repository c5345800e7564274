use sfwsvm::fchar::FChar;
use sfwsvm::oracle::{Oracle, PartialWord, Word, SIZE};

fn word(s: &str) -> Word {
    Word::from_bytes(&s.as_bytes().to_vec()).unwrap()
}

fn partial(s: &str) -> PartialWord {
    let mut pw = PartialWord::empty();
    for (i, c) in s.chars().enumerate() {
        pw.fill(i, FChar::from_char(c).unwrap());
    }
    pw
}

#[test]
fn words_need_exactly_ten_letters() {
    assert!(Word::from_bytes(&b"helloworld".to_vec()).is_some());
    assert!(Word::from_bytes(&b"HelloWorld".to_vec()).is_some());
    assert!(Word::from_bytes(&b"hello".to_vec()).is_none());
    assert!(Word::from_bytes(&b"hello-word".to_vec()).is_none());
    assert!(Word::from_bytes(&b"helloworlds".to_vec()).is_none());
    assert!(Word::from_bytes(&Vec::new()).is_none());
}

#[test]
fn word_letters_are_case_folded() {
    let w = word("HelloWorld");
    let expected = [8u8, 5, 12, 12, 15, 23, 15, 18, 12, 4];
    for (i, v) in expected.iter().enumerate() {
        assert_eq!(w.letter(i).value(), *v);
    }
}

#[test]
fn oracle_registers_every_strict_prefix() {
    let words = vec![word("helloworld")];
    let oracle = Oracle::build(&words);
    // The all-blank word maps to the set of observed first letters.
    let first = oracle.lookup(&partial(""));
    assert!(first.check(FChar::from_char('h').unwrap()));
    assert!(!first.check(FChar::from_char('a').unwrap()));
    // Each longer prefix maps to the single letter that followed it.
    for k in 1..SIZE {
        let set = oracle.lookup(&partial(&"helloworld"[..k]));
        let next = FChar::from_char("helloworld".as_bytes()[k] as char).unwrap();
        assert!(set.check(next));
    }
    // An unobserved prefix maps to the empty set.
    assert_eq!(oracle.lookup(&partial("x")).bits(), 0);
    assert_eq!(oracle.lookup(&partial("he")).members().len(), 1);
}

#[test]
fn oracle_merges_letters_for_shared_prefixes() {
    let words = vec![word("aaaaaaaaaa"), word("abaaaaaaaa")];
    let oracle = Oracle::build(&words);
    let after_a = oracle.lookup(&partial("a"));
    assert!(after_a.check(FChar::from_char('a').unwrap()));
    assert!(after_a.check(FChar::from_char('b').unwrap()));
    assert_eq!(after_a.members().len(), 2);
    let blank = oracle.lookup(&PartialWord::empty());
    assert_eq!(blank.members().len(), 1);
}

#[test]
fn repeated_word_gives_single_letter_oracle() {
    // A corpus of one repeated word: the all-blank partial word maps to
    // exactly that word's first letter.
    let words = vec![word("bbbbbbbbbb"), word("bbbbbbbbbb")];
    let oracle = Oracle::build(&words);
    let blank = oracle.lookup(&PartialWord::empty());
    let b = FChar::from_char('b').unwrap();
    assert!(blank.check(b));
    assert_eq!(blank.members().len(), 1);
}

#[test]
fn partial_word_slots_and_fill() {
    let mut pw = PartialWord::empty();
    for i in 0..SIZE {
        assert_eq!(pw.slot(i), 0);
    }
    pw.fill(0, FChar::from_char('c').unwrap());
    pw.fill(1, FChar::from_char('a').unwrap());
    assert_eq!(pw.slot(0), 3);
    assert_eq!(pw.slot(1), 1);
    assert_eq!(pw.slot(2), 0);
}

#[test]
fn prefixes_of_a_word() {
    let w = word("helloworld");
    let pw = PartialWord::from_word_prefix(&w, 3);
    assert_eq!(pw.slot(0), 8);
    assert_eq!(pw.slot(1), 5);
    assert_eq!(pw.slot(2), 12);
    assert_eq!(pw.slot(3), 0);
    let full = PartialWord::from_word_prefix(&w, SIZE);
    assert_eq!(full.slot(9), 4);
}

#[test]
fn distinct_partial_words_get_distinct_keys() {
    let w = word("helloworld");
    let mut keys: Vec<u64> = (0..=SIZE)
        .map(|k| PartialWord::from_word_prefix(&w, k).encode_key())
        .collect();
    keys.sort_unstable();
    keys.dedup();
    assert_eq!(keys.len(), SIZE + 1);
    assert_eq!(PartialWord::empty().encode_key(), 0);
}
