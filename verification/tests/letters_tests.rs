use sfwsvm::fchar::{CharSet, CharSetIter, FChar, FULL_MASK};

#[test]
fn letters_map_case_insensitively() {
    assert_eq!(FChar::from_char('a').unwrap().value(), 1);
    assert_eq!(FChar::from_char('A').unwrap().value(), 1);
    assert_eq!(FChar::from_char('z').unwrap().value(), 26);
    assert_eq!(FChar::from_char('Z').unwrap().value(), 26);
    assert!(FChar::from_char('1').is_err());
    assert!(FChar::from_char(' ').is_err());
    assert!(FChar::from_char('é').is_err());
}

#[test]
fn letter_to_char_roundtrip() {
    for v in 1..=26u8 {
        let f = FChar::new(v);
        let c = f.to_char();
        assert_eq!(FChar::from_char(c).unwrap().value(), v);
    }
    assert_eq!(FChar::new(2).to_char(), 'b');
}

#[test]
fn full_set_contains_every_letter() {
    let full = CharSet::full();
    for v in 1..=26u8 {
        assert!(full.check(FChar::new(v)));
    }
    assert_eq!(full.bits(), FULL_MASK);
    assert_eq!(full.bits(), 0x07FF_FFFE);
}

#[test]
fn set_and_clear_one_letter() {
    for v in 1..=26u8 {
        let c = FChar::new(v);
        let single = CharSet::empty().set(c);
        assert!(single.check(c));
        for w in 1..=26u8 {
            if w != v {
                assert!(!single.check(FChar::new(w)));
            }
        }
        assert_eq!(single.clear(c).bits(), 0);
    }
}

#[test]
fn intersect_keeps_common_letters() {
    let a = FChar::from_char('a').unwrap();
    let b = FChar::from_char('b').unwrap();
    let c = FChar::from_char('c').unwrap();
    let ab = CharSet::empty().set(a).set(b);
    let bc = CharSet::empty().set(b).set(c);
    let both = ab.intersect(bc);
    assert!(!both.check(a));
    assert!(both.check(b));
    assert!(!both.check(c));
}

#[test]
fn members_lists_letters_in_order() {
    let a = FChar::from_char('a').unwrap();
    let m = FChar::from_char('m').unwrap();
    let z = FChar::from_char('z').unwrap();
    let s = CharSet::empty().set(z).set(a).set(m);
    let members = s.members();
    let values: Vec<u8> = members.iter().map(|f| f.value()).collect();
    assert_eq!(values, vec![1, 13, 26]);
    assert_eq!(CharSet::empty().members().len(), 0);
}

#[test]
fn iterator_walks_members_in_order() {
    let s = CharSet::empty()
        .set(FChar::from_char('b').unwrap())
        .set(FChar::from_char('y').unwrap());
    let mut it = CharSetIter::new(s);
    assert_eq!(it.next().map(|f| f.value()), Some(2));
    assert_eq!(it.next().map(|f| f.value()), Some(25));
    assert_eq!(it.next(), None);
}

#[test]
fn bits_roundtrip() {
    let s = CharSet::from_bits(0b1010);
    assert_eq!(s.bits(), 0b1010);
    assert!(s.check(FChar::new(1)));
    assert!(!s.check(FChar::new(2)));
    assert!(s.check(FChar::new(3)));
}
