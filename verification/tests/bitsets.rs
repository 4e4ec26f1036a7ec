use lalrgen::parser::bitset::BitSet;
use lalrgen::parser::token_set::TokenSet;

fn bitset_to_vec(set: &BitSet) -> Vec<usize> {
    let mut out = Vec::new();
    let mut it = set.iter();
    while let Some(b) = it.next() {
        out.push(b);
    }
    out
}

fn token_set_to_vec(set: &TokenSet) -> Vec<u32> {
    let mut out = Vec::new();
    let mut it = set.iter();
    while let Some(b) = it.next() {
        out.push(b);
    }
    out
}

#[test]
fn bitset_insert() {
    let mut set = BitSet::new(15);

    set.insert(7);
    set.insert(3);
    set.insert(7);
    set.insert(14);

    let vec = bitset_to_vec(&set);

    assert_eq!(vec, vec![3, 7, 14]);
}

#[test]
fn token_set_insert() {
    let mut set = TokenSet::new(15);

    set.insert(7);
    set.insert(3);
    set.insert(7);
    set.insert(14);

    let vec = token_set_to_vec(&set);

    assert_eq!(vec, vec![3, 7, 14]);
}

#[test]
fn bitset_get_and_clear() {
    let mut set = BitSet::new(70);
    set.insert(0);
    set.insert(69);
    assert!(set.get(0));
    assert!(!set.get(1));
    assert!(set.get(69));
    set.clear();
    assert_eq!(bitset_to_vec(&set), Vec::<usize>::new());
}

#[test]
fn bitset_from_bit() {
    let set = BitSet::from_bit(40, 17);
    assert_eq!(bitset_to_vec(&set), vec![17]);
}

#[test]
fn bitset_union_reports_change() {
    let mut a = BitSet::new(10);
    let mut b = BitSet::new(10);
    a.insert(2);
    b.insert(2);
    b.insert(5);
    // 5 is new to a: the union reports a change
    assert!(a.union_with(&b));
    assert_eq!(bitset_to_vec(&a), vec![2, 5]);
    // nothing new the second time: fixpoints stop on this signal
    assert!(!a.union_with(&b));
    assert_eq!(bitset_to_vec(&a), vec![2, 5]);
}

#[test]
fn token_set_union_reports_change() {
    let mut a = TokenSet::new(130);
    let mut b = TokenSet::new(130);
    a.insert(129);
    b.insert(0);
    assert!(a.union_with(&b));
    assert!(!a.union_with(&b));
    assert_eq!(token_set_to_vec(&a), vec![0, 129]);
    assert!(a.get(129));
    assert!(!a.get(64));
}

#[test]
fn token_set_from_token() {
    let set = TokenSet::from_token(5, 4);
    assert_eq!(token_set_to_vec(&set), vec![4]);
}
