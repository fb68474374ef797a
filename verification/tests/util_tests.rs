use lib::util::{IdMapper, NonMaxUsize};

#[test]
fn nonmax_round_trip() {
    for v in [0usize, 1, 17, usize::MAX - 1] {
        assert_eq!(NonMaxUsize::new(v).map(|n| n.get()), Some(v));
    }
    assert!(NonMaxUsize::new(usize::MAX).is_none());
    assert_eq!(NonMaxUsize::new_unchecked(5).get(), 5);
}

#[test]
fn nonmax_debug_shows_value() {
    assert_eq!(format!("{:?}", NonMaxUsize::new(3).unwrap()), "NonMaxUsize(3)");
}

#[test]
fn empty_id_mapper_has_nothing() {
    let m: IdMapper<u8> = IdMapper::new();
    assert!(m.iter().is_empty());
    let m: IdMapper<u8> = IdMapper::with_capacity(10);
    assert!(m.iter().is_empty());
}

#[test]
fn id_mapper_push_get_take() {
    let mut m: IdMapper<char> = IdMapper::new();
    let a = m.push('a');
    let b = m.push('b');
    let c = m.push('c');
    assert_ne!(a, b);
    assert_eq!(m.get(a), Some(&'a'));
    assert_eq!(m.get(b), Some(&'b'));
    assert_eq!(m.take(a), Some('a'));
    assert_eq!(m.get(a), None);
    assert_eq!(m.take(a), None);
    assert_eq!(m.get(b), Some(&'b'));
    assert_eq!(m.get(c), Some(&'c'));
    if let Some(x) = m.get_mut(b) {
        *x = 'z';
    }
    assert_eq!(m.get(b), Some(&'z'));
    let mut all: Vec<char> = m.iter().into_iter().copied().collect();
    all.sort();
    assert_eq!(all, vec!['c', 'z']);
    let d = m.push('d');
    assert_ne!(d, a);
    assert_eq!(m.get(d), Some(&'d'));
}
