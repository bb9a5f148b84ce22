use cw_zodiatic::bitmap::BitMap;

#[test]
fn set_grows_and_round_trips() {
    let mut b = BitMap::new();
    b.set(0);
    b.set(40);
    b.set(5);
    assert_eq!(b.iter_ones(), vec![0, 5, 40]);
    // Serialized word form, reloaded, yields the identical set bits.
    let words = b.clone().into_vec();
    assert_eq!(words.len(), 2);
    let reloaded = BitMap::from_vec(words);
    assert_eq!(reloaded.iter_ones(), vec![0, 5, 40]);
}

#[test]
fn ones_has_exactly_len_bits() {
    assert_eq!(BitMap::ones(5).iter_ones(), vec![0, 1, 2, 3, 4]);
    assert_eq!(BitMap::ones(0).iter_ones(), Vec::<usize>::new());
    assert_eq!(BitMap::ones(33).iter_ones().len(), 33);
}

#[test]
fn from_vec_reads_words_least_significant_first() {
    let b = BitMap::from_vec(vec![5u32, 1u32]);
    assert_eq!(b.iter_ones(), vec![0, 2, 32]);
}

#[test]
fn or_zero_extends_the_shorter_operand() {
    let mut a = BitMap::new();
    a.set(1);
    let mut b = BitMap::new();
    b.set(40);
    a.or(b);
    assert_eq!(a.iter_ones(), vec![1, 40]);
}

#[test]
fn and_zero_extends_the_shorter_operand() {
    let mut a = BitMap::ones(3);
    let mut b = BitMap::new();
    b.set(1);
    b.set(5);
    a.and(b);
    assert_eq!(a.iter_ones(), vec![1]);
}

#[test]
fn xor_is_symmetric_difference() {
    let mut a = BitMap::new();
    a.set(0);
    a.set(1);
    let mut b = BitMap::new();
    b.set(1);
    b.set(2);
    a.xor(b);
    assert_eq!(a.iter_ones(), vec![0, 2]);
}

#[test]
fn and_not_clears_exactly_the_given_bits() {
    let mut a = BitMap::new();
    a.set(0);
    a.set(1);
    a.set(2);
    let mut b = BitMap::new();
    b.set(1);
    a.and_not(b);
    assert_eq!(a.iter_ones(), vec![0, 2]);

    // An excluded bit beyond the operand's length changes nothing.
    let mut c = BitMap::ones(3);
    let mut d = BitMap::new();
    d.set(5);
    c.and_not(d);
    assert_eq!(c.iter_ones(), vec![0, 1, 2]);
}

#[test]
fn word_boundaries() {
    // Exactly one word of ones.
    assert_eq!(BitMap::ones(32).iter_ones().len(), 32);
    assert_eq!(BitMap::ones(32).into_vec(), vec![u32::MAX]);
    // A partial last word is padded with zeros.
    assert_eq!(BitMap::ones(3).into_vec(), vec![0b111]);
    // Bits on either side of a word boundary.
    let mut b = BitMap::new();
    b.set(31);
    b.set(32);
    assert_eq!(b.iter_ones(), vec![31, 32]);
    assert_eq!(b.into_vec(), vec![1 << 31, 1]);
}

#[test]
fn default_is_empty() {
    let b = BitMap::default();
    assert_eq!(b.iter_ones(), Vec::<usize>::new());
}
