use thread_affinity::cpuset::{
    BIT_ISSET, BIT_SET, CPU_ISSET, CPU_SET, CPU_SETSIZE, CPU_WORDS, CPU_ZERO, CpuSet,
    _BITSET_BITS,
};

#[test]
fn new_set_is_empty() {
    let s = CpuSet::new();
    assert_eq!(s.words().len(), CPU_WORDS);
    for w in s.words() {
        assert_eq!(*w, 0u64);
    }
    for n in 0..CPU_SETSIZE {
        assert!(!CPU_ISSET(n, &s));
    }
}

#[test]
fn bit_addressing_round_trip() {
    for n in 0..CPU_SETSIZE {
        let mut s = CpuSet::new();
        CPU_SET(n, &mut s);
        for m in 0..CPU_SETSIZE {
            assert_eq!(CPU_ISSET(m, &s), m == n);
        }
    }
}

#[test]
fn single_word_degeneration() {
    for n in 0.._BITSET_BITS {
        let mut s = CpuSet::new();
        BIT_SET(_BITSET_BITS, n, &mut s);
        for m in 0.._BITSET_BITS {
            assert_eq!(BIT_ISSET(_BITSET_BITS, m, &s), m == n);
        }
        assert_eq!(s.words()[0], 1u64 << n);
        for w in 1..CPU_WORDS {
            assert_eq!(s.words()[w], 0u64);
        }
    }
}

#[test]
fn boundary_bits_land_in_correct_words() {
    let mut s = CpuSet::new();
    CPU_SET(0, &mut s);
    assert_eq!(s.words()[0], 1u64);
    assert_eq!(s.words()[1], 0u64);
    assert_eq!(s.words()[2], 0u64);
    assert_eq!(s.words()[3], 0u64);

    let mut t = CpuSet::new();
    CPU_SET(CPU_SETSIZE - 1, &mut t);
    assert_eq!(t.words()[0], 0u64);
    assert_eq!(t.words()[1], 0u64);
    assert_eq!(t.words()[2], 0u64);
    assert_eq!(t.words()[3], 1u64 << 63);

    CPU_SET(0, &mut t);
    assert_eq!(t.words()[0], 1u64);
    assert_eq!(t.words()[3], 1u64 << 63);
    assert!(CPU_ISSET(0, &t));
    assert!(CPU_ISSET(CPU_SETSIZE - 1, &t));
    assert!(!CPU_ISSET(1, &t));
    assert!(!CPU_ISSET(CPU_SETSIZE - 2, &t));
}

#[test]
fn set_bit_twice_is_set_bit_once() {
    let mut once = CpuSet::new();
    CPU_SET(7, &mut once);
    let mut twice = CpuSet::new();
    CPU_SET(7, &mut twice);
    CPU_SET(7, &mut twice);
    assert_eq!(once.words(), twice.words());
}

#[test]
fn zero_clears_every_word() {
    let mut s = CpuSet::new();
    CPU_SET(5, &mut s);
    CPU_SET(200, &mut s);
    assert!(CPU_ISSET(5, &s));
    assert!(CPU_ISSET(200, &s));
    CPU_ZERO(&mut s);
    for w in s.words() {
        assert_eq!(*w, 0u64);
    }
    for n in 0..CPU_SETSIZE {
        assert!(!CPU_ISSET(n, &s));
    }
}

#[test]
fn from_words_round_trip() {
    let s = CpuSet::from_words(vec![1u64, 2u64, 3u64, 4u64]).unwrap();
    assert_eq!(s.words(), &vec![1u64, 2u64, 3u64, 4u64]);
}

#[test]
fn from_words_rejects_wrong_length() {
    assert!(CpuSet::from_words(vec![0u64; 3]).is_none());
    assert!(CpuSet::from_words(vec![0u64; 5]).is_none());
    assert!(CpuSet::from_words(Vec::new()).is_none());
}
