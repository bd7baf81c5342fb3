use inc_exc::counters::bignum::BigCounter;
use inc_exc::counters::Counter;

#[test]
fn equal_powers() {
    let mut counter = BigCounter::new(0);
    counter.add(1);
    assert!(counter.equal(1));
    counter = BigCounter::new(0);
    counter.add(1);
    counter.add(1);
    assert!(counter.equal(2));
    counter.add(2);
    assert!(counter.equal(3));
    counter = BigCounter::new(0);
    assert!(!counter.equal(0));
    counter.add(0);
    assert!(counter.equal(0));
}

#[test]
fn zero_is_no_power() {
    let counter = BigCounter::new(256);
    assert!(!counter.equal(0));
    assert!(!counter.equal(100));
    assert!(counter.less_than(100));
}

#[test]
fn less_than_powers() {
    let mut counter = BigCounter::new(0);
    assert!(counter.less_than(0));
    counter.add(0);
    assert!(!counter.less_than(0));
    counter.add(0);
    assert!(!counter.less_than(0));
    let mut counter = BigCounter::new(0);
    counter.sub(1);
    assert!(counter.less_than(0));
    counter.sub(99);
    assert!(counter.less_than(4));
}

#[test]
fn add_large_power() {
    let mut counter = BigCounter::new(0);
    counter.add(128);
    assert!(counter.equal(128));
    assert_eq!(counter.to_words(), vec![0, 0, 1]);
}

#[test]
fn subtract_then_refill() {
    let mut counter = BigCounter::new(0);
    counter.sub(128);
    assert!(counter.is_negative());
    counter.add(127);
    counter.add(126);
    counter.add(126);
    counter.add(1);
    assert!(counter.equal(1));
    assert!(!counter.is_negative());
}

#[test]
fn carry_across_words() {
    let mut counter = BigCounter::new(64);
    for _ in 0..2 {
        counter.add(63);
    }
    assert!(counter.equal(64));
    assert_eq!(counter.to_words(), vec![0, 1]);
    counter.sub(0);
    assert_eq!(counter.to_words(), vec![u64::MAX, 0]);
    assert!(counter.less_than(64));
    assert!(!counter.less_than(63));
}

#[test]
fn crossing_zero_flips_sign() {
    let mut counter = BigCounter::new(0);
    counter.add(3);
    counter.sub(4);
    assert!(counter.is_negative());
    // -8 + 8 is zero under a negative flag
    counter.add(3);
    assert!(!counter.equal(0));
    assert!(counter.less_than(0));
    counter.add(0);
    assert!(counter.equal(0));
}

// A fixed-width two's-complement reference over 6 words.
fn reference_step(words: &mut [u64; 6], k: u32, add: bool) {
    let mut index = (k / 64) as usize;
    let bit = 1u64 << (k % 64);
    if add {
        let (v, mut carry) = words[index].overflowing_add(bit);
        words[index] = v;
        while carry && index + 1 < 6 {
            index += 1;
            let (v, c) = words[index].overflowing_add(1);
            words[index] = v;
            carry = c;
        }
    } else {
        let (v, mut borrow) = words[index].overflowing_sub(bit);
        words[index] = v;
        while borrow && index + 1 < 6 {
            index += 1;
            let (v, b) = words[index].overflowing_sub(1);
            words[index] = v;
            borrow = b;
        }
    }
}

fn as_twos_complement(counter: &BigCounter) -> [u64; 6] {
    let mut out = [0u64; 6];
    for (i, w) in counter.to_words().iter().enumerate() {
        if i < 6 {
            out[i] = *w;
        } else {
            assert_eq!(*w, 0);
        }
    }
    if counter.is_negative() {
        for w in out.iter_mut() {
            *w = !*w;
        }
        let mut i = 0;
        loop {
            let (v, c) = out[i].overflowing_add(1);
            out[i] = v;
            if !c || i == 5 {
                break;
            }
            i += 1;
        }
    }
    out
}

#[test]
fn matches_reference_arithmetic() {
    let mut counter = BigCounter::new(256);
    let mut reference = [0u64; 6];
    let mut state: u64 = 0x2545_F491_4F6C_DD1D;
    for _ in 0..4000 {
        state ^= state << 13;
        state ^= state >> 7;
        state ^= state << 17;
        let k = (state % 256) as u32;
        let add = (state >> 40) % 2 == 0;
        if add {
            counter.add(k);
        } else {
            counter.sub(k);
        }
        reference_step(&mut reference, k, add);
        assert_eq!(as_twos_complement(&counter), reference);
    }
}

#[test]
fn equality_of_values() {
    let mut a = BigCounter::new(0);
    a.add(64);
    a.add(64);
    a.sub(65);
    let b = BigCounter::new(0);
    assert!(a == b);
    let mut c = BigCounter::new(0);
    c.sub(3);
    c.add(3);
    assert!(c.is_negative());
    assert!(c == b);
    let mut d = BigCounter::new(0);
    d.add(5);
    let mut e = BigCounter::new(0);
    e.sub(5);
    assert!(d != e);
    e.add(6);
    assert!(d == e);
    d.add(200);
    assert!(d != e);
}

#[test]
fn far_bit() {
    let mut counter = BigCounter::new(4096);
    counter.add(4095);
    assert!(counter.equal(4095));
    assert!(counter.less_than(4096));
    assert!(!counter.less_than(4095));
    counter.sub(4095);
    assert!(counter.less_than(0));
    assert!(!counter.equal(4095));
    assert!(counter == BigCounter::new(0));
}

#[test]
fn words_grow_only_on_carry() {
    let mut counter = BigCounter::new(0);
    assert_eq!(counter.to_words(), vec![0]);
    counter.add(0);
    counter.add(0);
    assert_eq!(counter.to_words(), vec![2]);
    counter.add(63);
    assert_eq!(counter.to_words(), vec![(1u64 << 63) + 2]);
    counter.add(63);
    assert_eq!(counter.to_words(), vec![2, 1]);
    counter.add(130);
    assert_eq!(counter.to_words(), vec![2, 1, 4]);
}
