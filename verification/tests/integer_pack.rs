use newyearseve_formula::integer_pack::unpack;
use newyearseve_formula::unpack::UnpackIterator;

#[test]
fn integer_pack_test_01() {
    let mut ip = unpack(0b11_00_01_10_11_00, 4, 6);
    assert_eq!(ip.next(), Some(0));
    assert_eq!(ip.next(), Some(3));
    assert_eq!(ip.next(), Some(2));
    assert_eq!(ip.next(), Some(1));
    assert_eq!(ip.next(), Some(0));
    assert_eq!(ip.next(), Some(3));
    assert_eq!(ip.next(), None);
}

#[test]
fn integer_pack_test_02() {
    let mut ip = unpack(1 + 2 * 3 + 0 * 9 + 2 * 27 + 1 * 81, 3, 6);
    assert_eq!(ip.next(), Some(1));
    assert_eq!(ip.next(), Some(2));
    assert_eq!(ip.next(), Some(0));
    assert_eq!(ip.next(), Some(2));
    assert_eq!(ip.next(), Some(1));
    assert_eq!(ip.next(), Some(0));
    assert_eq!(ip.next(), None);
}

fn digits(value: usize, base: usize, length: usize) -> Vec<usize> {
    let mut ip = unpack(value, base, length);
    let mut out = Vec::new();
    while let Some(d) = ip.next() {
        out.push(d);
    }
    out
}

fn encode(digits: &[usize], base: usize) -> usize {
    let mut value = 0;
    for d in digits.iter().rev() {
        value = value * base + d;
    }
    value
}

#[test]
fn unpack_stays_exhausted() {
    let mut ip = unpack(5, 2, 2);
    assert_eq!(ip.next(), Some(1));
    assert_eq!(ip.next(), Some(0));
    assert_eq!(ip.next(), None);
    assert_eq!(ip.next(), None);
}

#[test]
fn unpack_pads_with_zeros() {
    assert_eq!(digits(5, 10, 4), vec![5, 0, 0, 0]);
    assert_eq!(digits(0, 7, 3), vec![0, 0, 0]);
}

#[test]
fn unpack_drops_high_digits() {
    assert_eq!(digits(12345, 10, 2), vec![5, 4]);
}

#[test]
fn unpack_base_zero_is_empty() {
    assert_eq!(digits(12, 0, 5), Vec::<usize>::new());
    assert_eq!(digits(0, 0, 0), Vec::<usize>::new());
}

#[test]
fn unpack_length_zero_is_empty() {
    assert_eq!(digits(12, 5, 0), Vec::<usize>::new());
}

#[test]
fn unpack_base_one() {
    assert_eq!(digits(12, 1, 3), vec![0, 0, 0]);
}

#[test]
fn unpack_round_trip() {
    for base in 1..6usize {
        for length in 0..5u32 {
            for value in 0..base.pow(length) {
                let d = digits(value, base, length as usize);
                assert_eq!(d.len(), length as usize);
                assert!(d.iter().all(|x| *x < base));
                assert_eq!(encode(&d, base), value);
            }
        }
    }
}

#[test]
fn unpack_is_injective() {
    let base = 3;
    let length = 4;
    let all: Vec<Vec<usize>> = (0..81).map(|v| digits(v, base, length)).collect();
    for i in 0..all.len() {
        for j in 0..all.len() {
            if i != j {
                assert_ne!(all[i], all[j]);
            }
        }
    }
}

#[test]
fn unpack_iterator_reads_digits() {
    let mut it = UnpackIterator::init(0b11_00_01_10_11_00, 4, 6);
    assert_eq!(it.next(), Some(0));
    assert_eq!(it.next(), Some(3));
    assert_eq!(it.next(), Some(2));
    assert_eq!(it.next(), Some(1));
    assert_eq!(it.next(), Some(0));
    assert_eq!(it.next(), Some(3));
    assert_eq!(it.next(), None);
    assert_eq!(it.next(), None);
}

#[test]
fn unpack_iterator_base_zero_is_empty() {
    let mut it = UnpackIterator::init(9, 0, 3);
    assert_eq!(it.next(), None);
}

#[test]
fn unpack_iterator_matches_unpack() {
    for value in 0..200usize {
        let mut a = unpack(value, 6, 4);
        let mut b = UnpackIterator::init(value, 6, 4);
        for _ in 0..5 {
            assert_eq!(a.next(), b.next());
        }
    }
}
