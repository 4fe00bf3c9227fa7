//! The suffix array against a naive sort of all suffixes.

use xpatchlib_core::sais::suffix_array;
use xpatchlib_core::suffix_check::{is_suffix_array, sort_suffixes};

fn naive_suffix_array(data: &[u8]) -> Vec<i32> {
    let mut sa: Vec<i32> = (0..data.len() as i32).collect();
    sa.sort_by(|&a, &b| data[a as usize..].cmp(&data[b as usize..]));
    sa
}

fn check(data: &[u8]) {
    let sa = suffix_array(data);
    let want = naive_suffix_array(data);
    assert_eq!(
        sa.len(),
        want.len() + 1,
        "len={} length mismatch",
        data.len()
    );
    assert_eq!(sa[0], data.len() as i32, "len={} empty suffix first", data.len());
    for i in 0..want.len() {
        assert_eq!(
            sa[i + 1],
            want[i],
            "len={} entry {} mismatch",
            data.len(),
            i
        );
    }
}

#[test]
fn against_naive_sorted_inputs() {
    for s in [
        &b""[..],
        b"a",
        b"aa",
        b"ab",
        b"ba",
        b"banana",
        b"mississippi",
        b"aaaaaaaaaa",
        b"abcabcabcabc",
    ] {
        check(s);
    }
}

#[test]
fn against_naive_random_inputs() {
    let mut state = 0x9E3779B97F4A7C15u64;
    let mut next = move || {
        state ^= state << 13;
        state ^= state >> 7;
        state ^= state << 17;
        state
    };
    for &alphabet in &[2usize, 3, 4, 16, 256] {
        for &size in &[1usize, 2, 3, 5, 8, 13, 21, 34, 55, 89, 144, 233, 377, 610] {
            let mut data = vec![0u8; size];
            for b in data.iter_mut() {
                *b = (next() % alphabet as u64) as u8;
            }
            check(&data);
        }
        let mut data = vec![0u8; 5000];
        for b in data.iter_mut() {
            *b = (next() % alphabet as u64) as u8;
        }
        check(&data);
    }
}

#[test]
fn banana_suffix_order() {
    // "banana": $, a$, ana$, anana$, banana$, na$, nana$
    assert_eq!(suffix_array(b"banana"), vec![6, 5, 3, 1, 0, 4, 2]);
}

#[test]
fn empty_input_has_only_the_empty_suffix() {
    assert_eq!(suffix_array(b""), vec![0]);
}

#[test]
fn certificate_accepts_only_the_suffix_array() {
    let banana = shifted(b"banana");
    assert!(is_suffix_array(&banana, &vec![6, 5, 3, 1, 0, 4, 2]));
    assert!(!is_suffix_array(&banana, &vec![6, 5, 3, 1, 0, 2, 4]));
    assert!(!is_suffix_array(&banana, &vec![6, 5, 3, 1, 0, 4, 4]));
    assert!(!is_suffix_array(&banana, &vec![5, 6, 3, 1, 0, 4, 2]));
    assert!(!is_suffix_array(&banana, &vec![6, 5, 3, 1, 0, 4, 9]));
    let mississippi = shifted(b"mississippi");
    assert!(is_suffix_array(
        &mississippi,
        &vec![11, 10, 7, 4, 1, 0, 9, 8, 6, 3, 5, 2]
    ));
}

/// The integer text of `data`: every byte shifted up by one.
fn shifted(data: &[u8]) -> Vec<i32> {
    data.iter().map(|&b| b as i32 + 1).collect()
}

#[test]
fn comparison_sort_agrees_with_sais() {
    assert_eq!(sort_suffixes(&shifted(b"banana")), vec![6, 5, 3, 1, 0, 4, 2]);
    assert_eq!(sort_suffixes(&[]), vec![0]);
    for s in [&b"mississippi"[..], b"aaaaaaaaaa", b"abcabcabcabc"] {
        assert_eq!(sort_suffixes(&shifted(s)), suffix_array(s));
    }
}
