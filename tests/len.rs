use std::iter::repeat_n;

use fasted::len::calculate_mmax;
use fasted::slice_str::SliceStr;

#[test]
fn test_speq_calculate_mmax_0() {
    let data: Vec<SliceStr> = Vec::new();
    let mmax = calculate_mmax(data.as_slice());

    assert_eq!(mmax, 0);
}

#[test]
fn test_speq_calculate_mmax_1_1025() {
    let strings: Vec<Vec<u8>> = (0..1024)
        .map(|x| repeat_n(b'a', x).collect::<Vec<u8>>())
        .collect();

    let slices: Vec<SliceStr> = strings.iter().map(|s| SliceStr::from(s.as_slice())).collect();

    for m in 1..1025 {
        let d = &slices[0..m];

        let mmax = calculate_mmax(d);

        let n = d
            .iter()
            .max_by_key(|x| x.len())
            .expect("Could not get max")
            .len();

        assert_eq!(mmax, n);
    }
}

#[test]
fn mmax_takes_longest_anywhere_in_batch() {
    let strings: Vec<&[u8]> = vec![b"abc", b"", b"abcdefg", b"xy"];
    let slices: Vec<SliceStr> = strings.iter().map(|s| SliceStr::new(s)).collect();
    assert_eq!(calculate_mmax(&slices), 7);
}

#[test]
fn mmax_of_single_empty_string_is_zero() {
    let strings: Vec<&[u8]> = vec![b""];
    let slices: Vec<SliceStr> = strings.iter().map(|s| SliceStr::new(s)).collect();
    assert_eq!(calculate_mmax(&slices), 0);
}

#[test]
fn mmax_is_the_same_when_asked_twice() {
    let strings: Vec<&[u8]> = vec![b"hello", b"hi", b"greetings"];
    let slices: Vec<SliceStr> = strings.iter().map(|s| SliceStr::new(s)).collect();
    let first = calculate_mmax(&slices);
    let second = calculate_mmax(&slices);
    assert_eq!(first, 9);
    assert_eq!(first, second);
}
