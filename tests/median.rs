use quickmedian::entropy::{pivot_index, rand, SelectError};
use quickmedian::median::{median, Median};
use quickmedian::select::{partition, select};

fn sorted_copy(v: &[i64]) -> Vec<i64> {
    let mut s = v.to_vec();
    s.sort();
    s
}

#[test]
fn empty_list() {
    let input = &mut vec![];
    let expected_output = Err(SelectError::EmptyInput);
    let actual_output = median(input);
    assert_eq!(actual_output, expected_output);
}

#[test]
fn sorted_list() {
    let input = &mut vec![1, 4, 5];
    let expected_output = Ok(Median::Middle(4));
    let actual_output = median(input);
    assert_eq!(actual_output, expected_output);
}

#[test]
fn even_length() {
    let input = &mut vec![1, 3, 5, 6];
    let expected_output = Ok(Median::Mean(3, 5));
    let actual_output = median(input);
    assert_eq!(actual_output, expected_output);
    assert_eq!(actual_output.unwrap().doubled(), 2 * 4);
}

#[test]
fn unsorted_list() {
    let input = &mut vec![1, 5, 2];
    let expected_output = Ok(Median::Middle(2));
    let actual_output = median(input);
    assert_eq!(actual_output, expected_output);
}

#[test]
fn five_values() {
    let mut input = vec![7, 2, 3, 5, 10];
    assert_eq!(median(&mut input), Ok(Median::Middle(5)));
}

#[test]
fn single_value() {
    let mut input = vec![-42];
    assert_eq!(median(&mut input), Ok(Median::Middle(-42)));
    assert_eq!(input, vec![-42]);
}

#[test]
fn equal_values() {
    let mut input = vec![3, 3, 3, 3, 3, 3];
    assert_eq!(median(&mut input), Ok(Median::Mean(3, 3)));
    let mut input = vec![2, 9, 2, 9, 2];
    assert_eq!(median(&mut input), Ok(Median::Middle(2)));
}

#[test]
fn extreme_values() {
    let mut input = vec![i64::MAX, i64::MIN, i64::MAX, i64::MIN];
    let m = median(&mut input).unwrap();
    assert_eq!(m, Median::Mean(i64::MIN, i64::MAX));
    assert_eq!(m.doubled(), -1);
    let mut input = vec![i64::MAX, i64::MAX];
    assert_eq!(median(&mut input).unwrap().doubled(), 2 * (i64::MAX as i128));
}

#[test]
fn median_matches_sorted_copy() {
    let data: Vec<i64> = vec![12, -7, 0, 33, 5, 5, -100, 18, 2, 9, 41, -3];
    for n in 1..=data.len() {
        let v = data[..n].to_vec();
        let s = sorted_copy(&v);
        let expected = if n % 2 == 1 {
            Median::Middle(s[n / 2])
        } else {
            Median::Mean(s[n / 2 - 1], s[n / 2])
        };
        let mut w = v.clone();
        assert_eq!(median(&mut w), Ok(expected));
    }
}

#[test]
fn median_keeps_values() {
    let before = vec![9, 1, 8, 2, 7, 3, 6, 4, 5, 0];
    let mut after = before.clone();
    assert_eq!(median(&mut after), Ok(Median::Mean(4, 5)));
    assert_eq!(sorted_copy(&after), sorted_copy(&before));
}

#[test]
fn select_every_rank() {
    let data: Vec<i64> = vec![4, -1, 4, 10, 0, 7, -1, 3];
    let s = sorted_copy(&data);
    for k in 0..data.len() {
        let mut v = data.clone();
        assert_eq!(select(&mut v, k), Ok(s[k]));
        assert_eq!(v[k], s[k]);
        assert_eq!(sorted_copy(&v), s);
    }
}

#[test]
fn select_empty() {
    let mut v: Vec<i64> = vec![];
    assert_eq!(select(&mut v, 0), Err(SelectError::EmptyInput));
    assert_eq!(select(&mut v, 5), Err(SelectError::EmptyInput));
}

#[test]
fn partition_around_first_value() {
    let mut v = vec![7, 2, 3, 5, 10];
    let p = partition(&mut v, 0, 4, 0);
    assert_eq!(p, 3);
    assert_eq!(v, vec![2, 3, 5, 7, 10]);
}

#[test]
fn partition_inner_range() {
    let mut v = vec![100, 6, 1, 9, 6, 0, -100];
    let p = partition(&mut v, 1, 5, 1);
    assert_eq!(v[0], 100);
    assert_eq!(v[6], -100);
    assert_eq!(v[p], 6);
    assert!((1..=5).contains(&p));
    for j in 1..p {
        assert!(v[j] < v[p]);
    }
    for j in p + 1..=5 {
        assert!(v[j] >= v[p]);
    }
    assert_eq!(sorted_copy(&v), vec![-100, 0, 1, 6, 6, 9, 100]);
}

#[test]
fn pivot_index_values() {
    assert_eq!(pivot_index(10, 2, 7), 3);
    assert_eq!(pivot_index(8, 3, 7), 3);
    assert_eq!(pivot_index(u64::MAX, 0, 10), 5);
    assert_eq!(pivot_index(0, 4, 5), 4);
}

#[test]
fn rand_in_range() {
    for _ in 0..50 {
        match rand(3, 9) {
            Ok(i) => assert!((3..9).contains(&i)),
            Err(e) => assert_eq!(e, SelectError::EntropyUnavailable),
        }
    }
    if let Ok(i) = rand(6, 7) {
        assert_eq!(i, 6);
    }
}
