use std::cell::Cell;
use std::rc::Rc;
use vec_utils::{try_zip_with, unwrap, zip_with, Input, Output, Tuple, TupleElem};

struct Counted {
    val: i32,
    drops: Rc<Cell<usize>>,
}

impl Drop for Counted {
    fn drop(&mut self) {
        self.drops.set(self.drops.get() + 1);
    }
}

fn counted(vals: &[i32], drops: &Rc<Cell<usize>>) -> Vec<Counted> {
    vals.iter()
        .map(|&val| Counted { val, drops: drops.clone() })
        .collect()
}

#[test]
fn zip_with_sums_pairs() {
    let a: Vec<i32> = vec![1, 2, 3];
    let b: Vec<i32> = vec![10, 20, 30];
    let r = zip_with((a, (b,)), |(x, y)| x + y);
    assert_eq!(r, vec![11, 22, 33]);
    assert!(r.capacity() >= 3);
}

#[test]
fn zip_with_three_inputs() {
    let a: Vec<i32> = vec![1, 2];
    let b: Vec<i64> = vec![10, 20];
    let c: Vec<u8> = vec![100, 200];
    let r = zip_with((a, (b, (c,))), |(x, (y, z))| x as i64 + y + z as i64);
    assert_eq!(r, vec![111, 222]);
}

#[test]
fn zip_with_non_matching_layout_same_result() {
    let a: Vec<u8> = vec![1, 2, 3];
    let b: Vec<u16> = vec![10, 20, 30];
    let r: Vec<u64> = zip_with((a, (b,)), |(x, y)| x as u64 + y as u64);
    assert_eq!(r, vec![11, 22, 33]);
    let c: Vec<u64> = vec![1, 2, 3];
    let d: Vec<u64> = vec![10, 20, 30];
    let s: Vec<u64> = zip_with((c, (d,)), |(x, y)| x + y);
    assert_eq!(r, s);
}

#[test]
fn zip_with_shortest_length_drops_the_rest_once() {
    let drops = Rc::new(Cell::new(0));
    let reads = Rc::new(Cell::new(0));
    let a = counted(&[1, 2, 3], &drops);
    let b = counted(&[10, 20, 30, 40, 50], &drops);
    let r = zip_with((a, (b,)), |(x, y)| {
        reads.set(reads.get() + 1);
        x.val + y.val
    });
    assert_eq!(r, vec![11, 22, 33]);
    assert_eq!(reads.get(), 3);
    assert_eq!(drops.get(), 8);
}

#[test]
fn try_zip_with_error_drops_everything_once() {
    let drops = Rc::new(Cell::new(0));
    let calls = Rc::new(Cell::new(0));
    let a = counted(&[1, 2, 3, 4], &drops);
    let b = counted(&[5, 6, 7, 8], &drops);
    let r: Result<Vec<Counted>, i32> = try_zip_with((a, (b,)), |(x, y)| {
        calls.set(calls.get() + 1);
        if x.val == 3 {
            Err(y.val)
        } else {
            Ok(x)
        }
    });
    assert!(matches!(r, Err(7)));
    assert_eq!(calls.get(), 3);
    assert_eq!(drops.get(), 8);
}

#[test]
fn try_zip_with_stops_at_nan() {
    let calls = Rc::new(Cell::new(0));
    let v: Vec<f32> = vec![1.0, f32::NAN, 3.0];
    let r: Result<Vec<u32>, usize> = try_zip_with((v,), |x: f32| {
        let i = calls.get();
        calls.set(i + 1);
        if x.is_nan() {
            Err(i)
        } else {
            Ok(x.to_bits())
        }
    });
    assert_eq!(r, Err(1));
    assert_eq!(calls.get(), 2);
}

#[test]
fn try_zip_with_all_ok() {
    let v: Vec<f32> = vec![1.0, 2.0];
    let r: Result<Vec<u32>, ()> = try_zip_with((v,), |x: f32| Ok(x.to_bits()));
    assert_eq!(r, Ok(vec![1.0f32.to_bits(), 2.0f32.to_bits()]));
}

#[test]
fn try_zip_with_empty_input() {
    let v: Vec<i32> = Vec::new();
    let r: Result<Vec<i32>, ()> = try_zip_with((v,), |x: i32| Ok(x));
    assert_eq!(r, Ok(Vec::new()));
}

#[test]
fn map_identity_gives_back_input() {
    let v: Vec<i32> = vec![4, 5, 6];
    let r = vec_utils::general_zip::map(v.clone(), |x: i32| x);
    assert_eq!(r, v);
}

#[test]
fn map_changes_type() {
    let v: Vec<u8> = vec![1, 2, 255];
    let r = vec_utils::general_zip::map(v, |x: u8| x as u32 * 2);
    assert_eq!(r, vec![2, 4, 510]);
}

#[test]
fn unwrap_takes_ok_value() {
    let r: Result<i32, ()> = Ok(5);
    assert_eq!(unwrap(r), 5);
}

#[test]
fn remaining_len_is_minimum() {
    let a: Vec<i32> = vec![1, 2, 3, 4];
    let b: Vec<i32> = vec![1, 2];
    let c: Vec<i32> = vec![1, 2, 3];
    assert_eq!((a, (b, (c,))).remaining_len(), 2);
}

#[test]
fn check_layout_by_size_and_alignment() {
    assert!(<(Vec<u32>, (Vec<u8>,)) as Tuple>::check_layout::<i32>());
    assert!(<(Vec<u8>, (Vec<u32>,)) as Tuple>::check_layout::<f32>());
    assert!(!<(Vec<u8>, (Vec<u16>,)) as Tuple>::check_layout::<u64>());
    assert!(<Vec<u64> as TupleElem>::check_layout::<i64>());
    assert!(!<Vec<u64> as TupleElem>::check_layout::<u32>());
}

fn with_cap(cap: usize, vals: &[u32]) -> Vec<u32> {
    let mut v = Vec::with_capacity(cap);
    v.extend_from_slice(vals);
    v
}

#[test]
fn donor_is_largest_capacity() {
    type L = (Vec<u32>, (Vec<u8>, (Vec<u32>,)));
    let a = with_cap(4, &[1, 2]);
    let b: Vec<u8> = Vec::with_capacity(100);
    let c = with_cap(9, &[3]);
    let mut d = <L as Tuple>::into_data((a, (b, (c,))));
    assert_eq!(<L as Tuple>::max_cap::<i32>(&d), Some(9));
    let out: Output<i32> = <L as Tuple>::take_output::<i32>(&mut d);
    assert_eq!(out.cap, 9);
    assert!(d.0.drop_alloc);
    assert!(d.1 .0.drop_alloc);
    assert!(!d.1 .1.drop_alloc);
}

#[test]
fn donor_tie_goes_to_first() {
    type L = (Vec<u32>, (Vec<u32>,));
    let a = with_cap(6, &[1]);
    let b = with_cap(6, &[2]);
    let mut d = <L as Tuple>::into_data((a, (b,)));
    let out: Output<f32> = <L as Tuple>::take_output::<f32>(&mut d);
    assert_eq!(out.cap, 6);
    assert!(!d.0.drop_alloc);
    assert!(d.1.drop_alloc);
}

#[test]
fn no_donor_without_matching_layout() {
    type L = (Vec<u8>, (Vec<u16>,));
    let d = <L as Tuple>::into_data((vec![1u8], (vec![2u16],)));
    assert_eq!(<L as Tuple>::max_cap::<u64>(&d), None);
}

#[test]
fn input_reads_in_order_and_keeps_capacity() {
    let v = with_cap(10, &[7, 8, 9]);
    let mut h = Input::from_vec(v);
    assert_eq!(h.cap, 10);
    assert!(h.drop_alloc);
    assert_eq!(h.next_unchecked(), 7);
    assert_eq!(h.next_unchecked(), 8);
    assert_eq!(h.rest.len(), 1);
    h.drop_rest();
    assert_eq!(h.rest.len(), 0);
    assert!(!h.drop_alloc);
}

#[test]
fn next_unchecked_reads_every_input() {
    type L = (Vec<i32>, (Vec<u8>,));
    let mut d = <L as Tuple>::into_data((vec![1, 2], (vec![3u8, 4, 5],)));
    assert_eq!(<L as Tuple>::next_unchecked(&mut d), (1, 3));
    assert_eq!(<L as Tuple>::next_unchecked(&mut d), (2, 4));
    <L as Tuple>::drop_rest(&mut d);
    assert_eq!(d.1.rest.len(), 0);
}

#[test]
fn output_writes_in_order() {
    let mut o: Output<i32> = Output::with_capacity(3);
    o.write(1);
    o.write(2);
    assert_eq!(o.buf, vec![1, 2]);
    assert_eq!(o.cap, 3);
    let f: Output<i32> = Output::fresh();
    assert!(f.buf.is_empty());
}
