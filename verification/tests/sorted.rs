use std::sync::atomic;

use rand::Rng;

use layered_forest::sorted::drain_merge_sorted;

fn less_p(a: &usize, b: &usize) -> bool {
    a < b
}

#[test]
fn two_empty() {
    let mut vec_a: Vec<usize> = vec![];
    let mut vec_b: Vec<usize> = vec![];
    drain_merge_sorted(&mut vec_a, &mut vec_b, less_p);
    assert_eq!(vec_a, vec![]);
    assert_eq!(vec_b, vec![]);
}

#[test]
fn dst_empty_and_src_not() {
    let mut vec_a = vec![];
    let mut vec_b = vec![42];
    drain_merge_sorted(&mut vec_a, &mut vec_b, less_p);
    assert_eq!(vec_a, vec![42]);
    assert_eq!(vec_b, vec![]);
}

#[test]
fn src_empty_and_dst_not() {
    let mut vec_a = vec![42];
    let mut vec_b = vec![];
    drain_merge_sorted(&mut vec_a, &mut vec_b, less_p);
    assert_eq!(vec_a, vec![42]);
    assert_eq!(vec_b, vec![]);
}

#[test]
fn simple() {
    let mut vec_a = vec![1, 4, 7, 8];
    let mut vec_b = vec![5, 6, 10];
    drain_merge_sorted(&mut vec_a, &mut vec_b, less_p);
    assert_eq!(vec_a, vec![1, 4, 5, 6, 7, 8, 10]);
    assert_eq!(vec_b, vec![]);
}

#[test]
fn merge_100000() {
    let mut rng = rand::thread_rng();
    let vec_a_len = rng.gen_range(50000..100000);
    let mut vec_a: Vec<usize> = (0..vec_a_len).map(|_| rng.gen()).collect();
    vec_a.sort();
    let vec_b_len = rng.gen_range(1000..100000);
    let mut vec_b: Vec<usize> = (0..vec_b_len).map(|_| rng.gen()).collect();
    vec_b.sort();

    drain_merge_sorted(&mut vec_a, &mut vec_b, less_p);
    assert_eq!(vec_a.len(), vec_a_len + vec_b_len);
    assert_eq!(vec_b.len(), 0);

    let vec_a_len = vec_a.len();
    for i in 1..vec_a_len {
        assert!(vec_a[i - 1] < vec_a[i]);
    }
}

struct DropCount<'a> {
    value: usize,
    counter: &'a atomic::AtomicUsize,
}

impl<'a> Drop for DropCount<'a> {
    fn drop(&mut self) {
        self.counter.fetch_add(1, atomic::Ordering::Relaxed);
    }
}

#[test]
fn destructors() {
    let drops_counter = atomic::AtomicUsize::new(0);

    let mut rng = rand::thread_rng();
    let vec_a_len = rng.gen_range(5000..10000);
    let vec_b_len = rng.gen_range(100..10000);

    {
        let mut vec_a: Vec<_> = (0..vec_a_len)
            .map(|_| DropCount { value: rng.gen(), counter: &drops_counter })
            .collect();
        vec_a.sort_by_key(|dc| dc.value);
        let mut vec_b: Vec<_> = (0..vec_b_len)
            .map(|_| DropCount { value: rng.gen(), counter: &drops_counter })
            .collect();
        vec_b.sort_by_key(|dc| dc.value);

        drain_merge_sorted(&mut vec_a, &mut vec_b, |dca, dcb| dca.value < dcb.value);
        assert_eq!(vec_a.len(), vec_a_len + vec_b_len);
        assert_eq!(vec_b.len(), 0);

        let vec_a_len = vec_a.len();
        for i in 1..vec_a_len {
            assert!(vec_a[i - 1].value < vec_a[i].value);
        }
    }

    assert_eq!(drops_counter.load(atomic::Ordering::Relaxed), vec_a_len + vec_b_len);
}
