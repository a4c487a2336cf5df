use macipr::{IterBundle, ResettableIterator, VecIter};

#[test]
fn resettable_iter_reset() {
    let mut vi = VecIter {
        v: vec![1, 2, 3],
        offset: 0,
    };
    assert_eq!(vi.next(), Some(1));
    assert_eq!(vi.next(), Some(2));
    assert_eq!(vi.next(), Some(3));
    assert_eq!(vi.next(), None);
    vi.reset();
    assert_eq!(vi.next(), Some(1));
}

#[test]
fn bundled_iter_one_iter() {
    let mut bundle = IterBundle::new();
    bundle.push(VecIter {
        v: vec![1, 2, 3],
        offset: 0,
    });
    let mut iter = bundle.into_iter();
    assert_eq!(iter.next(), Some(vec![1]));
    assert_eq!(iter.next(), Some(vec![2]));
    assert_eq!(iter.next(), Some(vec![3]));
    assert_eq!(iter.next(), None);
}

#[test]
fn bundled_iter_multiple_iters() {
    let mut bundle = IterBundle::new();
    bundle.push(VecIter {
        v: vec![1, 2, 3],
        offset: 0,
    });
    bundle.push(VecIter {
        v: vec![5, 6, 7, 8, 9],
        offset: 0,
    });
    bundle.push(VecIter {
        v: vec![10],
        offset: 0,
    });
    let mut iter = bundle.into_iter();
    assert_eq!(iter.next(), Some(vec![1, 5, 10]));
    assert_eq!(iter.next(), Some(vec![2, 6, 10]));
    assert_eq!(iter.next(), Some(vec![3, 7, 10]));
    assert_eq!(iter.next(), Some(vec![1, 8, 10]));
    assert_eq!(iter.next(), Some(vec![2, 9, 10]));
    assert_eq!(iter.next(), None);
}

#[test]
fn bundled_iter_always_none() {
    let mut bundle = IterBundle::new();
    bundle.push(VecIter {
        v: vec![1, 2, 3],
        offset: 0,
    });
    bundle.push(VecIter {
        v: vec![],
        offset: 0,
    });
    let mut iter = bundle.into_iter();
    assert_eq!(iter.next(), None);
}

#[test]
fn bundled_iter_rows_are_the_longest_length() {
    let mut bundle = IterBundle::new();
    bundle.push(VecIter { v: vec![1, 2], offset: 0 });
    bundle.push(VecIter { v: vec![3, 4, 5, 6], offset: 0 });
    bundle.push(VecIter { v: vec![7, 8, 9, 10], offset: 0 });
    let mut iter = bundle.into_iter();
    let mut rows = 0;
    while iter.next().is_some() {
        rows += 1;
    }
    assert_eq!(rows, 4);
    assert_eq!(iter.next(), None);
    assert_eq!(iter.count_done(), 3);
    assert!(iter.is_all_done());
    assert_eq!(iter.len(), 3);
}

#[test]
fn bundled_iter_empty_first_yields_nothing() {
    let mut bundle = IterBundle::new();
    bundle.push(VecIter::<u32> { v: vec![], offset: 0 });
    bundle.push(VecIter { v: vec![1], offset: 0 });
    let mut iter = bundle.into_iter();
    assert_eq!(iter.next(), None);
    assert_eq!(iter.next(), None);
}

#[test]
fn bundled_iter_without_sequences_yields_nothing() {
    let bundle: IterBundle<VecIter<u8>> = IterBundle::new();
    let mut iter = bundle.into_iter();
    assert_eq!(iter.next(), None);
}
