use btree::DormantMutRef;

#[test]
fn test_borrow() {
    let mut data = 1;
    let mut stack = vec![];
    let mut dormant = DormantMutRef::new(&mut data);
    for factor in [2, 3, 7].iter() {
        let rr = dormant.reborrow();
        assert_eq!(*rr, 1);
        stack.push(factor);
    }
    let r = dormant.awaken();
    while let Some(factor) = stack.pop() {
        *r *= factor;
    }
    assert_eq!(data, 42);
}

#[test]
fn nested_dormant_borrows_wake_in_reverse_order() {
    let mut data = 1;
    let mut d1 = DormantMutRef::new(&mut data);
    let mut d2 = DormantMutRef::new(d1.reborrow());
    let mut d3 = DormantMutRef::new(d2.reborrow());
    for factor in [2, 3, 7].iter() {
        assert_eq!(*d3.reborrow_shared(), 1);
        let _ = factor;
    }
    let r3 = d3.awaken();
    assert_eq!(*r3, 1);
    *r3 *= 7;
    let r2 = d2.awaken();
    assert_eq!(*r2, 7);
    *r2 *= 3;
    let r1 = d1.awaken();
    assert_eq!(*r1, 21);
    *r1 *= 2;
    assert_eq!(data, 42);
}

#[test]
fn reborrow_writes_reach_the_owner() {
    let mut data = 5;
    let mut dormant = DormantMutRef::new(&mut data);
    *dormant.reborrow() += 1;
    assert_eq!(*dormant.reborrow_shared(), 6);
    *dormant.reborrow() *= 2;
    assert_eq!(*dormant.awaken(), 12);
    assert_eq!(data, 12);
}
