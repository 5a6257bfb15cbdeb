use transform2d::propagate::Propagate;

#[test]
fn propagate() {
    for i in 1..=15 {
        assert!(!Propagate::nothing().inherits(Propagate(i)));
    }

    for i in 1..=15 {
        assert!(Propagate::all().inherits(Propagate(i)));
    }

    for i in 1..=15 {
        let p = Propagate(i);
        assert!(p.inherits(p));
        for j in 1..=15 {
            let q = Propagate(j & (!i));
            assert!(!p.inherits(q));
        }
    }
}

#[test]
fn mask_operators() {
    let mut p = Propagate::translation() | Propagate::scale();
    assert_eq!(p, Propagate(9));
    assert_eq!(p & Propagate::scale(), Propagate(8));
    p &= Propagate::translation();
    assert_eq!(p, Propagate(1));
    p |= Propagate::depth();
    assert_eq!(p, Propagate(3));
    assert_eq!(Propagate::default(), Propagate::all());
    assert_eq!(Propagate::rotation(), Propagate(4));
}
