use fractional_index::FractionalIndex;

#[test]
fn new_before_simple() {
    let mut i = FractionalIndex::default();
    assert_eq!(i.as_bytes(), &[128]);

    i = FractionalIndex::new_before(&i);
    assert_eq!(i.as_bytes(), &[127, 128]);

    let i = FractionalIndex::new_before(&i);
    assert_eq!(i.as_bytes(), &[126, 128]);
}

#[test]
fn new_after_simple() {
    let mut i = FractionalIndex::default();
    assert_eq!(i.as_bytes(), &[128]);

    i = FractionalIndex::new_after(&i);
    assert_eq!(i.as_bytes(), &[129, 128]);

    let i = FractionalIndex::new_after(&i);
    assert_eq!(i.as_bytes(), &[130, 128]);
}

#[test]
fn new_before_longer() {
    let mut i = FractionalIndex::from_vec_unterminated(vec![100, 100, 3]);
    assert_eq!(i.as_bytes(), &[100, 100, 3, 128]);

    i = FractionalIndex::new_before(&i);
    assert_eq!(i.as_bytes(), &[99, 128]);

    i = FractionalIndex::new_before(&i);
    assert_eq!(i.as_bytes(), &[98, 128]);
}

#[test]
fn new_after_longer() {
    let mut i = FractionalIndex::from_vec_unterminated(vec![240, 240, 3]);
    assert_eq!(i.as_bytes(), &[240, 240, 3, 128]);

    i = FractionalIndex::new_after(&i);
    assert_eq!(i.as_bytes(), &[241, 128]);

    i = FractionalIndex::new_after(&i);
    assert_eq!(i.as_bytes(), &[242, 128]);
}

#[test]
fn new_before_zeros() {
    let mut i = FractionalIndex::from_vec_unterminated(vec![0, 0]);
    assert_eq!(i.as_bytes(), &[0, 0, 128]);

    i = FractionalIndex::new_before(&i);
    assert_eq!(i.as_bytes(), &[0, 0, 127, 128]);

    i = FractionalIndex::new_before(&i);
    assert_eq!(i.as_bytes(), &[0, 0, 126, 128]);
}

#[test]
fn new_after_max() {
    let mut i = FractionalIndex::from_vec_unterminated(vec![255, 255]);
    assert_eq!(i.as_bytes(), &[255, 255, 128]);

    i = FractionalIndex::new_after(&i);
    assert_eq!(i.as_bytes(), &[255, 255, 129, 128]);

    i = FractionalIndex::new_after(&i);
    assert_eq!(i.as_bytes(), &[255, 255, 130, 128]);
}

#[test]
fn new_before_wrap() {
    let mut i = FractionalIndex::from_vec_unterminated(vec![0]);
    assert_eq!(i.as_bytes(), &[0, 128]);

    i = FractionalIndex::new_before(&i);
    assert_eq!(i.as_bytes(), &[0, 127, 128]);
}

#[test]
fn new_after_wrap() {
    let mut i = FractionalIndex::from_vec_unterminated(vec![255]);
    assert_eq!(i.as_bytes(), &[255, 128]);

    i = FractionalIndex::new_after(&i);
    assert_eq!(i.as_bytes(), &[255, 129, 128]);
}

#[test]
fn new_between_simple() {
    {
        let left = FractionalIndex::from_vec_unterminated(vec![100]);
        let right = FractionalIndex::from_vec_unterminated(vec![119]);
        let mid = FractionalIndex::new_between(&left, &right).unwrap();
        assert_eq!(mid.as_bytes(), &[109, 128]);
    }

    {
        let left = FractionalIndex::from_vec_unterminated(vec![100, 100]);
        let right = FractionalIndex::from_vec_unterminated(vec![100, 104]);
        let mid = FractionalIndex::new_between(&left, &right).unwrap();
        assert_eq!(mid.as_bytes(), &[100, 102, 128]);
    }

    {
        let left = FractionalIndex::from_vec_unterminated(vec![100, 100]);
        let right = FractionalIndex::from_vec_unterminated(vec![100, 103]);
        let mid = FractionalIndex::new_between(&left, &right).unwrap();
        assert_eq!(mid.as_bytes(), &[100, 101, 128]);
    }

    {
        let left = FractionalIndex::from_vec_unterminated(vec![100, 100]);
        let right = FractionalIndex::from_vec_unterminated(vec![100, 102]);
        let mid = FractionalIndex::new_between(&left, &right).unwrap();
        assert_eq!(mid.as_bytes(), &[100, 101, 128]);
    }

    {
        let left = FractionalIndex::from_vec_unterminated(vec![108]);
        let right = FractionalIndex::from_vec_unterminated(vec![109]);
        let mid = FractionalIndex::new_between(&left, &right).unwrap();
        assert_eq!(mid.as_bytes(), &[108, 129, 128]);
    }

    {
        let left = FractionalIndex::from_vec_unterminated(vec![127, 128]);
        let right = FractionalIndex::from_vec_unterminated(vec![128]);
        let mid = FractionalIndex::new_between(&left, &right).unwrap();
        assert_eq!(mid.as_bytes(), &[127, 129, 128]);
    }

    {
        let left = FractionalIndex::from_vec_unterminated(vec![127, 129]);
        let right = FractionalIndex::from_vec_unterminated(vec![]);
        let mid = FractionalIndex::new_between(&left, &right).unwrap();
        assert_eq!(mid.as_bytes(), &[127, 130, 128]);
    }

    {
        let left = FractionalIndex::from_vec_unterminated(vec![127]);
        let right = FractionalIndex::from_vec_unterminated(vec![]);
        let mid = FractionalIndex::new_between(&left, &right).unwrap();
        assert_eq!(mid.as_bytes(), &[127, 129, 128]);
    }
}

#[test]
fn new_between_error() {
    let a = FractionalIndex::default();
    let b = FractionalIndex::new_after(&a);

    assert_eq!(FractionalIndex::new_between(&a, &a), None);
    assert_eq!(FractionalIndex::new_between(&b, &a), None);
}

#[test]
fn new_between_extend() {
    {
        let left = FractionalIndex::from_vec_unterminated(vec![100]);
        let right = FractionalIndex::from_vec_unterminated(vec![101]);
        let mid = FractionalIndex::new_between(&left, &right).unwrap();
        assert_eq!(mid.as_bytes(), &[100, 129, 128]);
    }
}

#[test]
fn new_between_prefix() {
    {
        let left = FractionalIndex::from_vec_unterminated(vec![100]);
        let right = FractionalIndex::from_vec_unterminated(vec![100, 144]);
        let mid = FractionalIndex::new_between(&left, &right).unwrap();
        assert_eq!(mid.as_bytes(), &[100, 144, 127, 128]);
    }

    {
        let left = FractionalIndex::from_vec_unterminated(vec![100, 122]);
        let right = FractionalIndex::from_vec_unterminated(vec![100]);
        let mid = FractionalIndex::new_between(&left, &right).unwrap();
        assert_eq!(mid.as_bytes(), &[100, 122, 129, 128]);
    }

    {
        let left = FractionalIndex::from_vec_unterminated(vec![100, 122]);
        let right = FractionalIndex::from_vec_unterminated(vec![100, 128]);
        let mid = FractionalIndex::new_between(&left, &right).unwrap();
        assert_eq!(mid.as_bytes(), &[100, 125, 128]);
    }

    {
        let left = FractionalIndex::from_vec_unterminated(vec![]);
        let right = FractionalIndex::from_vec_unterminated(vec![128, 192]);
        let mid = FractionalIndex::new_between(&left, &right).unwrap();
        assert_eq!(mid.as_bytes(), &[128, 128]);
    }
}

#[test]
fn test_fractional_index() {
    let mut indices: Vec<FractionalIndex> = Vec::new();

    let c = FractionalIndex::default();

    {
        let mut m = c.clone();
        let mut low = Vec::new();
        for _ in 0..20 {
            m = FractionalIndex::new_before(&m);
            low.push(m.clone())
        }

        low.reverse();
        indices.append(&mut low)
    }

    indices.push(c.clone());

    {
        let mut m = c.clone();
        let mut high = Vec::new();
        for _ in 0..20 {
            m = FractionalIndex::new_after(&m);
            high.push(m.clone())
        }

        indices.append(&mut high)
    }

    for i in 0..(indices.len() - 1) {
        assert!(indices[i] < indices[i + 1])
    }

    for _ in 0..12 {
        let mut new_indices: Vec<FractionalIndex> = Vec::new();
        for i in 0..(indices.len() - 1) {
            let cb = FractionalIndex::new_between(&indices[i], &indices[i + 1]).unwrap();
            assert!(&indices[i] < &cb);
            assert!(&cb < &indices[i + 1]);

            let st = cb.to_string();
            assert!(FractionalIndex::from_string(&st).unwrap() == cb);
            assert!(st < indices[i + 1].to_string());

            new_indices.push(cb);
            new_indices.push(indices[i + 1].clone());
        }

        indices = new_indices;
    }
}
