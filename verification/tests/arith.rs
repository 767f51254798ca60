use tinysnark::FieldT;

#[test]
fn test_one() {
    let one = FieldT::one();
    let negone = one.neg();
    let newone = negone.neg();

    assert!(one == newone);
    assert!(one != negone);
    assert!(newone != negone);

    assert_eq!(one, FieldT::from_i64(1));
    assert_eq!(negone, FieldT::from_i64(-1));

    assert!(one.debug_equal([
        251, 255, 255, 79, 28, 52, 150, 172, 41, 205, 96, 159, 149, 118, 252, 54, 46, 70, 121,
        120, 111, 163, 110, 102, 47, 223, 7, 154, 193, 119, 10, 14,
    ]));
    assert!(negone.debug_equal([
        6, 0, 0, 160, 119, 193, 75, 151, 103, 163, 88, 218, 178, 113, 55, 241, 46, 18, 8, 9, 71,
        162, 225, 81, 250, 192, 41, 71, 177, 214, 89, 34,
    ]));
}

#[test]
fn test_math() {
    assert_eq!(
        FieldT::one().add(&FieldT::from_i64(10)),
        FieldT::from_i64(11)
    );
    assert_eq!(
        FieldT::from_i64(2).add(&FieldT::from_i64(2)),
        FieldT::from_i64(2).mul(&FieldT::from_i64(2))
    );
    assert_eq!(
        FieldT::from_i64(2),
        FieldT::from_i64(-1).add(&FieldT::one().mul(&FieldT::from_i64(3)))
    );

    assert_eq!(
        FieldT::one(),
        FieldT::from_i64(100).mul(&FieldT::from_i64(100).inverse())
    );
}

#[test]
fn test_conversions() {
    for i in 0..10000 {
        let num = FieldT::from_i64(i);
        let back: u64 = num.to_u64();

        assert_eq!(i, back as i64);
    }

    assert_eq!(FieldT::from_i64(-1).to_u64(), 4891460686036598784);
}

#[test]
fn test_inverse_identity() {
    for v in [1i64, 2, 3, 100, 12345, 987654321] {
        let a = FieldT::from_i64(v);
        assert_eq!(a.mul(&a.inverse()), FieldT::one());
    }
    let negone = FieldT::from_i64(-1);
    assert_eq!(negone.mul(&negone.inverse()), FieldT::one());
}

#[test]
fn test_neg_properties() {
    for v in [0i64, 1, 5, 100, -1, -12345] {
        let a = FieldT::from_i64(v);
        assert_eq!(a.neg().neg(), a);
        assert_eq!(a.add(&a.neg()), FieldT::zero());
    }
}

#[test]
fn test_sub() {
    assert_eq!(
        FieldT::from_i64(5).sub(&FieldT::from_i64(3)),
        FieldT::from_i64(2)
    );
    assert_eq!(
        FieldT::from_i64(3).sub(&FieldT::from_i64(5)),
        FieldT::from_i64(-2)
    );
    assert_eq!(FieldT::zero().sub(&FieldT::one()), FieldT::from_i64(-1));
}

#[test]
fn test_round_trip_edges() {
    assert_eq!(FieldT::from_u64(0).to_u64(), 0);
    assert_eq!(FieldT::from_u64(1).to_u64(), 1);
    assert_eq!(FieldT::from_u64(u64::MAX).to_u64(), u64::MAX);
    assert_eq!(FieldT::from_u64(10000).to_u64(), 10000);
}

#[test]
fn test_mul_exact() {
    assert_eq!(
        FieldT::from_i64(3).mul(&FieldT::from_i64(7)),
        FieldT::from_i64(21)
    );
    // (p - 1) * (p - 1) == 1 mod p
    let negone = FieldT::from_i64(-1);
    assert_eq!(negone.mul(&negone), FieldT::one());
    assert_eq!(FieldT::zero().mul(&negone), FieldT::zero());
}

#[test]
fn test_debug_equal_mismatch() {
    // zero's Montgomery residue is zero, so its encoding is all zero bytes
    assert!(FieldT::zero().debug_equal([0; 32]));
    // one's encoding is not
    assert!(!FieldT::one().debug_equal([0; 32]));
}
