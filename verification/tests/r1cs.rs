use tinysnark::ConstraintSystem;
use tinysnark::FieldT;
use tinysnark::LinearTerm;
use tinysnark::R1csError;

/// Converts the integer witness and runs the satisfaction test; proof
/// generation and verification live in the engine-facing layer.
fn satisfies(cs: &ConstraintSystem, primary: &[i64], aux: &[i64]) -> bool {
    let primary: Vec<FieldT> = primary.iter().map(|n| FieldT::from_i64(*n)).collect();
    let aux: Vec<FieldT> = aux.iter().map(|n| FieldT::from_i64(*n)).collect();
    cs.test(&primary, &aux).unwrap()
}

#[test]
fn test_zk() {
    {
        let mut cs = ConstraintSystem::new(1, 2);
        // zkpok { (a, b) c = a * b }
        cs.add_constraint(
            &[LinearTerm { coeff: FieldT::one(), index: 2 }],
            &[LinearTerm { coeff: FieldT::one(), index: 3 }],
            &[LinearTerm { coeff: FieldT::one(), index: 1 }],
        )
        .unwrap();

        assert!(satisfies(&cs, &[1], &[1, 1]));
        assert!(satisfies(&cs, &[0], &[0, 1]));
        assert!(satisfies(&cs, &[10], &[5, 2]));
        assert!(!satisfies(&cs, &[10], &[6, 2]));
    }
    {
        let mut cs = ConstraintSystem::new(0, 1);
        // simple boolean constraint
        // (1-x) * x = 0
        cs.add_constraint(
            &[
                LinearTerm { coeff: FieldT::one(), index: 0 },
                LinearTerm { coeff: FieldT::one().neg(), index: 1 },
            ],
            &[LinearTerm { coeff: FieldT::one(), index: 1 }],
            &[LinearTerm { coeff: FieldT::zero(), index: 0 }],
        )
        .unwrap();

        assert!(satisfies(&cs, &[], &[0]));
        assert!(satisfies(&cs, &[], &[1]));
        assert!(!satisfies(&cs, &[], &[2]));
    }
    {
        let mut cs = ConstraintSystem::new(2, 1);
        // boolean + xor
        cs.add_constraint(
            &[
                LinearTerm { coeff: FieldT::one(), index: 0 },
                LinearTerm { coeff: FieldT::one().neg(), index: 3 },
            ],
            &[LinearTerm { coeff: FieldT::one(), index: 3 }],
            &[LinearTerm { coeff: FieldT::zero(), index: 0 }],
        )
        .unwrap();
        cs.add_constraint(
            &[LinearTerm { coeff: FieldT::from_i64(2), index: 2 }],
            &[LinearTerm { coeff: FieldT::one(), index: 3 }],
            &[
                LinearTerm { coeff: FieldT::one(), index: 2 },
                LinearTerm { coeff: FieldT::one(), index: 3 },
                LinearTerm { coeff: FieldT::one().neg(), index: 1 },
            ],
        )
        .unwrap();

        assert!(satisfies(&cs, &[0, 0], &[0]));
        assert!(satisfies(&cs, &[1, 1], &[0]));
        assert!(satisfies(&cs, &[1, 0], &[1]));
        assert!(satisfies(&cs, &[0, 1], &[1]));
        assert!(!satisfies(&cs, &[0, 1], &[100]));
    }
}

#[test]
fn test_index_out_of_range() {
    let mut cs = ConstraintSystem::new(1, 1);
    // slots are 0..=2; index 3 is out of range
    let r = cs.add_constraint(
        &[LinearTerm { coeff: FieldT::one(), index: 3 }],
        &[LinearTerm { coeff: FieldT::one(), index: 0 }],
        &[LinearTerm { coeff: FieldT::one(), index: 0 }],
    );
    assert_eq!(r, Err(R1csError::IndexOutOfRange));
    // the failed append left the system unchanged and usable
    assert_eq!(cs.constraints_len(), 0);
    assert!(satisfies(&cs, &[7], &[8]));
}

#[test]
fn test_witness_length_mismatch() {
    let cs = ConstraintSystem::new(1, 2);
    let one = FieldT::one();
    assert_eq!(
        cs.test(&[one], &[one]),
        Err(R1csError::WitnessLengthMismatch)
    );
    assert_eq!(
        cs.test(&[], &[one, one]),
        Err(R1csError::WitnessLengthMismatch)
    );
    assert_eq!(cs.test(&[one], &[one, one]), Ok(true));
}

#[test]
fn test_empty_system_is_satisfied() {
    let cs = ConstraintSystem::new(0, 0);
    assert_eq!(cs.test(&[], &[]), Ok(true));
}

#[test]
fn test_accessors() {
    let mut cs = ConstraintSystem::new(2, 3);
    assert_eq!(cs.num_public(), 2);
    assert_eq!(cs.num_aux(), 3);
    assert_eq!(cs.constraints_len(), 0);
    cs.add_constraint(
        &[LinearTerm { coeff: FieldT::one(), index: 1 }],
        &[LinearTerm { coeff: FieldT::one(), index: 2 }],
        &[LinearTerm { coeff: FieldT::one(), index: 3 }],
    )
    .unwrap();
    assert_eq!(cs.constraints_len(), 1);
    let c = cs.constraint_at(0);
    assert_eq!(c.a.len(), 1);
    assert_eq!(c.a[0].index, 1);
    assert_eq!(c.b[0].index, 2);
    assert_eq!(c.c[0].index, 3);
}
