use gremlin::corpus::{encode_transport, holdout_inputs, Corpus, TargetIdentity};
use gremlin::fixtures::fixture_observe;
use gremlin::rng::Rng;
use gremlin::sig::Signature;
use gremlin::types::{Type, Value};

#[test]
fn finite_holdout_excludes_corpus() {
    let s = Signature {
        arguments: vec![Type::U8],
        return_type: Type::U8,
    };
    let mut c = Corpus::new(TargetIdentity {
        name: "test".into(),
        signature: s.clone(),
        contract: "test".into(),
        implementation_fingerprint: "test".into(),
    });
    c.add(vec!["0x00".into()], "0x00".into(), "test".into())
        .unwrap();
    let h = holdout_inputs(&s, &c, 3, 300);
    assert_eq!(h.inputs.len(), 255);
    assert!(h.domain_exhausted);
    assert!(h.inputs.iter().all(|a| a[0].bits != 0));
}

#[test]
fn transport_encoding() {
    let s = Signature {
        arguments: vec![Type::I16, Type::U8],
        return_type: Type::U8,
    };
    assert_eq!(
        encode_transport(
            &s,
            &[Value::new(Type::I16, 0xfffe), Value::new(Type::U8, 3)]
        )
        .unwrap(),
        vec![254, 255, 3]
    );
    assert!(Value::from_hex(Type::U8, "0x0001").is_err());
}

#[test]
fn pinned_vector() {
    let mut r = Rng::new(0);
    assert_eq!(r.next_u64(), 0xe220a8397b1dcdaf);
    assert_eq!(r.next_u64(), 0x6e789e6aa1b965f4);
}

#[test]
fn explicit_oracle_vectors() {
    for (name, x, y, expected) in [
        ("min_u8", 3, 5, 3),
        ("min_u8", 255, 0, 0),
        ("bounded_sum_u8", 3, 5, 15),
        ("bounded_sum_u8", 255, 40, 64),
    ] {
        assert_eq!(
            fixture_observe(name, &[Value::new(Type::U8, x), Value::new(Type::U8, y)])
                .unwrap()
                .bits,
            expected
        );
    }
    for (name, args, expected) in [
        ("identity_u64", vec![u64::MAX], u64::MAX),
        ("increment_u64", vec![u64::MAX], 0),
        ("xor_u64", vec![0], 0x12345678),
        ("xor_u64", vec![0x12345678], 0),
        ("add_u64", vec![u64::MAX, 2], 1),
        ("composed_u64", vec![5], 16),
        ("composed_u64", vec![u64::MAX], u64::MAX - 1),
        ("affine_u64", vec![0], 0x7f6e5d4b),
        ("affine_u64", vec![1], 0x7f6e5d52),
    ] {
        assert_eq!(
            fixture_observe(
                name,
                &args
                    .into_iter()
                    .map(|n| Value::new(Type::U64, n))
                    .collect::<Vec<_>>()
            )
            .unwrap()
            .bits,
            expected
        );
    }
}
