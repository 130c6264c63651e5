use crdt_genome::codec::{decode_op, encode_op};
use crdt_genome::genome::Genome;
use crdt_genome::op::{Dot, Op};

fn assert_same_op(a: &Op, b: &Op) {
    assert_eq!(a.id, b.id);
    assert_eq!(a.value, b.value);
    assert_eq!(a.predecessor, b.predecessor);
}

#[test]
fn encodes_a_root_op_to_fixed_width_hex() {
    let op = Op { id: Dot { actor: 1, counter: 2 }, value: 0xab, predecessor: None };
    let bytes = encode_op(&op);
    let expected = b"n00000000000000010000000000000002ab".to_vec();
    assert_eq!(bytes, expected);
}

#[test]
fn encodes_a_chained_op_with_its_predecessor() {
    let op = Op {
        id: Dot { actor: 16, counter: 255 },
        value: 1,
        predecessor: Some(Dot { actor: 1, counter: 2 }),
    };
    let bytes = encode_op(&op);
    let expected =
        b"p000000000000001000000000000000ff0100000000000000010000000000000002".to_vec();
    assert_eq!(bytes, expected);
}

#[test]
fn round_trips_generated_ops() {
    let mut g = Genome::new();
    let a = g.append(7, 3);
    let b = g.append(8, 3);
    for op in [a, b] {
        let bytes = encode_op(&op);
        let back = decode_op(&bytes).expect("a fresh encoding must decode");
        assert_same_op(&op, &back);
    }
}

#[test]
fn rejects_malformed_records() {
    // wrong length
    assert!(decode_op(&vec![1, 2, 3]).is_none());
    assert!(decode_op(&Vec::new()).is_none());

    let op = Op { id: Dot { actor: 1, counter: 2 }, value: 0xab, predecessor: None };
    let good = encode_op(&op);

    // wrong marker for the length
    let mut wrong_marker = good.clone();
    wrong_marker[0] = b'p';
    assert!(decode_op(&wrong_marker).is_none());

    // a byte that is no lowercase hexadecimal digit
    let mut bad_digit = good.clone();
    bad_digit[5] = b'g';
    assert!(decode_op(&bad_digit).is_none());
    let mut upper = good.clone();
    upper[33] = b'A';
    assert!(decode_op(&upper).is_none());

    // the unchanged record still decodes
    let back = decode_op(&good).expect("the untouched record must decode");
    assert_same_op(&op, &back);
}
