use crdt_genome::genome::Genome;
use crdt_genome::op::{Dot, Op};

#[test]
fn can_create_empty_genome() {
    let g = Genome::new();
    assert!(g.is_empty());
    let v = g.read_values();
    assert!(v.is_empty());
}

#[test]
fn can_append() {
    let mut g = Genome::new();
    assert!(g.is_empty());

    let x: u8 = 42;
    let a: usize = 111;

    let _op = g.append(x, a);

    let v = g.read_values();
    assert_eq!(v, vec![42]);
}

#[test]
fn append_preserves_order() {
    let mut g1 = Genome::new();
    let mut g2 = Genome::new();

    const A1: usize = 111;
    const A2: usize = 222;

    let mut g1ops = vec![g1.append(1, A1)];
    g1ops.push(g1.append(2, A1));
    g1ops.push(g1.append(3, A1));

    let mut g2ops = vec![g2.append(4, A2)];
    g2ops.push(g2.append(5, A2));
    g2ops.push(g2.append(6, A2));

    for op in &g2ops {
        g1.apply(*op);
    }

    for op in &g1ops {
        g2.apply(*op);
    }

    let g1_genes = g1.read_values();
    println!("g1 genes = {:?}", g1_genes);

    let g2_genes = g2.read_values();
    println!("g2 genes = {:?}", g2_genes);

    assert!(g1.is_equal(&g2));
}

#[test]
fn display_looks_right() {
    const ACTOR: usize = 42;
    let mut g = Genome::new();
    assert_eq!(g.serialize(), "");
    g.append(0, ACTOR);
    assert_eq!(g.serialize(), "00");
    g.append(1, ACTOR);
    assert_eq!(g.serialize(), "0001");
    g.append(255, ACTOR);
    assert_eq!(g.serialize(), "0001ff");
}

#[test]
fn applying_an_op_twice_is_a_no_op() {
    let mut source = Genome::new();
    let op = source.append(9, 1);

    let mut once = Genome::new();
    once.apply(op);

    let mut twice = Genome::new();
    twice.apply(op);
    twice.apply(op);

    assert_eq!(once.read_values(), vec![9]);
    assert!(once.is_equal(&twice));
    assert_eq!(once.serialize(), twice.serialize());
}

#[test]
fn duplicate_identifier_keeps_first_value() {
    let id = Dot { actor: 3, counter: 1 };
    let first = Op { id, value: 10, predecessor: None };
    let second = Op { id, value: 20, predecessor: None };

    let mut g = Genome::new();
    g.apply(first);
    g.apply(second);
    assert_eq!(g.read_values(), vec![10]);
}

#[test]
fn out_of_order_delivery_buffers_then_applies() {
    let mut source = Genome::new();
    let a = source.append(1, 7);
    let b = source.append(2, 7);

    let mut g = Genome::new();
    g.apply(b);
    // the operation waits for its predecessor; it is not dropped
    assert!(g.is_empty());
    g.apply(a);
    assert_eq!(g.read_values(), vec![1, 2]);
    assert_eq!(g.serialize(), source.serialize());
}

#[test]
fn dangling_predecessor_stays_buffered() {
    let orphan = Op {
        id: Dot { actor: 1, counter: 5 },
        value: 77,
        predecessor: Some(Dot { actor: 9, counter: 9 }),
    };
    let mut g = Genome::new();
    g.apply(orphan);
    assert!(g.is_empty());
    assert_eq!(g.serialize(), "");
}

#[test]
fn replicas_converge_under_any_order_and_duplication() {
    let mut a1 = Genome::new();
    let mut a2 = Genome::new();

    let ops1 = vec![a1.append(1, 1), a1.append(2, 1), a1.append(3, 1)];
    let ops2 = vec![a2.append(4, 2), a2.append(5, 2), a2.append(6, 2)];

    // replica 1 sees replica 2's operations newest first, each twice
    for op in ops2.iter().rev() {
        a1.apply(*op);
        a1.apply(*op);
    }
    // replica 2 sees replica 1's operations in order, with a stray repeat
    for op in &ops1 {
        a2.apply(*op);
    }
    a2.apply(ops1[0]);

    assert_eq!(a1.serialize(), a2.serialize());
    assert!(a1.is_equal(&a2));
    assert_eq!(a1.read_values().len(), 6);
}

#[test]
fn batch_application_is_order_independent() {
    let mut src1 = Genome::new();
    let mut batch = vec![src1.append(1, 1), src1.append(2, 1), src1.append(3, 1)];
    let mut src2 = Genome::new();
    batch.push(src2.append(4, 2));
    batch.push(src2.append(5, 2));

    let mut reversed = batch.clone();
    reversed.reverse();

    let mut g1 = Genome::new();
    g1.apply_all(&batch);
    let mut g2 = Genome::new();
    g2.apply_all(&reversed);

    assert_eq!(g1.serialize(), g2.serialize());
    assert_eq!(g1.read_values().len(), 5);
}

#[test]
fn sibling_order_breaks_ties_by_actor_then_counter() {
    // two actors append concurrently onto the empty sequence
    let left = Op { id: Dot { actor: 2, counter: 1 }, value: 0xbb, predecessor: None };
    let right = Op { id: Dot { actor: 1, counter: 1 }, value: 0xaa, predecessor: None };

    let mut g1 = Genome::new();
    g1.apply(left);
    g1.apply(right);

    let mut g2 = Genome::new();
    g2.apply(right);
    g2.apply(left);

    // actor 1's element comes first regardless of arrival order
    assert_eq!(g1.read_values(), vec![0xaa, 0xbb]);
    assert_eq!(g1.serialize(), g2.serialize());
}
