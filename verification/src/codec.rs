use vstd::prelude::*;

use crate::op::{Dot, Op};
use vstd::arithmetic::div_mod::lemma_fundamental_div_mod;
use vstd::arithmetic::power::{lemma_pow_increases, pow};

verus! {

/// The ASCII byte of one lowercase hexadecimal digit.
pub open spec fn nib_byte(v: int) -> u8
    recommends
        0 <= v < 16,
{
    if v < 10 {
        (48 + v) as u8
    } else {
        (87 + v) as u8
    }
}

/// The byte is a lowercase hexadecimal digit.
pub open spec fn is_nib(b: u8) -> bool {
    (48 <= b <= 57) || (97 <= b <= 102)
}

/// The value of a lowercase hexadecimal digit byte.
pub open spec fn nib_val(b: u8) -> int {
    if b <= 57 {
        b - 48
    } else {
        b - 87
    }
}

/// The number `x` written as exactly `n` lowercase hexadecimal digits, most
/// significant first.
pub open spec fn nibbles(x: int, n: nat) -> Seq<u8>
    recommends
        x >= 0,
    decreases n,
{
    if n == 0 {
        Seq::empty()
    } else {
        nibbles(x / 16, (n - 1) as nat).push(nib_byte(x % 16))
    }
}

/// The wire record of one operation: a marker byte
/// (`n` for no predecessor, `p` for one), then actor, counter and value as
/// fixed-width hexadecimal, then the predecessor's actor and counter when
/// present. 35 bytes without a predecessor, 67 with one.
pub open spec fn encode_spec(op: Op) -> Seq<u8> {
    match op.predecessor {
        None => seq![110u8] + nibbles(op.id.actor as int, 16) + nibbles(op.id.counter as int, 16)
            + nibbles(op.value as int, 2),
        Some(d) => seq![112u8] + nibbles(op.id.actor as int, 16) + nibbles(
            op.id.counter as int,
            16,
        ) + nibbles(op.value as int, 2) + nibbles(d.actor as int, 16) + nibbles(
            d.counter as int,
            16,
        ),
    }
}

/// The rendering is fixed width.
pub proof fn lemma_nibbles_len(x: int, n: nat)
    ensures
        nibbles(x, n).len() == n,
    decreases n,
{
    if n > 0 {
        lemma_nibbles_len(x / 16, (n - 1) as nat);
    }
}

/// The rendering consists of hexadecimal digits and nothing else.
pub proof fn lemma_nibbles_hex(x: int, n: nat)
    requires
        x >= 0,
    ensures
        forall|i: int| 0 <= i < n ==> is_nib(#[trigger] nibbles(x, n)[i]),
    decreases n,
{
    if n > 0 {
        lemma_nibbles_hex(x / 16, (n - 1) as nat);
        lemma_nibbles_len(x / 16, (n - 1) as nat);
        assert forall|i: int| 0 <= i < n implies is_nib(#[trigger] nibbles(x, n)[i]) by {
            if i < n - 1 {
                assert(nibbles(x, n)[i] == nibbles(x / 16, (n - 1) as nat)[i]);
            } else {
                assert(nibbles(x, n)[i] == nib_byte(x % 16));
            }
        }
    }
}

/// Writing one more low digit of a number extends its rendering by that
/// digit.
pub proof fn lemma_nibbles_step(acc: int, d: int, n: nat)
    requires
        acc >= 0,
        0 <= d < 16,
    ensures
        nibbles(16 * acc + d, n + 1) == nibbles(acc, n).push(nib_byte(d)),
{
    assert((16 * acc + d) / 16 == acc) by (nonlinear_arith)
        requires
            acc >= 0,
            0 <= d < 16,
    ;
    assert((16 * acc + d) % 16 == d) by (nonlinear_arith)
        requires
            acc >= 0,
            0 <= d < 16,
    ;
}

/// A fixed-width rendering identifies the number: two different numbers in
/// range never render to the same digits.
pub proof fn lemma_nibbles_injective(x: int, y: int, n: nat)
    requires
        0 <= x < pow(16, n),
        0 <= y < pow(16, n),
        nibbles(x, n) == nibbles(y, n),
    ensures
        x == y,
    decreases n,
{
    reveal(pow);
    if n == 0 {
        assert(pow(16, 0) == 1);
    } else {
        lemma_nibbles_len(x / 16, (n - 1) as nat);
        lemma_nibbles_len(y / 16, (n - 1) as nat);
        assert(nibbles(x, n).last() == nib_byte(x % 16));
        assert(nibbles(y, n).last() == nib_byte(y % 16));
        assert(x % 16 == y % 16);
        assert(nibbles(x, n).drop_last() =~= nibbles(x / 16, (n - 1) as nat));
        assert(nibbles(y, n).drop_last() =~= nibbles(y / 16, (n - 1) as nat));
        assert(pow(16, n) == 16 * pow(16, (n - 1) as nat));
        assert(x / 16 < pow(16, (n - 1) as nat)) by (nonlinear_arith)
            requires
                x >= 0,
                pow(16, (n - 1) as nat) > 0,
                x < 16 * pow(16, (n - 1) as nat),
        ;
        assert(y / 16 < pow(16, (n - 1) as nat)) by (nonlinear_arith)
            requires
                y >= 0,
                pow(16, (n - 1) as nat) > 0,
                y < 16 * pow(16, (n - 1) as nat),
        ;
        vstd::arithmetic::power::lemma_pow_positive(16, (n - 1) as nat);
        lemma_nibbles_injective(x / 16, y / 16, (n - 1) as nat);
        lemma_fundamental_div_mod(x, 16);
        lemma_fundamental_div_mod(y, 16);
    }
}

proof fn lemma_pow16_16()
    ensures
        pow(16, 16) == 0x1_0000_0000_0000_0000,
{
    reveal_with_fuel(pow, 17);
}

/// Where each field sits in the wire record.
pub proof fn lemma_encode_shape(op: Op)
    ensures
        op.predecessor is None ==> encode_spec(op).len() == 35,
        op.predecessor is Some ==> encode_spec(op).len() == 67,
        op.predecessor is None ==> encode_spec(op)[0] == 110u8,
        op.predecessor is Some ==> encode_spec(op)[0] == 112u8,
        encode_spec(op).subrange(1, 17) == nibbles(op.id.actor as int, 16),
        encode_spec(op).subrange(17, 33) == nibbles(op.id.counter as int, 16),
        encode_spec(op).subrange(33, 35) == nibbles(op.value as int, 2),
        op.predecessor is Some ==> encode_spec(op).subrange(35, 51) == nibbles(
            (op.predecessor->0).actor as int,
            16,
        ),
        op.predecessor is Some ==> encode_spec(op).subrange(51, 67) == nibbles(
            (op.predecessor->0).counter as int,
            16,
        ),
{
    lemma_nibbles_len(op.id.actor as int, 16);
    lemma_nibbles_len(op.id.counter as int, 16);
    lemma_nibbles_len(op.value as int, 2);
    match op.predecessor {
        None => {
            assert(encode_spec(op).subrange(1, 17) =~= nibbles(op.id.actor as int, 16));
            assert(encode_spec(op).subrange(17, 33) =~= nibbles(op.id.counter as int, 16));
            assert(encode_spec(op).subrange(33, 35) =~= nibbles(op.value as int, 2));
        },
        Some(d) => {
            lemma_nibbles_len(d.actor as int, 16);
            lemma_nibbles_len(d.counter as int, 16);
            assert(encode_spec(op).subrange(1, 17) =~= nibbles(op.id.actor as int, 16));
            assert(encode_spec(op).subrange(17, 33) =~= nibbles(op.id.counter as int, 16));
            assert(encode_spec(op).subrange(33, 35) =~= nibbles(op.value as int, 2));
            assert(encode_spec(op).subrange(35, 51) =~= nibbles(d.actor as int, 16));
            assert(encode_spec(op).subrange(51, 67) =~= nibbles(d.counter as int, 16));
        },
    }
}

/// Round-trip fidelity of the wire record: the encoding identifies the
/// operation exactly.
pub proof fn lemma_encode_injective(op1: Op, op2: Op)
    requires
        encode_spec(op1) == encode_spec(op2),
    ensures
        op1 == op2,
{
    lemma_encode_shape(op1);
    lemma_encode_shape(op2);
    lemma_pow16_16();
    assert(op1.predecessor is Some <==> op2.predecessor is Some);
    assert(pow(16, 2) == 256) by {
        reveal_with_fuel(pow, 3);
    }
    lemma_nibbles_injective(op1.id.actor as int, op2.id.actor as int, 16);
    lemma_nibbles_injective(op1.id.counter as int, op2.id.counter as int, 16);
    lemma_nibbles_injective(op1.value as int, op2.value as int, 2);
    if op1.predecessor is Some {
        lemma_nibbles_injective(
            (op1.predecessor->0).actor as int,
            (op2.predecessor->0).actor as int,
            16,
        );
        lemma_nibbles_injective(
            (op1.predecessor->0).counter as int,
            (op2.predecessor->0).counter as int,
            16,
        );
        assert(op1.predecessor->0 == op2.predecessor->0);
    }
    assert(op1.id == op2.id);
}

/// The digits of `s` reversed.
spec fn rev_of(s: Seq<u8>) -> Seq<u8> {
    Seq::new(s.len(), |i: int| s[s.len() - 1 - i])
}

fn nib_byte_of(v: u8) -> (r: u8)
    requires
        v < 16,
    ensures
        r == nib_byte(v as int),
{
    if v < 10 {
        48 + v
    } else {
        87 + v
    }
}

fn nib_val_of(b: u8) -> (r: Option<u8>)
    ensures
        match r {
            Some(v) => is_nib(b) && v == nib_val(b) && v < 16,
            None => !is_nib(b),
        },
{
    if b >= 48 && b <= 57 {
        Some(b - 48)
    } else if b >= 97 && b <= 102 {
        Some(b - 87)
    } else {
        None
    }
}

/// Append the fixed-width rendering of `x` to `out`.
fn push_nibbles(out: &mut Vec<u8>, x: u64, n: usize)
    requires
        n <= 16,
    ensures
        final(out)@ == old(out)@ + nibbles(x as int, n as nat),
{
    let ghost base = out@;
    let mut tmp: Vec<u8> = Vec::new();
    let mut v: u64 = x;
    let mut cnt: usize = 0;
    while cnt < n
        invariant
            cnt <= n,
            n <= 16,
            tmp@.len() == cnt,
            nibbles(x as int, n as nat) =~= nibbles(v as int, (n - cnt) as nat) + rev_of(tmp@),
        decreases n - cnt,
    {
        let ghost tmp0 = tmp@;
        let ghost v0 = v as int;
        let d: u8 = (v % 16) as u8;
        tmp.push(nib_byte_of(d));
        v = v / 16;
        proof {
            assert(nibbles(v0, (n - cnt) as nat) == nibbles(v0 / 16, (n - cnt - 1) as nat).push(
                nib_byte(v0 % 16),
            ));
            assert(rev_of(tmp@) =~= seq![nib_byte(v0 % 16)] + rev_of(tmp0));
            assert(nibbles(v0 / 16, (n - cnt - 1) as nat).push(nib_byte(v0 % 16)) + rev_of(tmp0)
                =~= nibbles(v0 / 16, (n - cnt - 1) as nat) + (seq![nib_byte(v0 % 16)] + rev_of(
                tmp0,
            )));
        }
        cnt = cnt + 1;
    }
    proof {
        assert(nibbles(x as int, n as nat) =~= rev_of(tmp@));
    }
    let mut j: usize = 0;
    while j < n
        invariant
            j <= n,
            n <= 16,
            tmp@.len() == n,
            nibbles(x as int, n as nat) == rev_of(tmp@),
            out@ =~= base + rev_of(tmp@).take(j as int),
        decreases n - j,
    {
        out.push(tmp[n - 1 - j]);
        proof {
            assert(rev_of(tmp@)[j as int] == tmp@[n - 1 - j]);
            assert(out@ =~= base + rev_of(tmp@).take(j as int + 1));
        }
        j = j + 1;
    }
    proof {
        assert(rev_of(tmp@).take(n as int) =~= rev_of(tmp@));
        assert(out@ =~= base + nibbles(x as int, n as nat));
    }
}

/// Read `n` hexadecimal digits of `s` starting at `start` as one number.
fn parse_nibbles(s: &Vec<u8>, start: usize, n: usize) -> (r: Option<u64>)
    requires
        start + n <= s.len(),
        n <= 16,
    ensures
        match r {
            Some(v) => nibbles(v as int, n as nat) == s@.subrange(start as int, start + n) && (
            v as int) < pow(16, n as nat),
            None => exists|i: int| start <= i < start + n && !is_nib(#[trigger] s@[i]),
        },
{
    proof {
        reveal(pow);
        lemma_pow16_16();
        assert(pow(16, 0) == 1);
    }
    let mut acc: u64 = 0;
    let mut i: usize = 0;
    while i < n
        invariant
            i <= n,
            n <= 16,
            start + n <= s@.len(),
            start + n <= usize::MAX,
            (acc as int) < pow(16, i as nat),
            nibbles(acc as int, i as nat) =~= s@.subrange(start as int, start + i),
        decreases n - i,
    {
        match nib_val_of(s[start + i]) {
            None => {
                return None;
            },
            Some(d) => {
                proof {
                    reveal(pow);
                    assert(pow(16, (i + 1) as nat) == 16 * pow(16, i as nat));
                    assert(16 * (acc as int) + d < pow(16, (i + 1) as nat));
                    lemma_pow_increases(16, (i + 1) as nat, 16);
                    lemma_pow16_16();
                    assert(16 * (acc as int) + d <= u64::MAX);
                    lemma_nibbles_step(acc as int, d as int, i as nat);
                    assert(nib_byte(nib_val(s@[start + i])) == s@[start + i]);
                    assert(s@.subrange(start as int, start + i + 1) =~= s@.subrange(
                        start as int,
                        start + i,
                    ).push(s@[start + i]));
                }
                acc = acc * 16 + (d as u64);
                i = i + 1;
            },
        }
    }
    Some(acc)
}

/// Encode one operation to its wire record.
pub fn encode_op(op: &Op) -> (r: Vec<u8>)
    ensures
        r@ == encode_spec(*op),
{
    let mut out: Vec<u8> = Vec::new();
    match op.predecessor {
        None => out.push(110u8),
        Some(_) => out.push(112u8),
    }
    proof {
        assert(out@ =~= seq![encode_spec(*op)[0]]);
        lemma_encode_shape(*op);
    }
    push_nibbles(&mut out, op.id.actor as u64, 16);
    push_nibbles(&mut out, op.id.counter, 16);
    push_nibbles(&mut out, op.value as u64, 2);
    match op.predecessor {
        None => {
            proof {
                assert(out@ =~= encode_spec(*op));
            }
        },
        Some(d) => {
            push_nibbles(&mut out, d.actor as u64, 16);
            push_nibbles(&mut out, d.counter, 16);
            proof {
                assert(out@ =~= encode_spec(*op));
            }
        },
    }
    out
}

/// Decode a wire record. Exactly the well-formed records decode: the result
/// is `Some(op)` precisely when the input is `op`'s encoding, and anything
/// else — wrong length, wrong marker, a non-hexadecimal digit, or an actor
/// id that does not fit the machine — is rejected before it can reach the
/// engine.
pub fn decode_op(s: &Vec<u8>) -> (r: Option<Op>)
    ensures
        r matches Some(op) ==> s@ == encode_spec(op),
        r is None ==> forall|op: Op| s@ != encode_spec(op),
{
    proof {
        lemma_pow16_16();
    }
    let len = s.len();
    if len != 35 && len != 67 {
        proof {
            assert forall|op: Op| s@ != encode_spec(op) by {
                lemma_encode_shape(op);
            }
        }
        return None;
    }
    let marker = s[0];
    let has_pred: bool;
    if marker == 110 && len == 35 {
        has_pred = false;
    } else if marker == 112 && len == 67 {
        has_pred = true;
    } else {
        proof {
            assert forall|op: Op| s@ != encode_spec(op) by {
                lemma_encode_shape(op);
            }
        }
        return None;
    }
    let a64 = match parse_nibbles(s, 1, 16) {
        Some(v) => v,
        None => {
            proof {
                assert forall|op: Op| s@ != encode_spec(op) by {
                    if s@ == encode_spec(op) {
                        lemma_encode_shape(op);
                        lemma_nibbles_hex(op.id.actor as int, 16);
                        let i = choose|i: int| 1 <= i < 17 && !is_nib(#[trigger] s@[i]);
                        assert(s@[i] == s@.subrange(1, 17)[i - 1]);
                    }
                }
            }
            return None;
        },
    };
    let c64 = match parse_nibbles(s, 17, 16) {
        Some(v) => v,
        None => {
            proof {
                assert forall|op: Op| s@ != encode_spec(op) by {
                    if s@ == encode_spec(op) {
                        lemma_encode_shape(op);
                        lemma_nibbles_hex(op.id.counter as int, 16);
                        let i = choose|i: int| 17 <= i < 33 && !is_nib(#[trigger] s@[i]);
                        assert(s@[i] == s@.subrange(17, 33)[i - 17]);
                    }
                }
            }
            return None;
        },
    };
    let v64 = match parse_nibbles(s, 33, 2) {
        Some(v) => v,
        None => {
            proof {
                assert forall|op: Op| s@ != encode_spec(op) by {
                    if s@ == encode_spec(op) {
                        lemma_encode_shape(op);
                        lemma_nibbles_hex(op.value as int, 2);
                        let i = choose|i: int| 33 <= i < 35 && !is_nib(#[trigger] s@[i]);
                        assert(s@[i] == s@.subrange(33, 35)[i - 33]);
                    }
                }
            }
            return None;
        },
    };
    if a64 > (usize::MAX as u64) {
        proof {
            assert forall|op: Op| s@ != encode_spec(op) by {
                if s@ == encode_spec(op) {
                    lemma_encode_shape(op);
                    lemma_nibbles_injective(a64 as int, op.id.actor as int, 16);
                }
            }
        }
        return None;
    }
    proof {
        assert(pow(16, 2) == 256) by {
            reveal_with_fuel(pow, 3);
        }
    }
    let value: u8 = v64 as u8;
    let id = Dot { actor: a64 as usize, counter: c64 };
    if !has_pred {
        let op = Op { id, value, predecessor: None };
        proof {
            lemma_encode_shape(op);
            assert(s@ =~= encode_spec(op)) by {
                assert(encode_spec(op).subrange(1, 17) == nibbles(a64 as int, 16));
                assert(encode_spec(op).subrange(17, 33) == nibbles(c64 as int, 16));
                assert(encode_spec(op).subrange(33, 35) == nibbles(v64 as int, 2));
                assert forall|i: int| 0 <= i < 35 implies s@[i] == encode_spec(op)[i] by {
                    if 1 <= i < 17 {
                        assert(s@[i] == s@.subrange(1, 17)[i - 1]);
                        assert(encode_spec(op)[i] == encode_spec(op).subrange(1, 17)[i - 1]);
                    } else if 17 <= i < 33 {
                        assert(s@[i] == s@.subrange(17, 33)[i - 17]);
                        assert(encode_spec(op)[i] == encode_spec(op).subrange(17, 33)[i - 17]);
                    } else if 33 <= i < 35 {
                        assert(s@[i] == s@.subrange(33, 35)[i - 33]);
                        assert(encode_spec(op)[i] == encode_spec(op).subrange(33, 35)[i - 33]);
                    }
                }
            }
        }
        return Some(op);
    }
    let pa64 = match parse_nibbles(s, 35, 16) {
        Some(v) => v,
        None => {
            proof {
                assert forall|op: Op| s@ != encode_spec(op) by {
                    if s@ == encode_spec(op) {
                        lemma_encode_shape(op);
                        lemma_nibbles_hex((op.predecessor->0).actor as int, 16);
                        let i = choose|i: int| 35 <= i < 51 && !is_nib(#[trigger] s@[i]);
                        assert(s@[i] == s@.subrange(35, 51)[i - 35]);
                    }
                }
            }
            return None;
        },
    };
    let pc64 = match parse_nibbles(s, 51, 16) {
        Some(v) => v,
        None => {
            proof {
                assert forall|op: Op| s@ != encode_spec(op) by {
                    if s@ == encode_spec(op) {
                        lemma_encode_shape(op);
                        lemma_nibbles_hex((op.predecessor->0).counter as int, 16);
                        let i = choose|i: int| 51 <= i < 67 && !is_nib(#[trigger] s@[i]);
                        assert(s@[i] == s@.subrange(51, 67)[i - 51]);
                    }
                }
            }
            return None;
        },
    };
    if pa64 > (usize::MAX as u64) {
        proof {
            assert forall|op: Op| s@ != encode_spec(op) by {
                if s@ == encode_spec(op) {
                    lemma_encode_shape(op);
                    lemma_nibbles_injective(pa64 as int, (op.predecessor->0).actor as int, 16);
                }
            }
        }
        return None;
    }
    let pred = Dot { actor: pa64 as usize, counter: pc64 };
    let op = Op { id, value, predecessor: Some(pred) };
    proof {
        lemma_encode_shape(op);
        assert(s@ =~= encode_spec(op)) by {
            assert(encode_spec(op).subrange(1, 17) == nibbles(a64 as int, 16));
            assert(encode_spec(op).subrange(17, 33) == nibbles(c64 as int, 16));
            assert(encode_spec(op).subrange(33, 35) == nibbles(v64 as int, 2));
            assert(encode_spec(op).subrange(35, 51) == nibbles(pa64 as int, 16));
            assert(encode_spec(op).subrange(51, 67) == nibbles(pc64 as int, 16));
            assert forall|i: int| 0 <= i < 67 implies s@[i] == encode_spec(op)[i] by {
                if 1 <= i < 17 {
                    assert(s@[i] == s@.subrange(1, 17)[i - 1]);
                    assert(encode_spec(op)[i] == encode_spec(op).subrange(1, 17)[i - 1]);
                } else if 17 <= i < 33 {
                    assert(s@[i] == s@.subrange(17, 33)[i - 17]);
                    assert(encode_spec(op)[i] == encode_spec(op).subrange(17, 33)[i - 17]);
                } else if 33 <= i < 35 {
                    assert(s@[i] == s@.subrange(33, 35)[i - 33]);
                    assert(encode_spec(op)[i] == encode_spec(op).subrange(33, 35)[i - 33]);
                } else if 35 <= i < 51 {
                    assert(s@[i] == s@.subrange(35, 51)[i - 35]);
                    assert(encode_spec(op)[i] == encode_spec(op).subrange(35, 51)[i - 35]);
                } else if 51 <= i < 67 {
                    assert(s@[i] == s@.subrange(51, 67)[i - 51]);
                    assert(encode_spec(op)[i] == encode_spec(op).subrange(51, 67)[i - 51]);
                }
            }
        }
    }
    Some(op)
}

} // verus!
