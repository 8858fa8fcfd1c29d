//! Byte strings: their dictionary order and the fixed-width big-endian
//! encodings of integers.
use crate::ordmap::Rank;
use vstd::prelude::*;

verus! {

/// `a` and `b` agree before place `i`, and there `a` ends or holds the smaller byte.
pub open spec fn parts_at(a: Seq<u8>, b: Seq<u8>, i: int) -> bool {
    &&& 0 <= i <= a.len()
    &&& i < b.len()
    &&& forall|j: int| 0 <= j < i ==> a[j] == b[j]
    &&& i < a.len() ==> a[i] < b[i]
}

/// `a` comes before `b` in dictionary order.
pub open spec fn lex_before(a: Seq<u8>, b: Seq<u8>) -> bool {
    exists|i: int| parts_at(a, b, i)
}

pub proof fn lemma_lex_irreflexive(a: Seq<u8>)
    ensures
        !lex_before(a, a),
{
}

pub proof fn lemma_lex_transitive(a: Seq<u8>, b: Seq<u8>, c: Seq<u8>)
    requires
        lex_before(a, b),
        lex_before(b, c),
    ensures
        lex_before(a, c),
{
    let i = choose|i: int| parts_at(a, b, i);
    let j = choose|j: int| parts_at(b, c, j);
    assert(parts_at(a, c, if i < j { i } else { j }));
}

/// The length of the longest common prefix of `a` and `b`.
pub open spec fn common_prefix(a: Seq<u8>, b: Seq<u8>) -> int
    decreases a.len(),
{
    if a.len() == 0 || b.len() == 0 || a[0] != b[0] {
        0
    } else {
        1 + common_prefix(a.drop_first(), b.drop_first())
    }
}

proof fn lemma_common_prefix(a: Seq<u8>, b: Seq<u8>)
    ensures
        0 <= common_prefix(a, b) <= a.len(),
        common_prefix(a, b) <= b.len(),
        forall|j: int| 0 <= j < common_prefix(a, b) ==> a[j] == b[j],
        common_prefix(a, b) < a.len() && common_prefix(a, b) < b.len() ==> a[common_prefix(a, b)]
            != b[common_prefix(a, b)],
    decreases a.len(),
{
    if a.len() == 0 || b.len() == 0 || a[0] != b[0] {
    } else {
        let x = a.drop_first();
        let y = b.drop_first();
        lemma_common_prefix(x, y);
        assert forall|j: int| 0 <= j < common_prefix(a, b) implies a[j] == b[j] by {
            if j > 0 {
                assert(x[j - 1] == y[j - 1]);
            }
        }
    }
}

pub proof fn lemma_lex_total(a: Seq<u8>, b: Seq<u8>)
    ensures
        lex_before(a, b) || a == b || lex_before(b, a),
{
    lemma_common_prefix(a, b);
    let i = common_prefix(a, b);
    if i == a.len() && i == b.len() {
        assert(a =~= b);
    } else if i == a.len() || (i < b.len() && a[i] < b[i]) {
        assert(parts_at(a, b, i));
    } else {
        assert(parts_at(b, a, i));
    }
}

/// Compare two byte strings in dictionary order.
pub fn compare(a: &[u8], b: &[u8]) -> (rank: Rank)
    ensures
        rank == Rank::Before <==> lex_before(a@, b@),
        rank == Rank::Same <==> a@ == b@,
        rank == Rank::After <==> lex_before(b@, a@),
{
    let mut i: usize = 0;
    let shorter: usize = if a.len() < b.len() { a.len() } else { b.len() };
    while i < shorter
        invariant
            i <= shorter <= a@.len(),
            shorter <= b@.len(),
            forall|j: int| 0 <= j < i ==> a@[j] == b@[j],
        decreases shorter - i,
    {
        if a[i] < b[i] {
            proof {
                assert(parts_at(a@, b@, i as int));
            }
            return Rank::Before;
        }
        if b[i] < a[i] {
            proof {
                assert(parts_at(b@, a@, i as int));
            }
            return Rank::After;
        }
        i = i + 1;
    }
    if a.len() < b.len() {
        proof {
            assert(parts_at(a@, b@, i as int));
        }
        Rank::Before
    } else if b.len() < a.len() {
        proof {
            assert(parts_at(b@, a@, i as int));
        }
        Rank::After
    } else {
        proof {
            assert(a@ =~= b@);
        }
        Rank::Same
    }
}

/// The big-endian encoding of `n` in `width` bytes.
pub open spec fn be(n: nat, width: nat) -> Seq<u8>
    decreases width,
{
    if width == 0 {
        seq![]
    } else {
        be(n / 256, (width - 1) as nat).push((n % 256) as u8)
    }
}

pub open spec fn pow256(width: nat) -> nat
    decreases width,
{
    if width == 0 {
        1
    } else {
        256 * pow256((width - 1) as nat)
    }
}

pub proof fn lemma_be_len(n: nat, width: nat)
    ensures
        be(n, width).len() == width,
    decreases width,
{
    if width > 0 {
        lemma_be_len(n / 256, (width - 1) as nat);
    }
}

/// Numbers that fit in `width` bytes have different encodings.
pub proof fn lemma_be_injective(m: nat, n: nat, width: nat)
    requires
        m < pow256(width),
        n < pow256(width),
        be(m, width) == be(n, width),
    ensures
        m == n,
    decreases width,
{
    if width > 0 {
        let w = (width - 1) as nat;
        let x = be(m / 256, w).push((m % 256) as u8);
        let y = be(n / 256, w).push((n % 256) as u8);
        lemma_be_len(m / 256, w);
        lemma_be_len(n / 256, w);
        assert(x.last() == y.last());
        assert(x.drop_last() =~= be(m / 256, w));
        assert(y.drop_last() =~= be(n / 256, w));
        lemma_be_injective(m / 256, n / 256, w);
    }
}

pub proof fn lemma_pow256_values()
    ensures
        pow256(2) == 0x1_0000,
        pow256(8) == 0x1_0000_0000_0000_0000,
{
    reveal_with_fuel(pow256, 9);
}

/// The number that `bytes` write, the first byte the most significant.
pub open spec fn be_value(bytes: Seq<u8>) -> nat
    decreases bytes.len(),
{
    if bytes.len() == 0 {
        0
    } else {
        bytes[0] as nat * pow256((bytes.len() - 1) as nat) + be_value(bytes.drop_first())
    }
}

proof fn lemma_be_value_push(bytes: Seq<u8>, b: u8)
    ensures
        be_value(bytes.push(b)) == 256 * be_value(bytes) + b,
    decreases bytes.len(),
{
    let more = bytes.push(b);
    if bytes.len() == 0 {
        assert(more.drop_first() =~= Seq::<u8>::empty());
        assert(pow256(0) == 1);
        assert(be_value(Seq::<u8>::empty()) == 0);
        assert(more[0] as nat * 1 == b) by (nonlinear_arith)
            requires
                more[0] == b,
        ;
    } else {
        let rest = bytes.drop_first();
        let n = rest.len() as nat;
        assert(more.drop_first() =~= rest.push(b));
        lemma_be_value_push(rest, b);
        assert(pow256((more.len() - 1) as nat) == 256 * pow256(n));
        let d = bytes[0] as nat;
        let p = pow256(n);
        assert(d * (256 * p) == 256 * (d * p)) by (nonlinear_arith);
    }
}

/// The big-endian encoding of a number that fits writes that number.
pub proof fn law_be_value(n: nat, width: nat)
    requires
        n < pow256(width),
    ensures
        be_value(be(n, width)) == n,
    decreases width,
{
    if width > 0 {
        let w = (width - 1) as nat;
        law_be_value(n / 256, w);
        lemma_be_value_push(be(n / 256, w), (n % 256) as u8);
    }
}

/// Append the big-endian encoding of `n` in `width` bytes.
fn push_be(out: &mut Vec<u8>, n: u64, width: u8)
    ensures
        final(out)@ == old(out)@ + be(n as nat, width as nat),
    decreases width,
{
    if width > 0 {
        push_be(out, n / 256, width - 1);
        out.push((n % 256) as u8);
    }
    proof {
        assert(out@ =~= old(out)@ + be(n as nat, width as nat));
    }
}

/// Append the big-endian encoding of a `u16`.
pub fn push_u16(out: &mut Vec<u8>, n: u16)
    ensures
        final(out)@ == old(out)@ + be(n as nat, 2),
{
    push_be(out, n as u64, 2)
}

/// Append the big-endian encoding of a `u64`.
pub fn push_u64(out: &mut Vec<u8>, n: u64)
    ensures
        final(out)@ == old(out)@ + be(n as nat, 8),
{
    push_be(out, n, 8)
}

/// Append a whole byte string.
pub fn push_bytes(out: &mut Vec<u8>, bytes: &[u8])
    ensures
        final(out)@ == old(out)@ + bytes@,
{
    let mut i: usize = 0;
    while i < bytes.len()
        invariant
            i <= bytes@.len(),
            out@ == old(out)@ + bytes@.take(i as int),
        decreases bytes@.len() - i,
    {
        out.push(bytes[i]);
        i = i + 1;
        proof {
            assert(out@ =~= old(out)@ + bytes@.take(i as int));
        }
    }
    proof {
        assert(bytes@.take(i as int) =~= bytes@);
    }
}

/// In dictionary order the first place where two byte strings differ decides, and there
/// the smaller byte comes first; a byte string comes before those that go on from it.
pub proof fn law_first_difference_decides(same: Seq<u8>, x: u8, y: u8, a: Seq<u8>, b: Seq<u8>)
    ensures
        x < y ==> lex_before(same + seq![x] + a, same + seq![y] + b),
        x > y ==> !lex_before(same + seq![x] + a, same + seq![y] + b),
        lex_before(same, same + seq![x] + a),
        !lex_before(same + seq![x] + a, same),
{
    let one = same + seq![x] + a;
    let two = same + seq![y] + b;
    let n = same.len() as int;
    assert(one[n] == x && two[n] == y);
    assert(forall|j: int| 0 <= j < n ==> one[j] == same[j] && two[j] == same[j]);
    if x < y {
        assert(parts_at(one, two, n));
    }
    if x > y {
        assert(parts_at(two, one, n));
        if lex_before(one, two) {
            lemma_lex_transitive(one, two, one);
            lemma_lex_irreflexive(one);
        }
    }
    assert(parts_at(same, one, n));
    if lex_before(one, same) {
        lemma_lex_transitive(one, same, one);
        lemma_lex_irreflexive(one);
    }
}

} // verus!
