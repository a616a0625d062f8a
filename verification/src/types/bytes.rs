//! Big-endian integer encoding and lexicographic order of byte strings.
use vstd::prelude::*;

verus! {

/// 256 to the power `n`.
pub open spec fn pow256(n: nat) -> nat
    decreases n,
{
    if n == 0 {
        1
    } else {
        256 * pow256((n - 1) as nat)
    }
}

/// The last `n` bytes of `x` in big-endian order.
pub open spec fn be_encode(x: nat, n: nat) -> Seq<u8>
    decreases n,
{
    if n == 0 {
        Seq::empty()
    } else {
        be_encode(x / 256, (n - 1) as nat).push((x % 256) as u8)
    }
}

/// The number that the big-endian bytes `s` denote.
pub open spec fn be_value(s: Seq<u8>) -> nat
    decreases s.len(),
{
    if s.len() == 0 {
        0
    } else {
        be_value(s.drop_last()) * 256 + s.last() as nat
    }
}

/// Lexicographic order of byte strings, as `<[u8]>::cmp` orders them.
pub open spec fn lex_lt(a: Seq<u8>, b: Seq<u8>) -> bool
    decreases a.len(),
{
    if a.len() == 0 {
        b.len() > 0
    } else if b.len() == 0 {
        false
    } else if a[0] != b[0] {
        a[0] < b[0]
    } else {
        lex_lt(a.drop_first(), b.drop_first())
    }
}

/// `pow256` is positive.
pub proof fn lemma_pow256_pos(n: nat)
    ensures
        pow256(n) > 0,
    decreases n,
{
    if n > 0 {
        lemma_pow256_pos((n - 1) as nat);
    }
}

/// Encoding yields `n` bytes.
pub proof fn lemma_be_encode_len(x: nat, n: nat)
    ensures
        be_encode(x, n).len() == n,
    decreases n,
{
    if n > 0 {
        lemma_be_encode_len(x / 256, (n - 1) as nat);
    }
}

/// Decoding an encoding gives the number back, modulo `256^n`.
pub proof fn lemma_be_roundtrip(x: nat, n: nat)
    ensures
        be_value(be_encode(x, n)) == x % pow256(n),
    decreases n,
{
    lemma_pow256_pos(n);
    if n == 0 {
    } else {
        let m = (n - 1) as nat;
        lemma_pow256_pos(m);
        lemma_be_roundtrip(x / 256, m);
        let e = be_encode(x, n);
        assert(e.drop_last() =~= be_encode(x / 256, m));
        vstd::arithmetic::div_mod::lemma_breakdown(x as int, 256, pow256(m) as int);
    }
}

/// The denoted number is below `256^len`.
pub proof fn lemma_be_value_bound(s: Seq<u8>)
    ensures
        be_value(s) < pow256(s.len()),
    decreases s.len(),
{
    if s.len() > 0 {
        lemma_be_value_bound(s.drop_last());
        let p = pow256((s.len() - 1) as nat);
        let v = be_value(s.drop_last());
        assert(v * 256 + s.last() < p * 256) by (nonlinear_arith)
            requires
                v < p,
                s.last() < 256,
        ;
    }
}

/// Appends the `n` low bytes of `x` to `out`, most significant first.
pub fn push_be(out: &mut Vec<u8>, x: u64, n: usize)
    ensures
        final(out)@ == old(out)@ + be_encode(x as nat, n as nat),
    decreases n,
{
    if n == 0 {
        assert(old(out)@ + be_encode(x as nat, 0) =~= old(out)@);
        return;
    }
    push_be(out, x / 256, n - 1);
    let ghost mid = out@;
    out.push((x % 256) as u8);
    proof {
        assert(be_encode(x as nat, n as nat) == be_encode((x / 256) as nat, (n - 1) as nat).push(
            (x % 256) as u8,
        ));
        assert(out@ =~= old(out)@ + be_encode(x as nat, n as nat));
    }
}

/// The number denoted by the big-endian bytes `data[start..start + n]`.
pub fn read_be(data: &[u8], start: usize, n: usize) -> (r: u64)
    requires
        n <= 8,
        start + n <= data@.len(),
    ensures
        r as nat == be_value(data@.subrange(start as int, start + n)),
{
    let mut v: u64 = 0;
    let mut i: usize = 0;
    let len = data.len();
    proof {
        assert(data@.subrange(start as int, start as int) =~= Seq::<u8>::empty());
    }
    while i < n
        invariant
            n <= 8,
            len == data@.len(),
            start + n <= data@.len(),
            i <= n,
            v as nat == be_value(data@.subrange(start as int, start + i)),
        decreases n - i,
    {
        let ghost pre = data@.subrange(start as int, start + i);
        proof {
            lemma_be_value_bound(pre);
            lemma_pow256_mono(i as nat, 7);
            assert(pow256(7) == 72057594037927936nat) by {
                reveal_with_fuel(pow256, 8);
            }
        }
        let b = data[start + i];
        v = v * 256 + b as u64;
        proof {
            let post = data@.subrange(start as int, start + i + 1);
            assert(post.drop_last() =~= pre);
        }
        i = i + 1;
    }
    v
}

/// `pow256` grows with its exponent.
pub proof fn lemma_pow256_mono(a: nat, b: nat)
    requires
        a <= b,
    ensures
        pow256(a) <= pow256(b),
    decreases b,
{
    lemma_pow256_pos(a);
    if a < b {
        lemma_pow256_mono(a, (b - 1) as nat);
    }
}

} // verus!

verus! {

/// The bytes of `s` from position `i` on.
pub open spec fn suffix_from(s: Seq<u8>, i: usize) -> Seq<u8> {
    s.subrange(i as int, s.len() as int)
}

/// The first `i` bytes of `s`.
pub open spec fn prefix_to(s: Seq<u8>, i: usize) -> Seq<u8> {
    s.subrange(0, i as int)
}

/// One step of a lexicographic scan: equal bytes at `i` can be skipped.
pub proof fn lemma_lex_step(a: Seq<u8>, b: Seq<u8>, i: usize)
    requires
        i < usize::MAX,
        i < a.len(),
        i < b.len(),
        a[i as int] == b[i as int],
        prefix_to(a, i) == prefix_to(b, i),
    ensures
        lex_lt(suffix_from(a, i), suffix_from(b, i)) == lex_lt(
            suffix_from(a, (i + 1) as usize),
            suffix_from(b, (i + 1) as usize),
        ),
        lex_lt(suffix_from(b, i), suffix_from(a, i)) == lex_lt(
            suffix_from(b, (i + 1) as usize),
            suffix_from(a, (i + 1) as usize),
        ),
        prefix_to(a, (i + 1) as usize) == prefix_to(b, (i + 1) as usize),
{
    assert(suffix_from(a, i).drop_first() =~= suffix_from(a, (i + 1) as usize));
    assert(suffix_from(b, i).drop_first() =~= suffix_from(b, (i + 1) as usize));
    assert(prefix_to(a, (i + 1) as usize) =~= prefix_to(a, i).push(a[i as int]));
    assert(prefix_to(b, (i + 1) as usize) =~= prefix_to(b, i).push(b[i as int]));
}

/// Where a lexicographic scan stops at differing bytes.
pub proof fn lemma_lex_differ(a: Seq<u8>, b: Seq<u8>, i: usize)
    requires
        i < a.len(),
        i < b.len(),
        a[i as int] != b[i as int],
    ensures
        lex_lt(suffix_from(a, i), suffix_from(b, i)) == (a[i as int] < b[i as int]),
        lex_lt(suffix_from(b, i), suffix_from(a, i)) == (b[i as int] < a[i as int]),
        a != b,
{
    assert(suffix_from(a, i)[0] == a[i as int]);
    assert(suffix_from(b, i)[0] == b[i as int]);
}

/// Where a lexicographic scan runs out of bytes.
pub proof fn lemma_lex_end(a: Seq<u8>, b: Seq<u8>, i: usize)
    requires
        i <= a.len(),
        i <= b.len(),
        i == a.len() || i == b.len(),
        prefix_to(a, i) == prefix_to(b, i),
    ensures
        lex_lt(suffix_from(a, i), suffix_from(b, i)) == (a.len() < b.len()),
        lex_lt(suffix_from(b, i), suffix_from(a, i)) == (b.len() < a.len()),
        (a == b) == (a.len() == b.len()),
{
    if a.len() == b.len() {
        assert(a =~= prefix_to(a, i));
        assert(b =~= prefix_to(b, i));
    }
}

/// No byte string is below itself.
pub proof fn lemma_lex_irrefl(a: Seq<u8>)
    ensures
        !lex_lt(a, a),
    decreases a.len(),
{
    if a.len() > 0 {
        lemma_lex_irrefl(a.drop_first());
    }
}

/// Scanning starts at position 0.
pub proof fn lemma_lex_start(a: Seq<u8>, b: Seq<u8>)
    ensures
        suffix_from(a, 0) == a,
        suffix_from(b, 0) == b,
        prefix_to(a, 0) == prefix_to(b, 0),
{
    assert(suffix_from(a, 0) =~= a);
    assert(suffix_from(b, 0) =~= b);
    assert(prefix_to(a, 0) =~= prefix_to(b, 0));
}

} // verus!

verus! {

/// The big-endian value seen from the front: the first byte weighs most.
pub proof fn lemma_be_front(s: Seq<u8>)
    requires
        s.len() > 0,
    ensures
        be_value(s) == s[0] * pow256((s.len() - 1) as nat) + be_value(s.drop_first()),
    decreases s.len(),
{
    if s.len() == 1 {
        assert(s.drop_last().len() == 0);
        assert(s.drop_first().len() == 0);
        assert(be_value(s.drop_last()) == 0);
        assert(be_value(s.drop_first()) == 0);
        assert(s.last() == s[0]);
        let q = pow256((s.len() - 1) as nat) as int;
        assert(q == 1);
        let a = s[0] as int;
        assert(a * q == a) by (nonlinear_arith)
            requires
                q == 1,
        ;
    } else {
        let dl = s.drop_last();
        lemma_be_front(dl);
        assert(dl.drop_first() =~= s.drop_first().drop_last());
        assert(s.drop_first().last() == s.last());
        let p = pow256((s.len() - 2) as nat);
        let a = s[0] as int;
        let x = be_value(dl.drop_first()) as int;
        assert(pow256((s.len() - 1) as nat) == 256 * p);
        assert(be_value(s) == be_value(dl) * 256 + s.last());
        assert(be_value(dl) == a * p + x);
        assert(be_value(s.drop_first()) == x * 256 + s.last());
        let q = pow256((s.len() - 1) as nat) as int;
        let bs = be_value(s) as int;
        let bdl = be_value(dl) as int;
        let bdf = be_value(s.drop_first()) as int;
        let l = s.last() as int;
        assert(bs == a * q + bdf) by (nonlinear_arith)
            requires
                q == 256 * p,
                bs == bdl * 256 + l,
                bdl == a * p + x,
                bdf == x * 256 + l,
        ;
    }
}

/// The value of a concatenation.
pub proof fn lemma_be_concat(x: Seq<u8>, y: Seq<u8>)
    ensures
        be_value(x + y) == be_value(x) * pow256(y.len()) + be_value(y),
    decreases y.len(),
{
    if y.len() == 0 {
        assert(x + y =~= x);
        assert(be_value(y) == 0);
        assert(pow256(0) == 1);
        let bx = be_value(x) as int;
        let q = pow256(0) as int;
        assert(bx * q == bx) by (nonlinear_arith)
            requires
                q == 1,
        ;
    } else {
        lemma_be_concat(x, y.drop_last());
        assert((x + y).drop_last() =~= x + y.drop_last());
        let p = pow256((y.len() - 1) as nat) as int;
        let q = pow256(y.len()) as int;
        let bx = be_value(x) as int;
        let by = be_value(y.drop_last()) as int;
        let bxy = be_value(x + y) as int;
        let bxyd = be_value(x + y.drop_last()) as int;
        let byf = be_value(y) as int;
        let l = y.last() as int;
        assert((x + y).last() == y.last());
        assert(q == 256 * p);
        assert(bxy == bxyd * 256 + l);
        assert(byf == by * 256 + l);
        assert(bxyd == bx * p + by);
        assert(bxy == bx * q + byf) by (nonlinear_arith)
            requires
                q == 256 * p,
                bxy == bxyd * 256 + l,
                byf == by * 256 + l,
                bxyd == bx * p + by,
        ;
    }
}

/// For byte strings of equal length, lexicographic order is the order of
/// the numbers they denote.
pub proof fn lemma_lex_be(a: Seq<u8>, b: Seq<u8>)
    requires
        a.len() == b.len(),
    ensures
        lex_lt(a, b) == (be_value(a) < be_value(b)),
    decreases a.len(),
{
    if a.len() > 0 {
        lemma_be_front(a);
        lemma_be_front(b);
        let n = (a.len() - 1) as nat;
        let p = pow256(n) as int;
        lemma_pow256_pos(n);
        lemma_be_value_bound(a.drop_first());
        lemma_be_value_bound(b.drop_first());
        let ra = be_value(a.drop_first()) as int;
        let rb = be_value(b.drop_first()) as int;
        let a0 = a[0] as int;
        let b0 = b[0] as int;
        if a0 < b0 {
            assert(a0 * p + ra < b0 * p + rb) by (nonlinear_arith)
                requires
                    a0 < b0,
                    0 <= ra < p,
                    0 <= rb,
            ;
        } else if a0 > b0 {
            assert(b0 * p + rb < a0 * p + ra) by (nonlinear_arith)
                requires
                    b0 < a0,
                    0 <= rb < p,
                    0 <= ra,
            ;
        } else {
            lemma_lex_be(a.drop_first(), b.drop_first());
        }
    }
}

/// Comparing `x + r` with `y`, where `x` and `y` have equal lengths,
/// compares `x` with `y`.
pub proof fn lemma_lex_prefix(x: Seq<u8>, r: Seq<u8>, y: Seq<u8>)
    requires
        x.len() == y.len(),
    ensures
        lex_lt(x + r, y) == lex_lt(x, y),
    decreases x.len(),
{
    if x.len() == 0 {
        assert(x + r =~= r);
    } else {
        assert((x + r)[0] == x[0]);
        assert((x + r).drop_first() =~= x.drop_first() + r);
        lemma_lex_prefix(x.drop_first(), r, y.drop_first());
    }
}

/// Comparing `x1 + r1` with `x2 + r2`, where `x1` and `x2` have equal
/// lengths: the prefixes decide unless equal.
pub proof fn lemma_lex_concat(x1: Seq<u8>, r1: Seq<u8>, x2: Seq<u8>, r2: Seq<u8>)
    requires
        x1.len() == x2.len(),
    ensures
        lex_lt(x1 + r1, x2 + r2) == (if x1 == x2 {
            lex_lt(r1, r2)
        } else {
            lex_lt(x1, x2)
        }),
        (x1 + r1 == x2 + r2) == (x1 == x2 && r1 == r2),
    decreases x1.len(),
{
    if x1.len() == 0 {
        assert(x1 + r1 =~= r1);
        assert(x2 + r2 =~= r2);
        assert(x1 =~= x2);
    } else {
        assert((x1 + r1)[0] == x1[0]);
        assert((x2 + r2)[0] == x2[0]);
        assert((x1 + r1).drop_first() =~= x1.drop_first() + r1);
        assert((x2 + r2).drop_first() =~= x2.drop_first() + r2);
        lemma_lex_concat(x1.drop_first(), r1, x2.drop_first(), r2);
        if x1[0] == x2[0] {
            if x1.drop_first() == x2.drop_first() {
                assert forall|i: int| 0 <= i < x1.len() implies x1[i] == x2[i] by {
                    if i > 0 {
                        assert(x1[i] == x1.drop_first()[i - 1]);
                        assert(x2[i] == x2.drop_first()[i - 1]);
                    }
                }
                assert(x1 =~= x2);
            }
            if x1 == x2 {
                assert(x1.drop_first() =~= x2.drop_first());
            }
        }
        if x1 + r1 == x2 + r2 {
            assert((x1 + r1).drop_first() == (x2 + r2).drop_first());
        }
        if x1 == x2 && r1 == r2 {
        }
    }
}

} // verus!
