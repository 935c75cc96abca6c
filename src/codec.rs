//! Big-endian integer encodings and the byte order they induce.
use vstd::prelude::*;

verus! {

/// `256^n`: the number of distinct values of `n` bytes.
pub open spec fn radix(n: nat) -> nat
    decreases n,
{
    if n == 0 {
        1
    } else {
        256 * radix((n - 1) as nat)
    }
}

/// The `n` low-order base-256 digits of `x`, most significant first.
pub open spec fn be_bytes(x: nat, n: nat) -> Seq<u8>
    decreases n,
{
    if n == 0 {
        Seq::empty()
    } else {
        be_bytes(x / 256, (n - 1) as nat).push((x % 256) as u8)
    }
}

/// The number that the bytes `s` spell in base 256, most significant first.
pub open spec fn be_value(s: Seq<u8>) -> nat
    decreases s.len(),
{
    if s.len() == 0 {
        0
    } else {
        be_value(s.drop_last()) * 256 + s.last() as nat
    }
}

/// Strict lexicographic order on byte strings of the same length.
pub open spec fn lex_lt(s: Seq<u8>, t: Seq<u8>) -> bool
    decreases s.len(),
{
    if s.len() == 0 || s.len() != t.len() {
        false
    } else {
        lex_lt(s.drop_last(), t.drop_last()) || (s.drop_last() == t.drop_last() && s.last()
            < t.last())
    }
}

pub proof fn lemma_be_bytes_len(x: nat, n: nat)
    ensures
        be_bytes(x, n).len() == n,
    decreases n,
{
    if n > 0 {
        lemma_be_bytes_len(x / 256, (n - 1) as nat);
    }
}

pub proof fn lemma_be_value_bound(s: Seq<u8>)
    ensures
        be_value(s) < radix(s.len()),
    decreases s.len(),
{
    if s.len() > 0 {
        lemma_be_value_bound(s.drop_last());
        let p = be_value(s.drop_last());
        let r = radix((s.len() - 1) as nat);
        assert(p * 256 + (s.last() as nat) < r * 256) by (nonlinear_arith)
            requires
                p < r,
                s.last() < 256,
        ;
    }
}

/// Decoding the big-endian digits of a number that fits gives it back.
pub proof fn lemma_be_round_trip(x: nat, n: nat)
    requires
        x < radix(n),
    ensures
        be_value(be_bytes(x, n)) == x,
    decreases n,
{
    if n > 0 {
        let r = radix((n - 1) as nat);
        assert(x / 256 < r) by (nonlinear_arith)
            requires
                x < 256 * r,
        ;
        lemma_be_round_trip(x / 256, (n - 1) as nat);
        let s = be_bytes(x, n);
        assert(s.drop_last() == be_bytes(x / 256, (n - 1) as nat));
        assert(x / 256 * 256 + x % 256 == x) by (nonlinear_arith);
    }
}

/// Two byte strings of one length that spell the same number are equal.
pub proof fn lemma_be_value_injective(s: Seq<u8>, t: Seq<u8>)
    requires
        s.len() == t.len(),
        be_value(s) == be_value(t),
    ensures
        s == t,
    decreases s.len(),
{
    if s.len() > 0 {
        let (p, q) = (be_value(s.drop_last()), be_value(t.drop_last()));
        let (a, b) = (s.last() as nat, t.last() as nat);
        assert(p == q && a == b) by (nonlinear_arith)
            requires
                p * 256 + a == q * 256 + b,
                a < 256,
                b < 256,
        ;
        lemma_be_value_injective(s.drop_last(), t.drop_last());
        assert(s == s.drop_last().push(s.last()));
        assert(t == t.drop_last().push(t.last()));
    }
}

/// On byte strings of one length, lexicographic order is numeric order.
pub proof fn lemma_lex_lt_is_numeric(s: Seq<u8>, t: Seq<u8>)
    requires
        s.len() == t.len(),
    ensures
        lex_lt(s, t) <==> be_value(s) < be_value(t),
    decreases s.len(),
{
    if s.len() > 0 {
        let (s1, t1) = (s.drop_last(), t.drop_last());
        lemma_lex_lt_is_numeric(s1, t1);
        let (p, q) = (be_value(s1), be_value(t1));
        let (a, b) = (s.last() as nat, t.last() as nat);
        assert(p < q ==> p * 256 + a < q * 256 + b) by (nonlinear_arith)
            requires
                a < 256,
        ;
        assert(q < p ==> q * 256 + b < p * 256 + a) by (nonlinear_arith)
            requires
                b < 256,
        ;
        if p == q {
            lemma_be_value_injective(s1, t1);
        }
        if s1 == t1 {
            assert(p == q);
        }
    }
}

/// A common prefix does not change the lexicographic order.
pub proof fn lemma_lex_lt_prefix(p: Seq<u8>, s: Seq<u8>, t: Seq<u8>)
    requires
        s.len() == t.len(),
    ensures
        lex_lt(p + s, p + t) <==> lex_lt(s, t),
    decreases s.len(),
{
    if s.len() == 0 {
        assert(p + s == p + t);
        lemma_lex_lt_irreflexive(p + s);
    } else {
        assert((p + s).drop_last() == p + s.drop_last());
        assert((p + t).drop_last() == p + t.drop_last());
        lemma_lex_lt_prefix(p, s.drop_last(), t.drop_last());
        if p + s.drop_last() == p + t.drop_last() {
            assert(s.drop_last() == (p + s.drop_last()).subrange(p.len() as int, p.len() + s.len() - 1));
            assert(t.drop_last() == (p + t.drop_last()).subrange(p.len() as int, p.len() + t.len() - 1));
        }
    }
}

pub proof fn lemma_lex_lt_irreflexive(s: Seq<u8>)
    ensures
        !lex_lt(s, s),
    decreases s.len(),
{
    if s.len() > 0 {
        lemma_lex_lt_irreflexive(s.drop_last());
    }
}

/// The 4 big-endian bytes of `x`.
pub fn u32_to_be_bytes(x: u32) -> (r: Vec<u8>)
    ensures
        r@ == be_bytes(x as nat, 4),
{
    be_digits(x as u128, 4)
}

/// The 8 big-endian bytes of `x`.
pub fn u64_to_be_bytes(x: u64) -> (r: Vec<u8>)
    ensures
        r@ == be_bytes(x as nat, 8),
{
    be_digits(x as u128, 8)
}

/// The 16 big-endian bytes of `x`.
pub fn u128_to_be_bytes(x: u128) -> (r: Vec<u8>)
    ensures
        r@ == be_bytes(x as nat, 16),
{
    be_digits(x, 16)
}

/// The `n` low-order base-256 digits of `x`, most significant first.
fn be_digits(x: u128, n: usize) -> (r: Vec<u8>)
    ensures
        r@ == be_bytes(x as nat, n as nat),
{
    let mut r: Vec<u8> = vec![0u8; n];
    let mut v: u128 = x;
    let mut i: usize = n;
    while i > 0
        invariant
            r@.len() == n,
            i <= n,
            be_bytes(x as nat, n as nat) == be_bytes(v as nat, i as nat) + r@.subrange(
                i as int,
                n as int,
            ),
        decreases i,
    {
        let ghost prev = r@;
        r.set(i - 1, (v % 256) as u8);
        proof {
            assert(r@.subrange(i - 1, n as int) =~= seq![(v % 256) as u8] + prev.subrange(
                i as int,
                n as int,
            ));
            assert(be_bytes(v as nat, i as nat) == be_bytes(v as nat / 256, (i - 1) as nat).push(
                (v % 256) as u8,
            ));
            assert(be_bytes(v as nat, i as nat) + prev.subrange(i as int, n as int) =~= be_bytes(
                v as nat / 256,
                (i - 1) as nat,
            ) + r@.subrange(i - 1, n as int));
        }
        v = v / 256;
        i = i - 1;
    }
    assert(r@.subrange(0, n as int) =~= r@);
    r
}

/// Reads the number that the bytes spell in base 256, most significant first.
pub fn be_bytes_to_u64(b: &[u8]) -> (r: u64)
    requires
        b@.len() <= 8,
    ensures
        r as nat == be_value(b@),
{
    let mut v: u64 = 0;
    let mut i: usize = 0;
    while i < b.len()
        invariant
            i <= b@.len() <= 8,
            v as nat == be_value(b@.subrange(0, i as int)),
            v < radix(i as nat),
        decreases b@.len() - i,
    {
        proof {
            assert(b@.subrange(0, i + 1).drop_last() =~= b@.subrange(0, i as int));
            lemma_radix_monotone(i as nat, 7);
            lemma_radix_u64();
            assert(v * 256 + b@[i as int] < radix(i as nat) * 256) by (nonlinear_arith)
                requires
                    v < radix(i as nat),
                    b@[i as int] < 256,
            ;
            assert(v * 256 + b@[i as int] < 0x1_0000_0000_0000_0000) by (nonlinear_arith)
                requires
                    v < 0x100_0000_0000_0000,
                    b@[i as int] < 256,
            ;
        }
        v = v * 256 + b[i] as u64;
        i = i + 1;
    }
    assert(b@.subrange(0, i as int) =~= b@);
    v
}

pub proof fn lemma_radix_u64()
    ensures
        radix(4) == 0x1_0000_0000,
        radix(7) == 0x100_0000_0000_0000,
        radix(8) == 0x1_0000_0000_0000_0000,
{
    reveal_with_fuel(radix, 9);
}

pub proof fn lemma_radix_monotone(m: nat, n: nat)
    requires
        m <= n,
    ensures
        radix(m) <= radix(n),
    decreases n,
{
    if m < n {
        lemma_radix_monotone(m, (n - 1) as nat);
    }
}

} // verus!
