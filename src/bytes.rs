//! Fixed-width big-endian integers and byte-sequence helpers.

use vstd::prelude::*;

verus! {

/// `256` raised to the power `n`.
pub open spec fn pow256(n: nat) -> nat
    decreases n,
{
    if n == 0 {
        1
    } else {
        256 * pow256((n - 1) as nat)
    }
}

/// The `n` low-order base-256 digits of `v`, most significant first.
pub open spec fn be(v: nat, n: nat) -> Seq<u8>
    decreases n,
{
    if n == 0 {
        Seq::empty()
    } else {
        be(v / 256, (n - 1) as nat).push((v % 256) as u8)
    }
}

/// The number that a big-endian digit sequence denotes.
pub open spec fn be_value(s: Seq<u8>) -> nat
    decreases s.len(),
{
    if s.len() == 0 {
        0
    } else {
        be_value(s.drop_last()) * 256 + s.last() as nat
    }
}

pub proof fn lemma_pow256_pos(n: nat)
    ensures
        pow256(n) > 0,
    decreases n,
{
    if n > 0 {
        lemma_pow256_pos((n - 1) as nat);
    }
}

pub proof fn lemma_pow256_8()
    ensures
        pow256(8) == 0x1_0000_0000_0000_0000,
        pow256(7) == 0x100_0000_0000_0000,
{
    reveal_with_fuel(pow256, 9);
}

pub proof fn lemma_be_len(v: nat, n: nat)
    ensures
        be(v, n).len() == n,
    decreases n,
{
    if n > 0 {
        lemma_be_len(v / 256, (n - 1) as nat);
    }
}

pub proof fn lemma_be_value_bound(s: Seq<u8>)
    ensures
        be_value(s) < pow256(s.len()),
    decreases s.len(),
{
    if s.len() > 0 {
        let p = s.drop_last();
        lemma_be_value_bound(p);
        let a = be_value(p);
        let b = pow256(p.len());
        assert(a * 256 + (s.last() as nat) < b * 256) by (nonlinear_arith)
            requires
                a < b,
                s.last() < 256,
        ;
    }
}

/// Decoding a big-endian encoding gives back the number.
pub proof fn lemma_be_value_of_be(v: nat, n: nat)
    requires
        v < pow256(n),
    ensures
        be_value(be(v, n)) == v,
    decreases n,
{
    if n > 0 {
        let q = v / 256;
        let b = pow256((n - 1) as nat);
        assert(q < b) by (nonlinear_arith)
            requires
                v < 256 * b,
                q == v / 256,
        ;
        lemma_be_value_of_be(q, (n - 1) as nat);
        let e = be(v, n);
        assert(e.drop_last() =~= be(q, (n - 1) as nat));
    }
}

/// Encoding the number that a digit sequence denotes gives back the sequence.
pub proof fn lemma_be_of_be_value(s: Seq<u8>)
    ensures
        be(be_value(s), s.len()) == s,
    decreases s.len(),
{
    if s.len() > 0 {
        let p = s.drop_last();
        lemma_be_of_be_value(p);
        let a = be_value(p);
        let v = a * 256 + s.last() as nat;
        assert(v / 256 == a && v % 256 == s.last() as nat) by (nonlinear_arith)
            requires
                v == a * 256 + s.last() as nat,
                s.last() < 256,
        ;
        assert(be(v, s.len()) =~= s);
    }
}

/// Appends the `n` low-order big-endian bytes of `v` to `out`.
pub fn push_be(out: &mut Vec<u8>, v: u64, n: usize)
    ensures
        final(out)@ == old(out)@ + be(v as nat, n as nat),
    decreases n,
{
    if n > 0 {
        push_be(out, v / 256, n - 1);
        out.push((v % 256) as u8);
        proof {
            assert(be(v as nat, n as nat) == be((v / 256) as nat, (n - 1) as nat).push(
                (v % 256) as u8,
            ));
        }
    }
}

/// Reads the big-endian number held by `b[start .. start + n]`.
pub fn read_be(b: &Vec<u8>, start: usize, n: usize) -> (r: u64)
    requires
        n <= 8,
        start + n <= b@.len(),
    ensures
        r as nat == be_value(b@.subrange(start as int, start + n)),
    decreases n,
{
    if n == 0 {
        proof {
            assert(b@.subrange(start as int, start as int).len() == 0);
        }
        0
    } else {
        let hi = read_be(b, start, n - 1);
        let ghost s = b@.subrange(start as int, start + n);
        proof {
            assert(s.drop_last() =~= b@.subrange(start as int, start + n - 1));
            lemma_be_value_bound(s.drop_last());
            lemma_pow256_8();
            if n - 1 < 7 {
                lemma_pow256_mono((n - 1) as nat, 7);
            }
            assert(hi * 256 + 255 < 0x1_0000_0000_0000_0000) by (nonlinear_arith)
                requires
                    hi < 0x100_0000_0000_0000,
            ;
        }
        let len = b.len();
        hi * 256 + b[start + n - 1] as u64
    }
}

pub proof fn lemma_pow256_mono(a: nat, b: nat)
    requires
        a <= b,
    ensures
        pow256(a) <= pow256(b),
    decreases b - a,
{
    if a < b {
        lemma_pow256_mono(a, (b - 1) as nat);
        lemma_pow256_pos((b - 1) as nat);
    }
}

/// Appends all of `src` to `out`.
pub fn push_all(out: &mut Vec<u8>, src: &[u8])
    ensures
        final(out)@ == old(out)@ + src@,
{
    let ghost start = out@;
    let mut i: usize = 0;
    while i < src.len()
        invariant
            i <= src@.len(),
            out@ == start + src@.subrange(0, i as int),
        decreases src@.len() - i,
    {
        out.push(src[i]);
        i += 1;
        proof {
            assert(src@.subrange(0, i as int) =~= src@.subrange(0, i - 1).push(src@[i - 1]));
        }
    }
    proof {
        assert(src@.subrange(0, src@.len() as int) =~= src@);
    }
}

/// Copies `b[start .. start + 32]` into a fixed-size array.
pub fn read_array32(b: &Vec<u8>, start: usize) -> (r: [u8; 32])
    requires
        start + 32 <= b@.len(),
    ensures
        r@ == b@.subrange(start as int, start + 32),
{
    let len = b.len();
    let mut a: [u8; 32] = [0u8; 32];
    let mut i: usize = 0;
    while i < 32
        invariant
            i <= 32,
            start + 32 <= b@.len(),
            len == b@.len(),
            a@.len() == 32,
            forall|j: int| 0 <= j < i ==> a@[j] == b@[start + j],
        decreases 32 - i,
    {
        a[i] = b[start + i];
        i += 1;
    }
    proof {
        assert(a@ =~= b@.subrange(start as int, start + 32));
    }
    a
}

/// Whether two byte vectors hold the same bytes.
pub fn bytes_eq(a: &Vec<u8>, b: &Vec<u8>) -> (r: bool)
    ensures
        r == (a@ == b@),
{
    if a.len() != b.len() {
        return false;
    }
    let mut i: usize = 0;
    while i < a.len()
        invariant
            i <= a@.len(),
            a@.len() == b@.len(),
            forall|j: int| 0 <= j < i ==> a@[j] == b@[j],
        decreases a@.len() - i,
    {
        if a[i] != b[i] {
            return false;
        }
        i += 1;
    }
    proof {
        assert(a@ =~= b@);
    }
    true
}

} // verus!
