//! Fixed-width byte words: 32-byte big-endian unsigned integers and 20-byte
//! addresses, with their numeric meaning.
use vstd::prelude::*;

verus! {

broadcast use vstd::array::group_array_axioms;

/// A 32-byte word: a root, a hash, or a 256-bit unsigned integer in big-endian order.
pub type Word = [u8; 32];

/// A 20-byte account address.
pub type Address = [u8; 20];

/// The unsigned integer that the bytes `s` spell in big-endian order.
pub open spec fn be_value(s: Seq<u8>) -> nat
    decreases s.len(),
{
    if s.len() == 0 {
        0
    } else {
        be_value(s.drop_last()) * 256 + s.last() as nat
    }
}

/// The `n` big-endian bytes of `v` modulo 256 to the `n`.
pub open spec fn be_bytes(v: nat, n: nat) -> Seq<u8>
    decreases n,
{
    if n == 0 {
        Seq::empty()
    } else {
        be_bytes(v / 256, (n - 1) as nat).push((v % 256) as u8)
    }
}

/// Writing back the number a byte string spells gives the same bytes.
pub proof fn lemma_be_bytes_of_value(s: Seq<u8>)
    ensures
        be_bytes(be_value(s), s.len()) == s,
    decreases s.len(),
{
    if s.len() > 0 {
        let d = s.drop_last();
        lemma_be_bytes_of_value(d);
        let v = be_value(s);
        assert(v == be_value(d) * 256 + s.last() as nat);
        vstd::arithmetic::div_mod::lemma_fundamental_div_mod_converse(
            v as int,
            256,
            be_value(d) as int,
            s.last() as int,
        );
        assert(be_bytes(v, s.len()) == be_bytes(be_value(d), d.len()).push(s.last()));
        assert(d.push(s.last()) =~= s);
    } else {
        assert(s =~= Seq::<u8>::empty());
    }
}

/// A prefix of a big-endian byte string never spells a larger number than the whole.
pub proof fn lemma_be_prefix_le(s: Seq<u8>, k: int)
    requires
        0 <= k <= s.len(),
    ensures
        be_value(s.subrange(0, k)) <= be_value(s),
    decreases s.len(),
{
    if k < s.len() {
        lemma_be_prefix_le(s.drop_last(), k);
        assert(s.drop_last().subrange(0, k) =~= s.subrange(0, k));
    } else {
        assert(s.subrange(0, k) =~= s);
    }
}

/// Extending a big-endian prefix by one byte.
pub proof fn lemma_be_step(s: Seq<u8>, k: int)
    requires
        0 <= k < s.len(),
    ensures
        be_value(s.subrange(0, k + 1)) == be_value(s.subrange(0, k)) * 256 + s[k] as nat,
{
    assert(s.subrange(0, k + 1).drop_last() =~= s.subrange(0, k));
}

/// Appends the bytes of `src` to `buf`.
pub fn append_bytes<const N: usize>(buf: &mut Vec<u8>, src: &[u8; N])
    ensures
        final(buf)@ == old(buf)@ + src@,
{
    let ghost start = buf@;
    let mut i: usize = 0;
    while i < N
        invariant
            i <= N,
            src@.len() == N,
            buf@ == start + src@.subrange(0, i as int),
        decreases N - i,
    {
        buf.push(src[i]);
        i += 1;
        assert(src@.subrange(0, i as int) =~= src@.subrange(0, i - 1) + seq![src@[i - 1]]);
    }
    assert(src@.subrange(0, N as int) =~= src@);
}

/// Whether two byte arrays hold the same bytes.
pub fn same_bytes<const N: usize>(a: &[u8; N], b: &[u8; N]) -> (r: bool)
    ensures
        r == (a@ == b@),
{
    let mut i: usize = 0;
    while i < N
        invariant
            i <= N,
            a@.len() == N,
            b@.len() == N,
            forall|j: int| 0 <= j < i ==> a@[j] == b@[j],
        decreases N - i,
    {
        if a[i] != b[i] {
            return false;
        }
        i += 1;
    }
    assert(a@ =~= b@);
    true
}

/// Copies `N` bytes of `b` starting at `pos` into an array.
pub fn read_array<const N: usize>(b: &Vec<u8>, pos: usize) -> (r: [u8; N])
    requires
        pos + N <= b.len(),
    ensures
        r@ == b@.subrange(pos as int, pos + N),
{
    let mut r: [u8; N] = [0u8; N];
    let mut i: usize = 0;
    while i < N
        invariant
            i <= N,
            pos + N <= b.len(),
            r@.len() == N,
            forall|j: int| 0 <= j < i ==> r@[j] == b@[pos + j],
        decreases N - i,
    {
        r[i] = b[pos + i];
        i += 1;
    }
    assert(r@ =~= b@.subrange(pos as int, pos + N));
    r
}

/// Reads the 32-byte big-endian word at `pos` as a `usize`, or `None` when
/// its value does not fit one.
pub fn read_usize(b: &Vec<u8>, pos: usize) -> (r: Option<usize>)
    requires
        pos + 32 <= b.len(),
    ensures
        match r {
            Some(v) => v as nat == be_value(b@.subrange(pos as int, pos + 32)),
            None => be_value(b@.subrange(pos as int, pos + 32)) > usize::MAX,
        },
{
    let ghost w = b@.subrange(pos as int, pos + 32);
    let mut v: usize = 0;
    let mut k: usize = 0;
    while k < 32
        invariant
            k <= 32,
            pos + 32 <= b.len(),
            w == b@.subrange(pos as int, pos + 32),
            v as nat == be_value(w.subrange(0, k as int)),
        decreases 32 - k,
    {
        let byte = b[pos + k];
        proof {
            lemma_be_step(w, k as int);
        }
        if v > (usize::MAX - byte as usize) / 256 {
            proof {
                lemma_be_prefix_le(w, k + 1);
                assert(v * 256 + byte > usize::MAX) by (nonlinear_arith)
                    requires
                        v > (usize::MAX - byte as usize) / 256,
                        byte <= 255,
                ;
            }
            return None;
        }
        assert(v * 256 + byte <= usize::MAX) by (nonlinear_arith)
            requires
                v <= (usize::MAX - byte as usize) / 256,
                byte <= 255,
        ;
        v = v * 256 + byte as usize;
        k += 1;
    }
    assert(w.subrange(0, 32) =~= w);
    Some(v)
}

/// Relies on alloy_primitives::U256 (ruint's `Uint<256, 4>`): `from_be_bytes`
/// and `to_be_bytes` read and write the number in big-endian order, and `/`
/// is truncating division, which panics only on a zero divisor.
#[verifier::external_body]
pub(crate) fn u256_div(x: Word, d: usize) -> (r: Word)
    requires
        d > 0,
    ensures
        be_value(r@) == be_value(x@) / (d as nat),
{
    let q = alloy_primitives::U256::from_be_bytes(x) / alloy_primitives::U256::from(d);
    q.to_be_bytes::<32>()
}

} // verus!
