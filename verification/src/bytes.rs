//! Byte strings: their order, big-endian numbers and fixed-length pieces.

use vstd::prelude::*;

verus! {

/// Lexicographic order on byte strings: a proper prefix comes first, otherwise the first byte that
/// differs decides.
pub open spec fn bytes_before(a: Seq<u8>, b: Seq<u8>) -> bool
    decreases a.len(),
{
    if b.len() == 0 {
        false
    } else if a.len() == 0 {
        true
    } else if a[0] == b[0] {
        bytes_before(a.drop_first(), b.drop_first())
    } else {
        a[0] < b[0]
    }
}

/// The order is total: of two different byte strings exactly one comes first, and none comes
/// before itself.
pub proof fn bytes_before_is_total(a: Seq<u8>, b: Seq<u8>)
    ensures
        a == b ==> !bytes_before(a, b),
        a != b ==> bytes_before(a, b) != bytes_before(b, a),
    decreases a.len(),
{
    if a.len() == 0 || b.len() == 0 {
        if a.len() == b.len() {
            assert(a =~= b);
        }
    } else if a[0] == b[0] {
        bytes_before_is_total(a.drop_first(), b.drop_first());
        assert(a =~= seq![a[0]] + a.drop_first());
        assert(b =~= seq![b[0]] + b.drop_first());
    }
}

/// The order is transitive.
pub proof fn bytes_before_is_transitive(a: Seq<u8>, b: Seq<u8>, c: Seq<u8>)
    requires
        bytes_before(a, b),
        bytes_before(b, c),
    ensures
        bytes_before(a, c),
    decreases a.len(),
{
    if a.len() > 0 && a[0] == b[0] && b[0] == c[0] {
        bytes_before_is_transitive(a.drop_first(), b.drop_first(), c.drop_first());
    }
}

/// The first difference decides: of two byte strings that agree up to a place and not beyond, the
/// one that ends there, or has the smaller byte there, comes first.
pub proof fn law_the_first_difference_decides(a: Seq<u8>, b: Seq<u8>, n: int)
    requires
        0 <= n <= a.len(),
        n <= b.len(),
        forall|i: int| 0 <= i < n ==> a[i] == b[i],
        n == a.len() || n == b.len() || a[n] != b[n],
    ensures
        bytes_before(a, b) <==> n < b.len() && (n == a.len() || a[n] < b[n]),
    decreases n,
{
    if n > 0 {
        law_the_first_difference_decides(a.drop_first(), b.drop_first(), n - 1);
    }
}

/// Whether `a` comes before `b`, byte by byte.
pub fn precedes(a: &[u8], b: &[u8]) -> (r: bool)
    ensures
        r == bytes_before(a@, b@),
{
    let mut i: usize = 0;
    proof {
        assert(a@.skip(0) =~= a@);
        assert(b@.skip(0) =~= b@);
    }
    while i < a.len() && i < b.len()
        invariant
            i <= a.len(),
            i <= b.len(),
            bytes_before(a@, b@) == bytes_before(a@.skip(i as int), b@.skip(i as int)),
        decreases a.len() - i,
    {
        proof {
            assert(a@.skip(i as int).drop_first() =~= a@.skip(i + 1));
            assert(b@.skip(i as int).drop_first() =~= b@.skip(i + 1));
        }
        if a[i] != b[i] {
            return a[i] < b[i];
        }
        i = i + 1;
    }
    i < b.len()
}

/// Whether two byte strings are the same.
pub fn same_bytes(a: &[u8], b: &[u8]) -> (r: bool)
    ensures
        r == (a@ == b@),
{
    if a.len() != b.len() {
        return false;
    }
    let mut i: usize = 0;
    while i < a.len()
        invariant
            i <= a.len(),
            a.len() == b.len(),
            forall|j: int| 0 <= j < i ==> a@[j] == b@[j],
        decreases a.len() - i,
    {
        if a[i] != b[i] {
            return false;
        }
        i = i + 1;
    }
    proof {
        assert(a@ =~= b@);
    }
    true
}

/// The four big-endian bytes of a number.
pub open spec fn be32(n: u32) -> Seq<u8> {
    seq![
        (n / 0x100_0000) as u8,
        (n / 0x1_0000 % 0x100) as u8,
        (n / 0x100 % 0x100) as u8,
        (n % 0x100) as u8,
    ]
}

/// The number that four big-endian bytes spell.
pub open spec fn from_be32(b: Seq<u8>) -> int {
    b[0] * 0x100_0000 + b[1] * 0x1_0000 + b[2] * 0x100 + b[3]
}

/// The eight big-endian bytes of a number.
pub open spec fn be64(n: u64) -> Seq<u8> {
    be32((n / 0x1_0000_0000) as u32) + be32((n % 0x1_0000_0000) as u32)
}

/// Writing a number in big-endian bytes and reading it back gives the number.
pub proof fn be32_round_trips(n: u32)
    ensures
        be32(n).len() == 4,
        from_be32(be32(n)) == n,
{
}

/// The bytes of a number made of four bytes are those.
proof fn be32_of_parts(x: u8, y: u8, z: u8, w: u8)
    ensures
        ({
            let n = x * 0x100_0000 + y * 0x1_0000 + z * 0x100 + w;
            &&& 0 <= n < 0x1_0000_0000
            &&& be32(n as u32) == seq![x, y, z, w]
        }),
{
    let n: int = x * 0x100_0000 + y * 0x1_0000 + z * 0x100 + w;
    let m: int = x * 0x1_0000 + y * 0x100 + z;
    let k: int = x * 0x100 + y;
    assert(n == 0x100 * m + w);
    assert(m == 0x100 * k + z);
    assert(n / 0x100 == m && n % 0x100 == w);
    assert(m / 0x100 == k && m % 0x100 == z);
    assert(k / 0x100 == x && k % 0x100 == y);
    assert(n / 0x1_0000 == k);
    assert(n / 0x100_0000 == x);
    assert(be32(n as u32) =~= seq![x, y, z, w]);
}

/// Reading big-endian bytes as a number and writing it again gives the bytes.
pub proof fn law_big_endian_bytes_read_back(b: Seq<u8>)
    requires
        b.len() >= 4,
    ensures
        0 <= from_be32(b) < 0x1_0000_0000,
        be32(from_be32(b) as u32) == b.take(4),
{
    be32_of_parts(b[0], b[1], b[2], b[3]);
    assert(b.take(4) =~= seq![b[0], b[1], b[2], b[3]]);
}

/// Writing a large number in big-endian bytes loses nothing: the halves read back make the number.
pub proof fn law_large_numbers_read_back(n: u64)
    ensures
        be64(n).len() == 8,
        from_be32(be64(n)) * 0x1_0000_0000 + from_be32(be64(n).skip(4)) == n,
{
    let h = (n / 0x1_0000_0000) as u32;
    let l = (n % 0x1_0000_0000) as u32;
    be32_round_trips(h);
    be32_round_trips(l);
    assert(be64(n).skip(4) =~= be32(l));
    assert(from_be32(be64(n)) == from_be32(be32(h)));
}

/// The four big-endian bytes of a number.
pub fn be32_bytes(n: u32) -> (r: [u8; 4])
    ensures
        r@ == be32(n),
{
    let r = [
        (n / 0x100_0000) as u8,
        (n / 0x1_0000 % 0x100) as u8,
        (n / 0x100 % 0x100) as u8,
        (n % 0x100) as u8,
    ];
    proof {
        assert(r@ =~= be32(n));
    }
    r
}

/// Appends the four big-endian bytes of a number.
pub fn push_be32(out: &mut Vec<u8>, n: u32)
    ensures
        final(out)@ == old(out)@ + be32(n),
{
    out.extend_from_slice(be32_bytes(n).as_slice());
}

/// Appends the eight big-endian bytes of a number.
pub fn push_be64(out: &mut Vec<u8>, n: u64)
    ensures
        final(out)@ == old(out)@ + be64(n),
{
    push_be32(out, (n / 0x1_0000_0000) as u32);
    push_be32(out, (n % 0x1_0000_0000) as u32);
    proof {
        assert(out@ =~= old(out)@ + be64(n));
    }
}

/// The first `N` bytes, where there are that many.
pub fn prefix<const N: usize>(b: &[u8]) -> (r: [u8; N])
    requires
        b@.len() >= N,
    ensures
        r@ == b@.take(N as int),
{
    let mut r = [0u8; N];
    let mut i: usize = 0;
    while i < N
        invariant
            b@.len() >= N,
            i <= N,
            r@.len() == N,
            forall|j: int| 0 <= j < i ==> r@[j] == b@[j],
        decreases N - i,
    {
        r[i] = b[i];
        i = i + 1;
    }
    proof {
        assert(r@ =~= b@.take(N as int));
    }
    r
}

/// A byte string of exactly `N` bytes as an array.
pub fn exactly<const N: usize>(b: &[u8]) -> (r: Option<[u8; N]>)
    ensures
        match r {
            Some(a) => a@ == b@,
            None => b@.len() != N,
        },
{
    if b.len() == N {
        let a = prefix::<N>(b);
        proof {
            assert(b@.take(N as int) =~= b@);
        }
        Some(a)
    } else {
        None
    }
}

} // verus!
