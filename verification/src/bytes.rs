//! Byte strings of a fixed length, and comparisons on byte slices.

use vstd::prelude::*;

verus! {

/// A byte string of a fixed length, compared as a value.
#[derive(Clone, Copy, Debug, Eq)]
pub struct Bytes<const N: usize>(pub [u8; N]);

impl<const N: usize> PartialEq for Bytes<N> {
    fn eq(&self, other: &Self) -> (r: bool) {
        let mut i: usize = 0;
        while i < N
            invariant
                i <= N,
                forall|j: int| 0 <= j < i ==> self.0@[j] == other.0@[j],
            decreases N - i,
        {
            if self.0[i] != other.0[i] {
                assert(self.0@[i as int] != other.0@[i as int]);
                return false;
            }
            i = i + 1;
        }
        assert(self.0 =~= other.0);
        true
    }
}

impl<const N: usize> vstd::std_specs::cmp::PartialEqSpecImpl for Bytes<N> {
    open spec fn obeys_eq_spec() -> bool {
        true
    }

    open spec fn eq_spec(&self, other: &Self) -> bool {
        self == other
    }
}

/// Whether `a` comes before `b` in dictionary order, or is the same.
pub open spec fn bytes_le(a: Seq<u8>, b: Seq<u8>) -> bool
    decreases a.len(),
{
    if a.len() == 0 {
        true
    } else if b.len() == 0 {
        false
    } else if a[0] != b[0] {
        a[0] < b[0]
    } else {
        bytes_le(a.drop_first(), b.drop_first())
    }
}

/// Dictionary order is a total order.
pub proof fn byte_order_is_total(a: Seq<u8>, b: Seq<u8>)
    ensures
        bytes_le(a, b) || bytes_le(b, a),
        bytes_le(a, b) && bytes_le(b, a) ==> a == b,
        a == b ==> bytes_le(a, b),
    decreases a.len(),
{
    if a.len() == 0 || b.len() == 0 {
        if bytes_le(a, b) && bytes_le(b, a) {
            assert(a =~= b);
        }
    } else if a[0] == b[0] {
        byte_order_is_total(a.drop_first(), b.drop_first());
        if a.drop_first() == b.drop_first() {
            assert(a =~= seq![a[0]] + a.drop_first());
            assert(b =~= seq![b[0]] + b.drop_first());
        }
    }
}

/// Dictionary order is transitive.
pub proof fn byte_order_is_transitive(a: Seq<u8>, b: Seq<u8>, c: Seq<u8>)
    requires
        bytes_le(a, b),
        bytes_le(b, c),
    ensures
        bytes_le(a, c),
    decreases a.len(),
{
    if a.len() > 0 && b.len() > 0 && c.len() > 0 && a[0] == b[0] && b[0] == c[0] {
        byte_order_is_transitive(a.drop_first(), b.drop_first(), c.drop_first());
    }
}

impl<const N: usize> Bytes<N> {
    /// Whether this comes before `other` in dictionary order, or is the same.
    pub fn not_after(&self, other: &Self) -> (r: bool)
        ensures
            r == bytes_le(self.0@, other.0@),
    {
        let mut i: usize = 0;
        let ghost x = self.0@;
        let ghost y = other.0@;
        assert(x.skip(0) =~= x);
        assert(y.skip(0) =~= y);
        while i < N
            invariant
                i <= N,
                x == self.0@,
                y == other.0@,
                x.len() == N,
                y.len() == N,
                bytes_le(x, y) == bytes_le(x.skip(i as int), y.skip(i as int)),
            decreases N - i,
        {
            assert(x.skip(i as int).drop_first() =~= x.skip(i + 1));
            assert(y.skip(i as int).drop_first() =~= y.skip(i + 1));
            if self.0[i] != other.0[i] {
                return self.0[i] < other.0[i];
            }
            i = i + 1;
        }
        true
    }
}

/// Whether two byte strings are the same.
pub fn same_bytes(a: &[u8], b: &[u8]) -> (r: bool)
    ensures
        r == (a@ == b@),
{
    if a.len() != b.len() {
        return false;
    }
    let mut i: usize = 0;
    while i < a.len()
        invariant
            i <= a@.len() == b@.len(),
            forall|j: int| 0 <= j < i ==> a@[j] == b@[j],
        decreases a@.len() - i,
    {
        if a[i] != b[i] {
            return false;
        }
        i = i + 1;
    }
    assert(a@ =~= b@);
    true
}

/// The bytes of `a` as a vector.
pub fn to_vec(a: &[u8]) -> (v: Vec<u8>)
    ensures
        v@ == a@,
{
    let mut v: Vec<u8> = Vec::new();
    let mut i: usize = 0;
    while i < a.len()
        invariant
            i <= a@.len(),
            v@ == a@.take(i as int),
        decreases a@.len() - i,
    {
        v.push(a[i]);
        i = i + 1;
    }
    assert(a@.take(i as int) =~= a@);
    v
}

/// 256 to the `k`.
pub open spec fn pow256(k: nat) -> nat
    decreases k,
{
    if k == 0 {
        1
    } else {
        256 * pow256((k - 1) as nat)
    }
}

/// `n` in `k` bytes, the most significant first.
pub open spec fn be_bytes(n: nat, k: nat) -> Seq<u8>
    decreases k,
{
    if k == 0 {
        seq![]
    } else {
        be_bytes(n / 256, (k - 1) as nat).push((n % 256) as u8)
    }
}

/// The number that bytes spell, the most significant first.
pub open spec fn be_value(s: Seq<u8>) -> nat
    decreases s.len(),
{
    if s.len() == 0 {
        0
    } else {
        256 * be_value(s.drop_last()) + s.last() as nat
    }
}

/// A number that fits reads back from its bytes.
pub proof fn big_endian_round_trips(n: nat, k: nat)
    requires
        n < pow256(k),
    ensures
        be_bytes(n, k).len() == k,
        be_value(be_bytes(n, k)) == n,
    decreases k,
{
    if k > 0 {
        let rest = be_bytes(n / 256, (k - 1) as nat);
        big_endian_round_trips(n / 256, (k - 1) as nat);
        assert(rest.push((n % 256) as u8).drop_last() =~= rest);
    }
}

proof fn lemma_be_len(n: nat, k: nat)
    ensures
        be_bytes(n, k).len() == k,
    decreases k,
{
    if k > 0 {
        lemma_be_len(n / 256, (k - 1) as nat);
    }
}

proof fn lemma_be_bound(s: Seq<u8>)
    ensures
        be_value(s) < pow256(s.len()),
    decreases s.len(),
{
    if s.len() > 0 {
        lemma_be_bound(s.drop_last());
    }
}

/// Appends `n` in `k` bytes, the most significant first.
pub fn push_be(out: &mut Vec<u8>, n: u64, k: u8)
    ensures
        final(out)@ == old(out)@ + be_bytes(n as nat, k as nat),
    decreases k,
{
    let ghost before = out@;
    if k > 0 {
        push_be(out, n / 256, k - 1);
        out.push((n % 256) as u8);
        assert(out@ =~= before + be_bytes(n as nat, k as nat));
    } else {
        assert(out@ =~= before + be_bytes(n as nat, 0));
    }
}

/// The number that the first `count` bytes of `s` from `from` spell.
pub fn read_be(s: &[u8], from: usize, count: usize) -> (n: u64)
    requires
        count <= 8,
        from + count <= s@.len(),
    ensures
        n == be_value(s@.subrange(from as int, from + count)),
{
    let total: usize = s.len();
    let mut n: u64 = 0;
    let mut i: usize = 0;
    while i < count
        invariant
            i <= count <= 8,
            from + count <= total == s@.len(),
            n == be_value(s@.subrange(from as int, from + i)),
        decreases count - i,
    {
        let ghost part = s@.subrange(from as int, from + i);
        proof {
            lemma_be_bound(part);
            reveal_with_fuel(pow256, 9);
            assert(s@.subrange(from as int, from + i + 1).drop_last() =~= part);
            assert(n < 0x100_0000_0000_0000);
        }
        n = n * 256 + s[from + i] as u64;
        i = i + 1;
    }
    n
}

proof fn lemma_first_difference(a: Seq<u8>, b: Seq<u8>, k: int)
    requires
        0 <= k < a.len() && k < b.len(),
        forall|j: int| 0 <= j < k ==> a[j] == b[j],
        a[k] != b[k],
    ensures
        bytes_le(a, b) == (a[k] < b[k]),
    decreases k,
{
    if k > 0 {
        assert(a[0] == b[0]);
        let (x, y) = (a.drop_first(), b.drop_first());
        assert forall|j: int| 0 <= j < k - 1 implies x[j] == y[j] by {
            assert(a[j + 1] == b[j + 1]);
        }
        lemma_first_difference(x, y, k - 1);
    }
}

/// Of two byte strings the one with the smaller byte at the first place where
/// they differ comes first; equal ones are equal.
pub proof fn the_first_difference_orders<const N: usize>(
    a: &Bytes<N>,
    b: &Bytes<N>,
    r: bool,
    k: int,
)
    requires
        call_ensures(Bytes::<N>::not_after, (a, b), r),
        0 <= k <= N,
        forall|j: int| 0 <= j < k ==> a.0@[j] == b.0@[j],
        k < N ==> a.0@[k] != b.0@[k],
    ensures
        r == (k == N || a.0@[k] < b.0@[k]),
{
    if k < N {
        lemma_first_difference(a.0@, b.0@, k);
    } else {
        assert(a.0@ =~= b.0@);
        byte_order_is_total(a.0@, b.0@);
    }
}

/// Byte strings are the same exactly if they are as long as each other and agree
/// at every place, and a copy is the same.
pub proof fn bytes_are_compared_one_by_one(a: &[u8], b: &[u8], r: bool, v: Vec<u8>)
    requires
        call_ensures(same_bytes, (a, b), r),
        call_ensures(to_vec, (a,), v),
    ensures
        r <==> a@.len() == b@.len() && forall|i: int| 0 <= i < a@.len() ==> a@[i] == b@[i],
        v@.len() == a@.len(),
        forall|i: int| 0 <= i < a@.len() ==> v@[i] == a@[i],
{
    if a@.len() == b@.len() && forall|i: int| 0 <= i < a@.len() ==> a@[i] == b@[i] {
        assert(a@ =~= b@);
    }
}

/// A number is written with its last byte last: the byte at the end is what is
/// left over after division by 256, and those before it are the quotient's.
/// What was there stays in front.
pub proof fn the_last_byte_is_the_least(
    out: &mut Vec<u8>,
    n: u64,
    k: u8,
    shorter: &mut Vec<u8>,
)
    requires
        k > 0,
        call_ensures(push_be, (out, n, k), ()),
        old(shorter)@ == old(out)@,
        call_ensures(push_be, (shorter, n / 256, (k - 1) as u8), ()),
    ensures
        final(out)@.len() == old(out)@.len() + k,
        final(out)@.last() == n % 256,
        final(out)@.drop_last() == final(shorter)@,
        final(out)@.take(old(out)@.len() as int) == old(out)@,
{
    lemma_be_len(n as nat, k as nat);
    lemma_be_len((n / 256) as nat, (k - 1) as nat);
    assert(final(out)@.drop_last() =~= final(shorter)@);
}

/// A number reads back from the bytes that it was written in, wherever they
/// stand; one byte more makes it 256 times as much and that byte.
pub proof fn what_is_written_reads_back(
    out: &mut Vec<u8>,
    n: u64,
    k: u8,
    s: &[u8],
    from: usize,
    read: u64,
    more: u64,
)
    requires
        k < 8,
        n < pow256(k as nat),
        call_ensures(push_be, (out, n, k), ()),
        s@.len() > from + k,
        s@.subrange(from as int, from + k) == final(out)@.skip(old(out)@.len() as int),
        call_ensures(read_be, (s, from, k as usize), read),
        call_ensures(read_be, (s, from, (k + 1) as usize), more),
    ensures
        read == n,
        more == 256 * n + s@[from + k],
        pow256(0) == 1 && (k > 0 ==> pow256(k as nat) == 256 * pow256((k - 1) as nat)),
{
    big_endian_round_trips(n as nat, k as nat);
    assert(final(out)@.skip(old(out)@.len() as int) =~= be_bytes(n as nat, k as nat));
    let longer = s@.subrange(from as int, from + k + 1);
    assert(longer.drop_last() =~= s@.subrange(from as int, from + k));
}

} // verus!
