//! Numbers of several bytes.
use vstd::arithmetic::power2::{lemma_pow2_adds, pow2};
use vstd::prelude::*;

verus! {

/// The number that bytes write, the most significant one first.
pub open spec fn big_endian(s: Seq<u8>) -> nat
    decreases s.len(),
{
    if s.len() == 0 {
        0
    } else {
        big_endian(s.drop_last()) * 256 + s.last() as nat
    }
}

/// The number that bytes write, the least significant one first.
pub open spec fn little_endian(s: Seq<u8>) -> nat {
    big_endian(s.reverse())
}

/// The number that `size` bytes write from `at` on.
pub open spec fn number_at(s: Seq<u8>, at: int, size: int, big: bool) -> nat {
    if big {
        big_endian(s.subrange(at, at + size))
    } else {
        little_endian(s.subrange(at, at + size))
    }
}

/// So many bytes write no larger number.
pub proof fn lemma_big_endian_bound(s: Seq<u8>)
    ensures
        big_endian(s) < pow2(8 * s.len()),
    decreases s.len(),
{
    vstd::arithmetic::power2::lemma2_to64();
    if s.len() > 0 {
        lemma_big_endian_bound(s.drop_last());
        let k = (s.len() - 1) as nat;
        lemma_pow2_adds(8 * k, 8);
        assert(8 * s.len() == 8 * k + 8);
        let (a, p) = (big_endian(s.drop_last()), pow2(8 * k));
        assert(a * 256 + 255 < p * 256) by (nonlinear_arith)
            requires
                a < p,
        ;
    }
}

/// The number that up to eight bytes write.
pub fn read_number(data: &[u8], from: usize, size: usize, big: bool) -> (n: u64)
    requires
        from + size <= data@.len(),
        size <= 8,
    ensures
        n == number_at(data@, from as int, size as int, big),
{
    let ghost s = data@.subrange(from as int, from + size);
    let ghost t = if big {
        s
    } else {
        s.reverse()
    };
    let mut n: u64 = 0;
    let mut i: usize = 0;
    let len: usize = data.len();
    proof {
        assert(t.take(0) =~= Seq::<u8>::empty());
    }
    while i < size
        invariant
            i <= size <= 8,
            from + size <= len,
            len == data@.len(),
            s == data@.subrange(from as int, from + size),
            t == (if big {
                s
            } else {
                s.reverse()
            }),
            n == big_endian(t.take(i as int)),
        decreases size - i,
    {
        let b: u8 = if big {
            data[from + i]
        } else {
            data[from + (size - 1 - i)]
        };
        proof {
            let next = t.take(i + 1);
            assert(next.drop_last() =~= t.take(i as int));
            assert(next.last() == b);
            lemma_big_endian_bound(next);
            vstd::arithmetic::power2::lemma2_to64_rest();
            if i + 1 < 8 {
                vstd::arithmetic::power2::lemma_pow2_strictly_increases(8 * next.len(), 64);
            }
        }
        n = n * 256 + b as u64;
        i = i + 1;
    }
    proof {
        assert(t.take(size as int) =~= t);
    }
    n
}

/// With the most significant byte first, the bytes that come first count as much more as
/// there are bytes behind them.
pub proof fn law_first_bytes_count_most(a: Seq<u8>, b: Seq<u8>)
    ensures
        big_endian(a + b) == big_endian(a) * pow2(8 * b.len()) + big_endian(b),
        big_endian(b) < pow2(8 * b.len()),
    decreases b.len(),
{
    vstd::arithmetic::power2::lemma2_to64();
    lemma_big_endian_bound(b);
    if b.len() == 0 {
        assert(a + b =~= a);
        assert(big_endian(a) * pow2(0) == big_endian(a)) by (nonlinear_arith)
            requires
                pow2(0) == 1,
        ;
    } else {
        let c = b.drop_last();
        law_first_bytes_count_most(a, c);
        assert((a + b).drop_last() =~= a + c);
        assert((a + b).last() == b.last());
        lemma_pow2_adds(8 * c.len(), 8);
        assert(8 * b.len() == 8 * c.len() + 8);
        let (x, p) = (big_endian(a), pow2(8 * c.len()));
        assert((x * p) * 256 == x * (p * 256)) by (nonlinear_arith);
    }
}

/// With the least significant byte first, it is the bytes that come last.
pub proof fn law_last_bytes_count_most(a: Seq<u8>, b: Seq<u8>)
    ensures
        little_endian(a + b) == little_endian(a) + little_endian(b) * pow2(8 * a.len()),
        little_endian(a) < pow2(8 * a.len()),
{
    assert((a + b).reverse() =~= b.reverse() + a.reverse());
    law_first_bytes_count_most(b.reverse(), a.reverse());
}

/// One byte is the number that it is in either order, and the same bytes the other way
/// round are the same number in the other order.
pub proof fn law_orders_mirror_each_other(s: Seq<u8>, b: u8)
    ensures
        big_endian(seq![b]) == b,
        little_endian(seq![b]) == b,
        little_endian(s.reverse()) == big_endian(s),
        big_endian(s.reverse()) == little_endian(s),
{
    assert(seq![b].drop_last() =~= Seq::<u8>::empty());
    assert(big_endian(Seq::<u8>::empty()) == 0);
    reveal_with_fuel(big_endian, 2);
    assert(seq![b].last() == b);
    assert(seq![b].reverse() =~= seq![b]);
    assert(s.reverse().reverse() =~= s);
}

/// What is read is the number at its place, whatever stands before and behind it.
pub proof fn law_number_stands_at_its_place(
    before: Seq<u8>,
    s: Seq<u8>,
    behind: Seq<u8>,
    big: bool,
)
    ensures
        number_at(before + s + behind, before.len() as int, s.len() as int, big) == (if big {
            big_endian(s)
        } else {
            little_endian(s)
        }),
{
    let all = before + s + behind;
    assert(all.subrange(before.len() as int, (before.len() + s.len()) as int) =~= s);
}

/// The bytes of a number, the most significant one first.
pub open spec fn big_bytes(n: nat, size: nat) -> Seq<u8>
    decreases size,
{
    if size == 0 {
        Seq::empty()
    } else {
        big_bytes(n / 256, (size - 1) as nat).push((n % 256) as u8)
    }
}

/// The bytes of a number in either order.
pub open spec fn bytes_in(n: nat, size: nat, big: bool) -> Seq<u8> {
    if big {
        big_bytes(n, size)
    } else {
        big_bytes(n, size).reverse()
    }
}

proof fn lemma_big_bytes(n: nat, size: nat)
    requires
        n < pow2(8 * size),
    ensures
        big_bytes(n, size).len() == size,
        big_endian(big_bytes(n, size)) == n,
    decreases size,
{
    vstd::arithmetic::power2::lemma2_to64();
    if size > 0 {
        let k = (size - 1) as nat;
        lemma_pow2_adds(8 * k, 8);
        assert(8 * size == 8 * k + 8);
        let p = pow2(8 * k);
        assert(n / 256 < p) by (nonlinear_arith)
            requires
                n < p * 256,
        ;
        lemma_big_bytes(n / 256, k);
        let s = big_bytes(n, size);
        assert(s.drop_last() =~= big_bytes(n / 256, k));
    }
}

/// What was written can be read: a number written in so many bytes, in either order and
/// anywhere in a file, is read as the same number.
pub proof fn law_written_number_is_read(
    before: Seq<u8>,
    n: nat,
    size: nat,
    behind: Seq<u8>,
    big: bool,
)
    requires
        n < pow2(8 * size),
    ensures
        bytes_in(n, size, big).len() == size,
        number_at(
            before + bytes_in(n, size, big) + behind,
            before.len() as int,
            size as int,
            big,
        ) == n,
{
    lemma_big_bytes(n, size);
    let s = bytes_in(n, size, big);
    law_number_stands_at_its_place(before, s, behind, big);
    assert(big_bytes(n, size).reverse().reverse() =~= big_bytes(n, size));
}

} // verus!
