//! Sorting: the positions of some of the items of a list, in the order of the
//! items.
use crate::binary::Binary64;
use vstd::prelude::*;

verus! {

/// A type with a total preorder.
pub trait Ranked: Sized {
    /// `self` does not come after `other`.
    spec fn up_to(self, other: Self) -> bool;

    proof fn lemma_total(a: Self, b: Self)
        ensures
            a.up_to(b) || b.up_to(a),
    ;

    proof fn lemma_transitive(a: Self, b: Self, c: Self)
        requires
            a.up_to(b),
            b.up_to(c),
        ensures
            a.up_to(c),
    ;

    fn is_up_to(&self, other: &Self) -> (r: bool)
        ensures
            r == self.up_to(*other),
    ;
}

/// Item `i` comes before item `j`; items that rank alike keep their order.
pub open spec fn comes_before<T: Ranked>(items: Seq<T>, i: int, j: int) -> bool {
    items[i].up_to(items[j]) && (!items[j].up_to(items[i]) || i < j)
}

/// `order` lists the positions that are picked, each once, in the order of
/// their items.
pub open spec fn is_order<T: Ranked>(items: Seq<T>, picked: Seq<bool>, order: Seq<usize>) -> bool {
    &&& forall|k: int| 0 <= k < order.len() ==> #[trigger] order[k] < items.len() && picked[order[k] as int]
    &&& forall|i: int|
        #![trigger picked[i]]
        0 <= i < items.len() && picked[i] ==> order.contains(i as usize)
    &&& forall|a: int, b: int|
        0 <= a < b < order.len() ==> comes_before(
            items,
            #[trigger] order[a] as int,
            #[trigger] order[b] as int,
        )
}

/// The picked positions in the order of their items.
pub open spec fn order_of<T: Ranked>(items: Seq<T>, picked: Seq<bool>) -> Seq<usize> {
    choose|order: Seq<usize>| is_order(items, picked, order)
}

/// There is only one order.
pub proof fn lemma_order_is_one<T: Ranked>(
    items: Seq<T>,
    picked: Seq<bool>,
    a: Seq<usize>,
    b: Seq<usize>,
)
    requires
        is_order(items, picked, a),
        is_order(items, picked, b),
        items.len() <= usize::MAX + 1,
    ensures
        a == b,
{
    let n = if a.len() < b.len() {
        a.len()
    } else {
        b.len()
    };
    lemma_orders_agree(items, picked, a, b, n as int);
    if a.len() < b.len() {
        let i = b[a.len() as int];
        assert(picked[i as int]);
        assert(a.contains(i));
        let k = choose|k: int| 0 <= k < a.len() && a[k] == i;
        assert(b[k] == i);
        assert(comes_before(items, b[k] as int, b[a.len() as int] as int));
    } else if b.len() < a.len() {
        let i = a[b.len() as int];
        assert(picked[i as int]);
        assert(b.contains(i));
        let k = choose|k: int| 0 <= k < b.len() && b[k] == i;
        assert(a[k] == i);
        assert(comes_before(items, a[k] as int, a[b.len() as int] as int));
    }
    assert(a =~= b);
}

proof fn lemma_orders_agree<T: Ranked>(
    items: Seq<T>,
    picked: Seq<bool>,
    a: Seq<usize>,
    b: Seq<usize>,
    n: int,
)
    requires
        is_order(items, picked, a),
        is_order(items, picked, b),
        items.len() <= usize::MAX + 1,
        0 <= n <= a.len(),
        n <= b.len(),
    ensures
        forall|k: int| 0 <= k < n ==> a[k] == b[k],
    decreases n,
{
    if n > 0 {
        lemma_orders_agree(items, picked, a, b, n - 1);
        let k = n - 1;
        assert(picked[a[k] as int] && picked[b[k] as int]);
        assert(b.contains(a[k]));
        assert(a.contains(b[k]));
        let j = choose|j: int| 0 <= j < b.len() && b[j] == a[k];
        let i = choose|i: int| 0 <= i < a.len() && a[i] == b[k];
        if j < k {
            assert(a[j] == a[k]);
            assert(comes_before(items, a[j] as int, a[k] as int));
        }
        if i < k {
            assert(b[i] == b[k]);
            assert(comes_before(items, b[i] as int, b[k] as int));
        }
        if j > k && i > k {
            assert(comes_before(items, b[k] as int, b[j] as int));
            assert(comes_before(items, a[k] as int, a[i] as int));
        }
    }
}

/// Where the next position goes in an order of the earlier ones.
fn insertion_point<T: Ranked>(items: &Vec<T>, order: &Vec<usize>, next: usize) -> (at: usize)
    requires
        next < items@.len(),
        forall|k: int| 0 <= k < order@.len() ==> #[trigger] order@[k] < next,
        forall|a: int, b: int|
            0 <= a < b < order@.len() ==> comes_before(
                items@,
                #[trigger] order@[a] as int,
                #[trigger] order@[b] as int,
            ),
    ensures
        at <= order@.len(),
        forall|k: int| 0 <= k < at ==> items@[#[trigger] order@[k] as int].up_to(items@[next as int]),
        forall|k: int|
            at <= k < order@.len() ==> !items@[#[trigger] order@[k] as int].up_to(
                items@[next as int],
            ),
{
    let mut lo: usize = 0;
    let mut hi: usize = order.len();
    while lo < hi
        invariant
            lo <= hi <= order@.len(),
            next < items@.len(),
            forall|k: int| 0 <= k < order@.len() ==> #[trigger] order@[k] < next,
            forall|a: int, b: int|
                0 <= a < b < order@.len() ==> comes_before(
                    items@,
                    #[trigger] order@[a] as int,
                    #[trigger] order@[b] as int,
                ),
            forall|k: int|
                0 <= k < lo ==> items@[#[trigger] order@[k] as int].up_to(items@[next as int]),
            forall|k: int|
                hi <= k < order@.len() ==> !items@[#[trigger] order@[k] as int].up_to(
                    items@[next as int],
                ),
        decreases hi - lo,
    {
        let mid: usize = lo + (hi - lo) / 2;
        let ghost m = order@[mid as int] as int;
        if items[order[mid]].is_up_to(&items[next]) {
            proof {
                assert forall|k: int| 0 <= k < mid + 1 implies items@[
                    #[trigger] order@[k] as int
                ].up_to(items@[next as int]) by {
                    if k < mid {
                        assert(comes_before(items@, order@[k] as int, m));
                        T::lemma_transitive(items@[order@[k] as int], items@[m], items@[next as int]);
                    }
                }
            }
            lo = mid + 1;
        } else {
            proof {
                assert forall|k: int| mid <= k < order@.len() implies !items@[
                    #[trigger] order@[k] as int
                ].up_to(items@[next as int]) by {
                    if k > mid && items@[order@[k] as int].up_to(items@[next as int]) {
                        assert(comes_before(items@, m, order@[k] as int));
                        T::lemma_transitive(items@[m], items@[order@[k] as int], items@[next as int]);
                    }
                }
            }
            hi = mid;
        }
    }
    lo
}

/// The picked positions in the order of their items.
pub fn sort_positions<T: Ranked>(items: &Vec<T>, picked: &Vec<bool>) -> (order: Vec<usize>)
    requires
        items@.len() == picked@.len(),
    ensures
        is_order(items@, picked@, order@),
        order@ == order_of(items@, picked@),
{
    let mut order: Vec<usize> = Vec::new();
    let mut next: usize = 0;
    while next < items.len()
        invariant
            next <= items@.len(),
            items@.len() == picked@.len(),
            forall|k: int| 0 <= k < order@.len() ==> #[trigger] order@[k] < next && picked@[order@[k] as int],
            forall|i: int|
                #![trigger picked@[i]]
                0 <= i < next && picked@[i] ==> order@.contains(i as usize),
            forall|a: int, b: int|
                0 <= a < b < order@.len() ==> comes_before(
                    items@,
                    #[trigger] order@[a] as int,
                    #[trigger] order@[b] as int,
                ),
        decreases items@.len() - next,
    {
        if picked[next] {
            let at: usize = insertion_point(items, &order, next);
            let ghost before = order@;
            order.insert(at, next);
            proof {
                let t = items@[next as int];
                assert forall|a: int, b: int| 0 <= a < b < order@.len() implies comes_before(
                    items@,
                    #[trigger] order@[a] as int,
                    #[trigger] order@[b] as int,
                ) by {
                    if a == at {
                        let x = before[b - 1] as int;
                        T::lemma_total(items@[x], t);
                    } else if b == at {
                        assert(order@[a] == before[a]);
                    } else {
                        let (p, q) = (
                            if a < at {
                                a
                            } else {
                                a - 1
                            },
                            if b < at {
                                b
                            } else {
                                b - 1
                            },
                        );
                        assert(order@[a] == before[p] && order@[b] == before[q]);
                    }
                }
                assert forall|i: int| #![trigger picked@[i]] 0 <= i < next + 1 && picked@[i] implies order@.contains(
                    i as usize,
                ) by {
                    if i < next {
                        let k = choose|k: int| 0 <= k < before.len() && before[k] == i as usize;
                        if k < at {
                            assert(order@[k] == i as usize);
                        } else {
                            assert(order@[k + 1] == i as usize);
                        }
                    } else {
                        assert(order@[at as int] == next);
                    }
                }
            }
        }
        next = next + 1;
    }
    proof {
        assert(is_order(items@, picked@, order@));
        lemma_order_is_one(items@, picked@, order@, order_of(items@, picked@));
    }
    order
}

// ----- byte strings and numbers ------------------------------------------------

/// Byte strings in the order of a dictionary.
pub open spec fn bytes_up_to(a: Seq<u8>, b: Seq<u8>) -> bool
    decreases a.len(),
{
    if a.len() == 0 {
        true
    } else if b.len() == 0 {
        false
    } else {
        a[0] < b[0] || (a[0] == b[0] && bytes_up_to(a.skip(1), b.skip(1)))
    }
}

proof fn lemma_bytes_total(a: Seq<u8>, b: Seq<u8>)
    ensures
        bytes_up_to(a, b) || bytes_up_to(b, a),
    decreases a.len(),
{
    if a.len() > 0 && b.len() > 0 {
        lemma_bytes_total(a.skip(1), b.skip(1));
    }
}

proof fn lemma_bytes_transitive(a: Seq<u8>, b: Seq<u8>, c: Seq<u8>)
    requires
        bytes_up_to(a, b),
        bytes_up_to(b, c),
    ensures
        bytes_up_to(a, c),
    decreases a.len(),
{
    if a.len() > 0 && b.len() > 0 && c.len() > 0 && a[0] == b[0] && b[0] == c[0] {
        lemma_bytes_transitive(a.skip(1), b.skip(1), c.skip(1));
    }
}

impl Ranked for Vec<u8> {
    open spec fn up_to(self, other: Vec<u8>) -> bool {
        bytes_up_to(self@, other@)
    }

    proof fn lemma_total(a: Vec<u8>, b: Vec<u8>) {
        lemma_bytes_total(a@, b@);
    }

    proof fn lemma_transitive(a: Vec<u8>, b: Vec<u8>, c: Vec<u8>) {
        lemma_bytes_transitive(a@, b@, c@);
    }

    fn is_up_to(&self, other: &Vec<u8>) -> (r: bool) {
        let mut i: usize = 0;
        proof {
            assert(self@.skip(0) =~= self@);
            assert(other@.skip(0) =~= other@);
        }
        while i < self.len() && i < other.len() && self[i] == other[i]
            invariant
                i <= self@.len(),
                i <= other@.len(),
                bytes_up_to(self@.skip(i as int), other@.skip(i as int)) == bytes_up_to(
                    self@,
                    other@,
                ),
            decreases self@.len() - i,
        {
            proof {
                assert(self@.skip(i as int).skip(1) =~= self@.skip(i + 1));
                assert(other@.skip(i as int).skip(1) =~= other@.skip(i + 1));
            }
            i = i + 1;
        }
        if i == self.len() {
            true
        } else if i == other.len() {
            false
        } else {
            self[i] < other[i]
        }
    }
}

impl Ranked for Binary64 {
    /// The total order of IEEE 754.
    open spec fn up_to(self, other: Binary64) -> bool {
        self.place() <= other.place()
    }

    proof fn lemma_total(a: Binary64, b: Binary64) {
    }

    proof fn lemma_transitive(a: Binary64, b: Binary64, c: Binary64) {
    }

    fn is_up_to(&self, other: &Binary64) -> (r: bool) {
        !other.is_before(*self)
    }
}

// ----- laws ----------------------------------------------------------------------------

/// Sorted positions are ascending: no item comes after one that ranks higher, items that
/// rank alike keep their order, and every picked item is there once.
pub proof fn law_sorted_positions_ascend<T: Ranked>(
    items: Seq<T>,
    picked: Seq<bool>,
    order: Seq<usize>,
    a: int,
    b: int,
)
    requires
        is_order(items, picked, order),
        0 <= a < b < order.len(),
    ensures
        items[order[a] as int].up_to(items[order[b] as int]),
        order[a] != order[b],
        picked[order[a] as int],
        items[order[b] as int].up_to(items[order[a] as int]) ==> order[a] < order[b],
        forall|i: int|
            #![trigger picked[i]]
            0 <= i < items.len() && picked[i] ==> order.contains(i as usize),
{
    assert(comes_before(items, order[a] as int, order[b] as int));
}

/// Names are sorted like words, byte by byte: the first byte that differs decides, and a
/// name comes before every longer one that begins with it.
pub proof fn law_names_are_sorted_like_words(
    begin: Seq<u8>,
    x: u8,
    y: u8,
    rest: Seq<u8>,
    other: Seq<u8>,
)
    ensures
        x < y ==> bytes_up_to(begin + seq![x] + rest, begin + seq![y] + other) && !bytes_up_to(
            begin + seq![y] + other,
            begin + seq![x] + rest,
        ),
        bytes_up_to(begin, begin + rest),
        rest.len() > 0 ==> !bytes_up_to(begin + rest, begin),
    decreases begin.len(),
{
    let (a, b) = (begin + seq![x] + rest, begin + seq![y] + other);
    if begin.len() > 0 {
        let shorter = begin.skip(1);
        law_names_are_sorted_like_words(shorter, x, y, rest, other);
        assert(a.skip(1) =~= shorter + seq![x] + rest);
        assert(b.skip(1) =~= shorter + seq![y] + other);
        assert((begin + rest).skip(1) =~= shorter + rest);
    }
}

} // verus!
