//! Stable ordering of items by a key.

use vstd::prelude::*;
use vstd::seq::*;
use vstd::seq_lib::*;
use vstd::slice::*;

verus! {

/// A key with an order.
pub trait Ordered: Sized {
    /// Whether this key comes before `other`.
    spec fn below(&self, other: &Self) -> bool;

    /// The relation is a strict weak order.
    proof fn law_weak_order(a: &Self, b: &Self, c: &Self)
        ensures
            !a.below(a),
            a.below(b) ==> !b.below(a),
            a.below(b) && b.below(c) ==> a.below(c),
            a.below(c) ==> a.below(b) || b.below(c),
    ;
}

/// A key by which items are put in order.
pub trait SortKey: Ordered {
    /// Whether this key comes before `other`.
    fn is_below(&self, other: &Self) -> (r: bool)
        ensures
            r == self.below(other),
    ;
}

/// Whether item `i` comes before item `j`: by key, then by position.
pub open spec fn precedes<K: Ordered>(keys: Seq<K>, i: int, j: int) -> bool {
    keys[i].below(&keys[j]) || (!keys[j].below(&keys[i]) && i < j)
}

/// Whether `order` lists every position of `keys` once, in order.
pub open spec fn is_order<K: Ordered>(keys: Seq<K>, order: Seq<usize>) -> bool {
    &&& order.len() == keys.len()
    &&& forall|a: int| 0 <= a < order.len() ==> #[trigger] order[a] < keys.len()
    &&& forall|a: int, b: int|
        0 <= a < b < order.len() ==> #[trigger] precedes(keys, order[a] as int, order[b] as int)
    &&& forall|i: usize| 0 <= i < keys.len() ==> #[trigger] order.contains(i)
}

/// The positions of `keys`, put in order.
pub open spec fn order_of<K: Ordered>(keys: Seq<K>) -> Seq<usize> {
    choose|order: Seq<usize>| is_order(keys, order)
}

pub proof fn lemma_precedes<K: Ordered>(keys: Seq<K>, i: int, j: int, k: int)
    ensures
        !precedes(keys, i, i),
        precedes(keys, i, j) ==> !precedes(keys, j, i),
        precedes(keys, i, j) && precedes(keys, j, k) ==> precedes(keys, i, k),
        i != j ==> precedes(keys, i, j) || precedes(keys, j, i),
{
    K::law_weak_order(&keys[i], &keys[j], &keys[k]);
    K::law_weak_order(&keys[j], &keys[k], &keys[i]);
    K::law_weak_order(&keys[k], &keys[i], &keys[j]);
    K::law_weak_order(&keys[j], &keys[i], &keys[k]);
    K::law_weak_order(&keys[i], &keys[k], &keys[j]);
    K::law_weak_order(&keys[k], &keys[j], &keys[i]);
}

/// There is only one order.
pub proof fn law_order_unique<K: Ordered>(keys: Seq<K>, p: Seq<usize>, q: Seq<usize>)
    requires
        is_order(keys, p),
        is_order(keys, q),
    ensures
        p == q,
{
    if p != q {
        assert(exists|n: int| 0 <= n < p.len() && p[n] != q[n]) by {
            if forall|n: int| 0 <= n < p.len() ==> p[n] == q[n] {
                assert(p =~= q);
            }
        }
        let n0 = choose|n: int| 0 <= n < p.len() && p[n] != q[n];
        let n = lemma_first_difference(p, q, n0);
        assert(q.contains(p[n]));
        let j = choose|j: int| 0 <= j < q.len() && q[j] == p[n];
        assert(p.contains(q[n]));
        let i = choose|i: int| 0 <= i < p.len() && p[i] == q[n];
        lemma_precedes(keys, p[n] as int, q[n] as int, p[n] as int);
        if j < n {
            assert(p[j] == q[j]);
            assert(precedes(keys, p[j] as int, p[n] as int));
        } else if i < n {
            assert(p[i] == q[i]);
            assert(precedes(keys, q[i] as int, q[n] as int));
            lemma_precedes(keys, q[n] as int, q[n] as int, q[n] as int);
        } else {
            assert(precedes(keys, q[n] as int, q[j] as int));
            assert(precedes(keys, p[n] as int, p[i] as int));
        }
    }
}

proof fn lemma_first_difference(p: Seq<usize>, q: Seq<usize>, m: int) -> (n: int)
    requires
        0 <= m < p.len(),
        p.len() == q.len(),
        p[m] != q[m],
    ensures
        0 <= n < p.len(),
        p[n] != q[n],
        forall|i: int| 0 <= i < n ==> p[i] == q[i],
    decreases m,
{
    if exists|k: int| 0 <= k < m && p[k] != q[k] {
        let k = choose|k: int| 0 <= k < m && p[k] != q[k];
        lemma_first_difference(p, q, k)
    } else {
        m
    }
}

/// An order that was found is the order.
pub proof fn lemma_is_order_of<K: Ordered>(keys: Seq<K>, order: Seq<usize>)
    requires
        is_order(keys, order),
    ensures
        order == order_of(keys),
{
    law_order_unique(keys, order, order_of(keys));
}

spec fn is_sorted_run<K: Ordered>(keys: Seq<K>, run: Seq<usize>, lo: int, hi: int) -> bool {
    &&& forall|a: int| 0 <= a < run.len() ==> lo <= #[trigger] run[a] < hi
    &&& forall|a: int, b: int|
        0 <= a < b < run.len() ==> #[trigger] precedes(keys, run[a] as int, run[b] as int)
    &&& forall|i: usize| lo <= i < hi ==> #[trigger] run.contains(i)
    &&& run.len() == hi - lo
}

proof fn lemma_insert_position<K: Ordered>(keys: Seq<K>, run: Seq<usize>, v: int, k: int) -> (p:
    int)
    requires
        0 <= k <= run.len(),
        forall|a: int| 0 <= a < k ==> #[trigger] precedes(keys, run[a] as int, v),
    ensures
        0 <= p <= run.len(),
        forall|a: int| 0 <= a < p ==> #[trigger] precedes(keys, run[a] as int, v),
        p < run.len() ==> !precedes(keys, run[p] as int, v),
    decreases run.len() - k,
{
    if k == run.len() || !precedes(keys, run[k] as int, v) {
        k
    } else {
        lemma_insert_position(keys, run, v, k + 1)
    }
}

proof fn lemma_run_exists<K: Ordered>(keys: Seq<K>, n: nat) -> (run: Seq<usize>)
    requires
        n <= keys.len(),
        n <= usize::MAX,
    ensures
        is_sorted_run(keys, run, 0, n as int),
    decreases n,
{
    if n == 0 {
        Seq::empty()
    } else {
        let v = n - 1;
        let short = lemma_run_exists(keys, v as nat);
        let p = lemma_insert_position(keys, short, v, 0);
        let run = short.insert(p, v as usize);
        assert forall|a: int, b: int| 0 <= a < b < run.len() implies #[trigger] precedes(
            keys,
            run[a] as int,
            run[b] as int,
        ) by {
            let x = if a < p {
                a
            } else {
                a - 1
            };
            let y = if b < p {
                b
            } else {
                b - 1
            };
            if a == p {
                lemma_precedes(keys, short[p] as int, v, short[p] as int);
                if y > p {
                    assert(precedes(keys, short[p] as int, short[y] as int));
                    lemma_precedes(keys, v, short[p] as int, short[y] as int);
                }
            } else if b == p {
                assert(precedes(keys, short[x] as int, v));
            } else {
                assert(precedes(keys, short[x] as int, short[y] as int));
            }
        }
        assert forall|i: usize| 0 <= i < n implies #[trigger] run.contains(i) by {
            if i == v {
                assert(run[p] == i);
            } else {
                assert(short.contains(i));
                let a = choose|a: int| 0 <= a < short.len() && short[a] == i;
                if a < p {
                    assert(run[a] == i);
                } else {
                    assert(run[a + 1] == i);
                }
            }
        }
        assert forall|a: int| 0 <= a < run.len() implies 0 <= #[trigger] run[a] < n by {
            if a < p {
                assert(run[a] == short[a]);
            } else if a > p {
                assert(run[a] == short[a - 1]);
            }
        }
        run
    }
}

/// Every run of items has an order.
pub proof fn law_order_exists<K: Ordered>(keys: Seq<K>)
    requires
        keys.len() <= usize::MAX,
    ensures
        is_order(keys, order_of(keys)),
{
    let run = lemma_run_exists(keys, keys.len());
    assert(is_order(keys, run));
}

fn position_precedes<K: SortKey>(keys: &[K], i: usize, j: usize) -> (r: bool)
    requires
        i < keys@.len(),
        j < keys@.len(),
    ensures
        r == precedes(keys@, i as int, j as int),
{
    keys[i].is_below(&keys[j]) || (!keys[j].is_below(&keys[i]) && i < j)
}

fn merge_runs<K: SortKey>(
    keys: &[K],
    a: &Vec<usize>,
    b: &Vec<usize>,
    Ghost(lo): Ghost<int>,
    Ghost(mid): Ghost<int>,
    Ghost(hi): Ghost<int>,
) -> (out: Vec<usize>)
    requires
        0 <= lo <= mid <= hi <= keys@.len(),
        is_sorted_run(keys@, a@, lo, mid),
        is_sorted_run(keys@, b@, mid, hi),
    ensures
        is_sorted_run(keys@, out@, lo, hi),
{
    let mut out: Vec<usize> = Vec::new();
    let mut i: usize = 0;
    let mut j: usize = 0;
    while i < a.len() || j < b.len()
        invariant
            0 <= lo <= mid <= hi <= keys@.len(),
            is_sorted_run(keys@, a@, lo, mid),
            is_sorted_run(keys@, b@, mid, hi),
            i <= a@.len(),
            j <= b@.len(),
            out@.len() == i + j,
            forall|x: int| 0 <= x < out@.len() ==> lo <= #[trigger] out@[x] < hi,
            forall|x: int, y: int|
                0 <= x < y < out@.len() ==> #[trigger] precedes(
                    keys@,
                    out@[x] as int,
                    out@[y] as int,
                ),
            forall|x: int| 0 <= x < i ==> out@.contains(#[trigger] a@[x]),
            forall|y: int| 0 <= y < j ==> out@.contains(#[trigger] b@[y]),
            forall|x: int, y: int|
                #![trigger out@[x], a@[y]]
                0 <= x < out@.len() && i <= y < a@.len() ==> precedes(
                    keys@,
                    out@[x] as int,
                    a@[y] as int,
                ),
            forall|x: int, y: int|
                #![trigger out@[x], b@[y]]
                0 <= x < out@.len() && j <= y < b@.len() ==> precedes(
                    keys@,
                    out@[x] as int,
                    b@[y] as int,
                ),
        decreases a@.len() - i + b@.len() - j,
    {
        let ghost before = out@;
        let take_a: bool = if i == a.len() {
            false
        } else if j == b.len() {
            true
        } else {
            position_precedes(keys, a[i], b[j])
        };
        if take_a {
            let v: usize = a[i];
            out.push(v);
            proof {
                assert(out@ == before.push(v));
                assert forall|y: int| j <= y < b@.len() implies precedes(
                    keys@,
                    v as int,
                    b@[y] as int,
                ) by {
                    if y > j {
                        assert(precedes(keys@, b@[j as int] as int, b@[y] as int));
                        lemma_precedes(keys@, v as int, b@[j as int] as int, b@[y] as int);
                    }
                }
                assert forall|y: int| i < y < a@.len() implies precedes(
                    keys@,
                    v as int,
                    a@[y] as int,
                ) by {
                    assert(precedes(keys@, a@[i as int] as int, a@[y] as int));
                }
            }
            i += 1;
        } else {
            let v: usize = b[j];
            out.push(v);
            proof {
                assert(out@ == before.push(v));
                assert forall|y: int| i <= y < a@.len() implies precedes(
                    keys@,
                    v as int,
                    a@[y] as int,
                ) by {
                    lemma_precedes(keys@, a@[i as int] as int, v as int, a@[y] as int);
                    if y > i {
                        assert(precedes(keys@, a@[i as int] as int, a@[y] as int));
                        lemma_precedes(keys@, v as int, a@[i as int] as int, a@[y] as int);
                    }
                }
                assert forall|y: int| j < y < b@.len() implies precedes(
                    keys@,
                    v as int,
                    b@[y] as int,
                ) by {
                    assert(precedes(keys@, b@[j as int] as int, b@[y] as int));
                }
            }
            j += 1;
        }
        proof {
            assert forall|w: usize| before.contains(w) implies out@.contains(w) by {
                let x = choose|x: int| 0 <= x < before.len() && before[x] == w;
                assert(out@[x] == w);
            }
            assert(out@[before.len() as int] == out@.last());
            assert(out@.contains(out@.last()));
        }
    }
    proof {
        assert forall|x: usize| lo <= x < hi implies #[trigger] out@.contains(x) by {
            if x < mid {
                assert(a@.contains(x));
            } else {
                assert(b@.contains(x));
            }
        }
    }
    out
}

fn sort_range<K: SortKey>(keys: &[K], lo: usize, hi: usize) -> (out: Vec<usize>)
    requires
        lo <= hi <= keys@.len(),
    ensures
        is_sorted_run(keys@, out@, lo as int, hi as int),
    decreases hi - lo,
{
    if hi == lo {
        Vec::new()
    } else if hi - lo == 1 {
        let mut out: Vec<usize> = Vec::new();
        out.push(lo);
        proof {
            assert forall|i: usize| lo <= i < hi implies #[trigger] out@.contains(i) by {
                assert(out@[0] == i);
            }
        }
        out
    } else {
        let mid: usize = lo + (hi - lo) / 2;
        let a: Vec<usize> = sort_range(keys, lo, mid);
        let b: Vec<usize> = sort_range(keys, mid, hi);
        merge_runs(keys, &a, &b, Ghost(lo as int), Ghost(mid as int), Ghost(hi as int))
    }
}

/// Put the positions of `keys` in order: by key, equal keys by position.
pub fn sort_positions<K: SortKey>(keys: &[K]) -> (order: Vec<usize>)
    ensures
        is_order(keys@, order@),
        order@ == order_of(keys@),
{
    let order: Vec<usize> = sort_range(keys, 0, keys.len());
    proof {
        lemma_is_order_of(keys@, order@);
    }
    order
}

impl Ordered for u64 {
    open spec fn below(&self, other: &Self) -> bool {
        *self < *other
    }

    proof fn law_weak_order(a: &Self, b: &Self, c: &Self) {
    }
}

impl SortKey for u64 {
    fn is_below(&self, other: &Self) -> (r: bool) {
        *self < *other
    }
}

/// Whether `a` comes before `b` byte by byte, a prefix before what extends it.
pub open spec fn bytes_below(a: Seq<u8>, b: Seq<u8>) -> bool
    decreases a.len(),
{
    if b.len() == 0 {
        false
    } else if a.len() == 0 {
        true
    } else if a[0] != b[0] {
        a[0] < b[0]
    } else {
        bytes_below(a.drop_first(), b.drop_first())
    }
}

/// Texts are in a strict weak order.
pub proof fn lemma_bytes_below(a: Seq<u8>, b: Seq<u8>, c: Seq<u8>)
    ensures
        !bytes_below(a, a),
        bytes_below(a, b) ==> !bytes_below(b, a),
        bytes_below(a, b) && bytes_below(b, c) ==> bytes_below(a, c),
        bytes_below(a, c) ==> bytes_below(a, b) || bytes_below(b, c),
    decreases a.len() + b.len() + c.len(),
{
    if a.len() > 0 {
        if b.len() > 0 && c.len() > 0 {
            lemma_bytes_below(a.drop_first(), b.drop_first(), c.drop_first());
        } else if b.len() > 0 {
            lemma_bytes_below(a.drop_first(), b.drop_first(), c);
        } else {
            lemma_bytes_below(a.drop_first(), b, c);
        }
    }
}

/// No text comes before itself, and no two come before each other.
pub proof fn lemma_bytes_below_order(a: Seq<u8>, b: Seq<u8>)
    ensures
        !bytes_below(a, a),
        bytes_below(a, b) ==> !bytes_below(b, a),
{
    lemma_bytes_below(a, b, a);
}

/// One text comes before another if and only if it has the smaller byte where the
/// two first differ, or ends there.
pub proof fn law_bytes_below(a: Seq<u8>, b: Seq<u8>)
    ensures
        bytes_below(a, b) <==> exists|k: int|
            {
                &&& 0 <= k <= a.len()
                &&& k < b.len()
                &&& #[trigger] a.take(k) == b.take(k)
                &&& k < a.len() ==> a[k] < b[k]
            },
    decreases a.len(),
{
    if b.len() > 0 && a.len() > 0 {
        let c = a.drop_first();
        let d = b.drop_first();
        law_bytes_below(c, d);
        if bytes_below(a, b) {
            if a[0] != b[0] {
                assert(a.take(0) =~= b.take(0));
            } else {
                let k = choose|k: int|
                    {
                        &&& 0 <= k <= c.len()
                        &&& k < d.len()
                        &&& #[trigger] c.take(k) == d.take(k)
                        &&& k < c.len() ==> c[k] < d[k]
                    };
                assert(a.take(k + 1) =~= seq![a[0]] + c.take(k));
                assert(b.take(k + 1) =~= seq![b[0]] + d.take(k));
            }
        }
        if exists|k: int|
            {
                &&& 0 <= k <= a.len()
                &&& k < b.len()
                &&& #[trigger] a.take(k) == b.take(k)
                &&& k < a.len() ==> a[k] < b[k]
            } {
            let k = choose|k: int|
                {
                    &&& 0 <= k <= a.len()
                    &&& k < b.len()
                    &&& #[trigger] a.take(k) == b.take(k)
                    &&& k < a.len() ==> a[k] < b[k]
                };
            if k > 0 {
                assert(a.take(k)[0] == b.take(k)[0]);
                assert(c.take(k - 1) =~= a.take(k).drop_first());
                assert(d.take(k - 1) =~= b.take(k).drop_first());
                assert(c.take(k - 1) == d.take(k - 1));
            }
        }
    } else if b.len() > 0 {
        assert(a.take(0) =~= b.take(0));
    }
}

/// Texts of which neither comes first are the same.
pub proof fn lemma_bytes_below_total(a: Seq<u8>, b: Seq<u8>)
    ensures
        a != b ==> bytes_below(a, b) || bytes_below(b, a),
    decreases a.len(),
{
    if a.len() == 0 {
        if b.len() == 0 {
            assert(a =~= b);
        }
    } else if b.len() > 0 && a[0] == b[0] {
        lemma_bytes_below_total(a.drop_first(), b.drop_first());
        if a.drop_first() == b.drop_first() {
            assert(a =~= seq![a[0]] + a.drop_first());
            assert(b =~= seq![b[0]] + b.drop_first());
        }
    }
}

/// A text as a sort key.
pub struct TextKey {
    pub bytes: Vec<u8>,
}

impl Ordered for TextKey {
    open spec fn below(&self, other: &Self) -> bool {
        bytes_below(self.bytes@, other.bytes@)
    }

    proof fn law_weak_order(a: &Self, b: &Self, c: &Self) {
        lemma_bytes_below(a.bytes@, b.bytes@, c.bytes@);
    }
}

impl SortKey for TextKey {
    fn is_below(&self, other: &Self) -> (r: bool) {
        let mut i: usize = 0;
        proof {
            assert(self.bytes@.skip(0) =~= self.bytes@);
            assert(other.bytes@.skip(0) =~= other.bytes@);
        }
        while i < self.bytes.len() && i < other.bytes.len()
            invariant
                i <= self.bytes@.len(),
                i <= other.bytes@.len(),
                bytes_below(self.bytes@, other.bytes@) == bytes_below(
                    self.bytes@.skip(i as int),
                    other.bytes@.skip(i as int),
                ),
            decreases self.bytes@.len() - i,
        {
            if self.bytes[i] != other.bytes[i] {
                return self.bytes[i] < other.bytes[i];
            }
            proof {
                assert(self.bytes@.skip(i as int).drop_first() =~= self.bytes@.skip(i + 1));
                assert(other.bytes@.skip(i as int).drop_first() =~= other.bytes@.skip(i + 1));
            }
            i += 1;
        }
        i < other.bytes.len()
    }
}

/// Whether text `i` comes before text `j`: by its bytes, then by position.
pub open spec fn text_precedes(texts: Seq<Seq<u8>>, i: int, j: int) -> bool {
    bytes_below(texts[i], texts[j]) || (!bytes_below(texts[j], texts[i]) && i < j)
}

/// Whether `order` lists every position of `texts` once, in order.
pub open spec fn is_text_order(texts: Seq<Seq<u8>>, order: Seq<usize>) -> bool {
    &&& order.len() == texts.len()
    &&& forall|a: int| 0 <= a < order.len() ==> #[trigger] order[a] < texts.len()
    &&& forall|a: int, b: int|
        0 <= a < b < order.len() ==> #[trigger] text_precedes(
            texts,
            order[a] as int,
            order[b] as int,
        )
    &&& forall|i: usize| 0 <= i < texts.len() ==> #[trigger] order.contains(i)
}

/// The positions of `texts`, put in order.
pub open spec fn text_order_of(texts: Seq<Seq<u8>>) -> Seq<usize> {
    choose|order: Seq<usize>| is_text_order(texts, order)
}

impl Ordered for Seq<u8> {
    open spec fn below(&self, other: &Self) -> bool {
        bytes_below(*self, *other)
    }

    proof fn law_weak_order(a: &Self, b: &Self, c: &Self) {
        lemma_bytes_below(*a, *b, *c);
    }
}

/// Every run of texts has an order.
pub proof fn law_text_order_exists(texts: Seq<Seq<u8>>)
    requires
        texts.len() <= usize::MAX,
    ensures
        is_text_order(texts, text_order_of(texts)),
{
    law_order_exists(texts);
    let order = order_of(texts);
    assert forall|a: int, b: int| 0 <= a < b < order.len() implies #[trigger] text_precedes(
        texts,
        order[a] as int,
        order[b] as int,
    ) by {
        assert(precedes(texts, order[a] as int, order[b] as int));
    }
    assert(is_text_order(texts, order));
}

/// The texts of a run of keys.
pub open spec fn texts_of(keys: Seq<TextKey>) -> Seq<Seq<u8>> {
    Seq::new(keys.len(), |i: int| keys[i].bytes@)
}

proof fn lemma_text_order(keys: Seq<TextKey>, order: Seq<usize>)
    ensures
        is_text_order(texts_of(keys), order) <==> is_order(keys, order),
{
    let texts = texts_of(keys);
    assert forall|i: int, j: int| 0 <= i < keys.len() && 0 <= j < keys.len() implies #[trigger] text_precedes(
        texts,
        i,
        j,
    ) == precedes(keys, i, j) by {
        assert(texts[i] == keys[i].bytes@ && texts[j] == keys[j].bytes@);
    }
    if is_text_order(texts, order) {
        assert forall|a: int, b: int| 0 <= a < b < order.len() implies #[trigger] precedes(
            keys,
            order[a] as int,
            order[b] as int,
        ) by {
            assert(order[a] < texts.len() && order[b] < texts.len());
            assert(text_precedes(texts, order[a] as int, order[b] as int));
        }
    }
    if is_order(keys, order) {
        assert forall|a: int, b: int| 0 <= a < b < order.len() implies #[trigger] text_precedes(
            texts,
            order[a] as int,
            order[b] as int,
        ) by {
            assert(order[a] < keys.len() && order[b] < keys.len());
            assert(precedes(keys, order[a] as int, order[b] as int));
        }
    }
}

/// Put the positions of texts in order: by their bytes, equal texts by position.
pub fn sort_texts(keys: &[TextKey]) -> (order: Vec<usize>)
    ensures
        is_text_order(texts_of(keys@), order@),
        order@ == text_order_of(texts_of(keys@)),
        is_order(keys@, order@),
{
    let order: Vec<usize> = sort_positions(keys);
    proof {
        lemma_text_order(keys@, order@);
        let chosen = text_order_of(texts_of(keys@));
        assert(is_text_order(texts_of(keys@), chosen));
        lemma_text_order(keys@, chosen);
        law_order_unique(keys@, order@, chosen);
    }
    order
}

} // verus!
