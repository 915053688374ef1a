//! Orders used for display: texts compare as `String` does (by character
//! code, then by length), optional texts put `None` first, and a stable sort
//! puts every element at its rank: the number of elements whose key is
//! smaller, or equal and earlier.
use vstd::prelude::*;
use vstd::relations::injective_on;
use vstd::set_lib::*;

verus! {

/// `a` is before `b` in the order of `String`, comparing from position `k` on.
pub open spec fn text_lt_from(a: Seq<char>, b: Seq<char>, k: int) -> bool
    decreases a.len() - k,
{
    if k >= a.len() {
        k < b.len()
    } else if k >= b.len() {
        false
    } else if a[k] != b[k] {
        a[k] < b[k]
    } else {
        text_lt_from(a, b, k + 1)
    }
}

/// `a` is before `b` in the order of `String`.
pub open spec fn text_lt(a: Seq<char>, b: Seq<char>) -> bool {
    text_lt_from(a, b, 0)
}

/// `a` is before `b` in the order of `Option<String>`: `None` first.
pub open spec fn opt_text_lt(a: Option<Seq<char>>, b: Option<Seq<char>>) -> bool {
    match (a, b) {
        (None, Some(_)) => true,
        (Some(x), Some(y)) => text_lt(x, y),
        _ => false,
    }
}

/// The key by which mods are displayed: group, index in the group, name.
pub type KeyView = (Option<Seq<char>>, i64, Seq<char>);

/// `a` is before `b`, comparing group, then index, then name.
pub open spec fn key_lt(a: KeyView, b: KeyView) -> bool {
    ||| opt_text_lt(a.0, b.0)
    ||| a.0 == b.0 && a.1 < b.1
    ||| a.0 == b.0 && a.1 == b.1 && text_lt(a.2, b.2)
}

/// Element `j` comes before element `i` in the stable order of `keys`.
pub open spec fn before(keys: Seq<KeyView>, j: int, i: int) -> bool {
    key_lt(keys[j], keys[i]) || (keys[j] == keys[i] && j < i)
}

/// The number of elements among the first `m` that come before element `i`.
pub open spec fn rank_upto(keys: Seq<KeyView>, i: int, m: int) -> nat
    decreases m,
{
    if m <= 0 {
        0
    } else if before(keys, m - 1, i) {
        rank_upto(keys, i, m - 1) + 1
    } else {
        rank_upto(keys, i, m - 1)
    }
}

/// The position of element `i` once `keys` are sorted stably.
pub open spec fn rank(keys: Seq<KeyView>, i: int) -> nat {
    rank_upto(keys, i, keys.len() as int)
}

/// `items` sorted stably by `keys`: position `r` holds the element of rank `r`.
pub open spec fn stable_sorted<T>(items: Seq<T>, keys: Seq<KeyView>) -> Seq<T> {
    Seq::new(
        items.len(),
        |r: int| items[choose|i: int| 0 <= i < keys.len() && rank(keys, i) == r],
    )
}

proof fn lemma_text_lt_irreflexive(a: Seq<char>, k: int)
    requires
        0 <= k,
    ensures
        !text_lt_from(a, a, k),
    decreases a.len() - k,
{
    if k < a.len() {
        lemma_text_lt_irreflexive(a, k + 1);
    }
}

proof fn lemma_text_lt_transitive(a: Seq<char>, b: Seq<char>, c: Seq<char>, k: int)
    requires
        0 <= k,
        text_lt_from(a, b, k),
        text_lt_from(b, c, k),
    ensures
        text_lt_from(a, c, k),
    decreases a.len() - k,
{
    if k < a.len() && k < b.len() && k < c.len() && a[k] == b[k] && b[k] == c[k] {
        lemma_text_lt_transitive(a, b, c, k + 1);
    }
}

proof fn lemma_text_lt_total(a: Seq<char>, b: Seq<char>, k: int)
    requires
        0 <= k <= a.len(),
        k <= b.len(),
        !text_lt_from(a, b, k),
        !text_lt_from(b, a, k),
    ensures
        a.subrange(k, a.len() as int) =~= b.subrange(k, b.len() as int),
    decreases a.len() - k,
{
    if k < a.len() && k < b.len() {
        if a[k] == b[k] {
            lemma_text_lt_total(a, b, k + 1);
            assert(a.subrange(k, a.len() as int)[0] == b.subrange(k, b.len() as int)[0]);
            assert forall|j: int| 0 <= j < a.len() - k implies a.subrange(k, a.len() as int)[j]
                == b.subrange(k, b.len() as int)[j] by {
                if j > 0 {
                    assert(a.subrange(k, a.len() as int)[j] == a.subrange(
                        k + 1,
                        a.len() as int,
                    )[j - 1]);
                    assert(b.subrange(k, b.len() as int)[j] == b.subrange(
                        k + 1,
                        b.len() as int,
                    )[j - 1]);
                }
            }
        }
    }
}

/// The order of texts is a strict total order.
pub proof fn lemma_text_order(a: Seq<char>, b: Seq<char>, c: Seq<char>)
    ensures
        !text_lt(a, a),
        text_lt(a, b) && text_lt(b, c) ==> text_lt(a, c),
        a != b ==> text_lt(a, b) || text_lt(b, a),
{
    lemma_text_lt_irreflexive(a, 0);
    if text_lt(a, b) && text_lt(b, c) {
        lemma_text_lt_transitive(a, b, c, 0);
    }
    if !text_lt(a, b) && !text_lt(b, a) {
        lemma_text_lt_total(a, b, 0);
        assert(a =~= a.subrange(0, a.len() as int));
        assert(b =~= b.subrange(0, b.len() as int));
    }
}

/// The order of keys is a strict total order.
pub proof fn lemma_key_order(a: KeyView, b: KeyView, c: KeyView)
    ensures
        !key_lt(a, a),
        key_lt(a, b) && key_lt(b, c) ==> key_lt(a, c),
        a != b ==> key_lt(a, b) || key_lt(b, a),
{
    lemma_text_order(a.2, b.2, c.2);
    match a.0 {
        Some(x) => {
            lemma_text_order(x, x, x);
        },
        None => {},
    }
    match (a.0, b.0, c.0) {
        (Some(x), Some(y), Some(z)) => {
            lemma_text_order(x, y, z);
        },
        (Some(x), Some(y), None) => {
            lemma_text_order(x, y, x);
        },
        _ => {},
    }
    match (a.0, b.0) {
        (Some(x), Some(y)) => {
            lemma_text_order(x, y, x);
        },
        _ => {},
    }
    match (b.0, c.0) {
        (Some(x), Some(y)) => {
            lemma_text_order(x, y, x);
        },
        _ => {},
    }
}

proof fn lemma_before_total(keys: Seq<KeyView>, i: int, j: int, k: int)
    requires
        0 <= i < keys.len(),
        0 <= j < keys.len(),
        0 <= k < keys.len(),
    ensures
        !before(keys, i, i),
        i != j ==> before(keys, i, j) || before(keys, j, i),
        before(keys, i, j) ==> !before(keys, j, i),
        before(keys, i, j) && before(keys, j, k) ==> before(keys, i, k),
{
    lemma_key_order(keys[i], keys[j], keys[k]);
    lemma_key_order(keys[j], keys[i], keys[k]);
    lemma_key_order(keys[i], keys[j], keys[i]);
}

proof fn lemma_rank_bound(keys: Seq<KeyView>, i: int, m: int)
    requires
        0 <= i < keys.len(),
        0 <= m <= keys.len(),
    ensures
        rank_upto(keys, i, m) <= m,
        i < m ==> rank_upto(keys, i, m) < m,
    decreases m,
{
    if m > 0 {
        lemma_rank_bound(keys, i, m - 1);
        lemma_before_total(keys, i, i, i);
    }
}

proof fn lemma_rank_monotone(keys: Seq<KeyView>, i: int, j: int, m: int)
    requires
        0 <= i < keys.len(),
        0 <= j < keys.len(),
        0 <= m <= keys.len(),
        before(keys, i, j),
    ensures
        rank_upto(keys, i, m) + (if i < m { 1int } else { 0int }) <= rank_upto(keys, j, m),
    decreases m,
{
    if m > 0 {
        lemma_rank_monotone(keys, i, j, m - 1);
        lemma_before_total(keys, m - 1, i, j);
        lemma_before_total(keys, i, i, i);
    }
}

/// The stable sort keeps the order of keys, and keeps equal keys in their
/// input order: an element that comes before another gets a smaller rank.
pub proof fn lemma_rank_follows_order(keys: Seq<KeyView>, i: int, j: int)
    requires
        0 <= i < keys.len(),
        0 <= j < keys.len(),
        key_lt(keys[i], keys[j]) || (keys[i] == keys[j] && i < j),
    ensures
        rank(keys, i) < rank(keys, j),
{
    lemma_rank_monotone(keys, i, j, keys.len() as int);
}

/// Ranks are distinct positions below the length.
pub proof fn lemma_rank_injective(keys: Seq<KeyView>, i: int, j: int)
    requires
        0 <= i < keys.len(),
        0 <= j < keys.len(),
    ensures
        rank(keys, i) < keys.len(),
        i != j ==> rank(keys, i) != rank(keys, j),
{
    lemma_rank_bound(keys, i, keys.len() as int);
    if i != j {
        lemma_before_total(keys, i, j, i);
        if before(keys, i, j) {
            lemma_rank_monotone(keys, i, j, keys.len() as int);
        } else {
            lemma_rank_monotone(keys, j, i, keys.len() as int);
        }
    }
}

/// Every position below the length is the rank of exactly one element.
pub proof fn lemma_rank_onto(keys: Seq<KeyView>, r: int)
    requires
        0 <= r < keys.len(),
    ensures
        exists|i: int| 0 <= i < keys.len() && rank(keys, i) == r,
{
    let n = keys.len() as int;
    let dom = set_int_range(0, n);
    let f = |i: int| rank(keys, i) as int;
    lemma_int_range(0, n);
    assert forall|a: int, b: int| dom.contains(a) && dom.contains(b) && f(a) == f(b) implies a
        == b by {
        lemma_rank_injective(keys, a, b);
    }
    assert(injective_on(f, dom));
    lemma_map_size(dom, dom.map(f), f);
    assert forall|x: int| dom.map(f).contains(x) implies dom.contains(x) by {
        let i = choose|i: int| dom.contains(i) && f(i) == x;
        lemma_rank_injective(keys, i, i);
    }
    assert(dom.map(f).subset_of(dom));
    lemma_subset_equality(dom.map(f), dom);
    assert(dom.contains(r));
    assert(dom.map(f).contains(r));
}

/// In the stable sort, the element of rank `rank(keys, i)` is element `i`.
pub proof fn lemma_stable_sorted_at<T>(items: Seq<T>, keys: Seq<KeyView>, i: int)
    requires
        items.len() == keys.len(),
        0 <= i < keys.len(),
    ensures
        rank(keys, i) < keys.len(),
        stable_sorted(items, keys)[rank(keys, i) as int] == items[i],
{
    lemma_rank_injective(keys, i, i);
    let r = rank(keys, i) as int;
    lemma_rank_onto(keys, r);
    let c = choose|c: int| 0 <= c < keys.len() && rank(keys, c) == r;
    lemma_rank_injective(keys, c, i);
}

/// Whether text `a` is before text `b` in the order of `String`.
pub fn text_less(a: &[char], b: &[char]) -> (r: bool)
    ensures
        r == text_lt(a@, b@),
{
    let mut k: usize = 0;
    while k < a.len() && k < b.len() && a[k] == b[k]
        invariant
            k <= a.len(),
            k <= b.len(),
            text_lt_from(a@, b@, 0) == text_lt_from(a@, b@, k as int),
        decreases a.len() - k,
    {
        k = k + 1;
    }
    if k >= a.len() {
        k < b.len()
    } else if k >= b.len() {
        false
    } else {
        a[k] < b[k]
    }
}

/// A display key with its parts as plain values.
pub struct SortKey {
    pub group: Option<Vec<char>>,
    pub index: i64,
    pub name: Vec<char>,
}

impl SortKey {
    pub open spec fn view_key(&self) -> KeyView {
        (
            match self.group {
                Some(g) => Some(g@),
                None => None,
            },
            self.index,
            self.name@,
        )
    }
}

/// The views of a list of keys.
pub open spec fn key_views(keys: Seq<SortKey>) -> Seq<KeyView> {
    Seq::new(keys.len(), |i: int| keys[i].view_key())
}

/// Whether key `a` is before key `b`.
pub fn key_less(a: &SortKey, b: &SortKey) -> (r: bool)
    ensures
        r == key_lt(a.view_key(), b.view_key()),
{
    let group_lt = match (&a.group, &b.group) {
        (None, Some(_)) => true,
        (Some(x), Some(y)) => text_less(x.as_slice(), y.as_slice()),
        _ => false,
    };
    if group_lt {
        return true;
    }
    let group_eq = match (&a.group, &b.group) {
        (None, None) => true,
        (Some(x), Some(y)) => crate::text::text_eq(x.as_slice(), y.as_slice()),
        _ => false,
    };
    if !group_eq {
        return false;
    }
    if a.index < b.index {
        return true;
    }
    if a.index != b.index {
        return false;
    }
    text_less(a.name.as_slice(), b.name.as_slice())
}

/// Whether key `a` equals key `b`.
pub fn key_equal(a: &SortKey, b: &SortKey) -> (r: bool)
    ensures
        r == (a.view_key() == b.view_key()),
{
    let group_eq = match (&a.group, &b.group) {
        (None, None) => true,
        (Some(x), Some(y)) => crate::text::text_eq(x.as_slice(), y.as_slice()),
        _ => false,
    };
    group_eq && a.index == b.index && crate::text::text_eq(a.name.as_slice(), b.name.as_slice())
}

/// The rank of every element in the stable sort of `keys`.
pub fn stable_ranks(keys: &Vec<SortKey>) -> (r: Vec<usize>)
    ensures
        r.len() == keys.len(),
        forall|i: int| 0 <= i < keys.len() ==> r@[i] == rank(key_views(keys@), i),
{
    let ghost kv = key_views(keys@);
    let n = keys.len();
    let mut r: Vec<usize> = Vec::new();
    let mut i: usize = 0;
    while i < n
        invariant
            n == keys.len(),
            kv == key_views(keys@),
            i <= n,
            r.len() == i,
            forall|x: int| 0 <= x < i ==> r@[x] == rank(kv, x),
        decreases n - i,
    {
        let mut count: usize = 0;
        let mut m: usize = 0;
        while m < n
            invariant
                n == keys.len(),
                kv == key_views(keys@),
                i < n,
                m <= n,
                count == rank_upto(kv, i as int, m as int),
            decreases n - m,
        {
            proof {
                lemma_rank_bound(kv, i as int, m as int);
            }
            let is_before = key_less(&keys[m], &keys[i]) || (key_equal(&keys[m], &keys[i]) && m
                < i);
            if is_before {
                count = count + 1;
            }
            m = m + 1;
        }
        r.push(count);
        i = i + 1;
    }
    r
}

/// Puts element `i` of `items` at position `ranks[i]`, for ranks that are
/// those of a stable sort.
pub fn place_by_rank<T>(items: Vec<T>, ranks: &Vec<usize>, Ghost(keys): Ghost<Seq<KeyView>>) -> (r:
    Vec<T>)
    requires
        items.len() == keys.len(),
        ranks.len() == keys.len(),
        forall|i: int| 0 <= i < keys.len() ==> ranks@[i] == rank(keys, i),
    ensures
        r@ == stable_sorted(items@, keys),
{
    let n = items.len();
    let ghost orig = items@;
    let mut items = items;
    let mut slots: Vec<Option<T>> = Vec::new();
    let mut k: usize = 0;
    while k < n
        invariant
            k <= n,
            slots.len() == k,
            forall|x: int| 0 <= x < k ==> slots@[x] is None,
        decreases n - k,
    {
        slots.push(None);
        k = k + 1;
    }
    let mut i: usize = n;
    while i > 0
        invariant
            n == keys.len(),
            n == orig.len(),
            ranks.len() == n,
            forall|x: int| 0 <= x < n ==> ranks@[x] == rank(keys, x),
            i <= n,
            items@ == orig.subrange(0, i as int),
            slots.len() == n,
            forall|x: int| i <= x < n ==> slots@[rank(keys, x) as int] == Some(orig[x]),
        decreases i,
    {
        i = i - 1;
        let item = items.pop().unwrap();
        assert(item == orig[i as int]);
        let at = ranks[i];
        proof {
            lemma_rank_injective(keys, i as int, i as int);
            assert forall|x: int| i < x < n implies rank(keys, x) != rank(keys, i as int) by {
                lemma_rank_injective(keys, x, i as int);
            }
        }
        let ghost prev = slots@;
        slots.set(at, Some(item));
        proof {
            assert(items@ =~= orig.subrange(0, i as int));
            assert forall|x: int| i <= x < n implies slots@[rank(keys, x) as int] == Some(
                orig[x],
            ) by {
                lemma_rank_injective(keys, x, i as int);
                if x != i {
                    assert(prev[rank(keys, x) as int] == Some(orig[x]));
                }
            }
        }
    }
    let mut out: Vec<T> = Vec::new();
    let mut p: usize = 0;
    while p < n
        invariant
            n == keys.len(),
            n == orig.len(),
            slots.len() == n,
            p <= n,
            forall|x: int| 0 <= x < n ==> slots@[rank(keys, x) as int] == Some(orig[x]) || rank(
                keys,
                x,
            ) < p,
            out@ =~= stable_sorted(orig, keys).subrange(0, p as int),
        decreases n - p,
    {
        proof {
            lemma_rank_onto(keys, p as int);
        }
        let ghost c = choose|c: int| 0 <= c < keys.len() && rank(keys, c) == p;
        proof {
            lemma_stable_sorted_at(orig, keys, c);
            assert(slots@[p as int] == Some(orig[c]));
        }
        let e = slots[p].take().unwrap();
        out.push(e);
        proof {
            assert forall|x: int| 0 <= x < n implies slots@[rank(keys, x) as int] == Some(orig[x])
                || rank(keys, x) < p + 1 by {
                lemma_rank_injective(keys, x, c);
            }
        }
        p = p + 1;
    }
    out
}

} // verus!
