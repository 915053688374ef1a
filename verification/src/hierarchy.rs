//! The rules of the virtual category tree: where a category may be moved,
//! at which place among its siblings it lands, and how siblings are
//! renumbered.
use vstd::prelude::*;
use crate::domain::{clone_opt, opt_text_eq, opt_view, texts, AppError, Category};
use crate::order::{key_views, place_by_rank, rank, rank_upto, stable_ranks, stable_sorted, text_lt, KeyView, SortKey};
use crate::text::owned;
use crate::outside::{is_v4_uuid_text, random_uuid};
use vstd::relations::injective_on;
use vstd::set_lib::*;

verus! {

broadcast use vstd::string::group_string_axioms;

/// `i` is the first position of `cats` that holds a category with id `id`.
pub open spec fn is_first_with_id(cats: Seq<Category>, id: Seq<char>, i: int) -> bool {
    &&& 0 <= i < cats.len()
    &&& cats[i].id@ == id
    &&& forall|j: int| 0 <= j < i ==> cats[j].id@ != id
}

/// The first position of `cats` that holds a category with id `id`, as
/// `iter().find(|c| c.id == id)` finds it.
pub open spec fn first_with_id(cats: Seq<Category>, id: Seq<char>) -> Option<int> {
    if exists|i: int| is_first_with_id(cats, id, i) {
        Some(choose|i: int| is_first_with_id(cats, id, i))
    } else {
        None
    }
}

/// The parent of the category with id `id`; `None` for a root category or an unknown id.
pub open spec fn parent_of(cats: Seq<Category>, id: Seq<char>) -> Option<Seq<char>> {
    match first_with_id(cats, id) {
        Some(i) => opt_view(cats[i].parent_id),
        None => None,
    }
}

/// The parent relation of the categories in `cats`.
pub open spec fn tree_parent(cats: Seq<Category>) -> spec_fn(Seq<char>) -> Option<Seq<char>> {
    |x: Seq<char>| parent_of(cats, x)
}

/// The node reached from `from` after `k` steps up the parent relation `par`.
pub open spec fn walk(
    par: spec_fn(Seq<char>) -> Option<Seq<char>>,
    from: Option<Seq<char>>,
    k: nat,
) -> Option<Seq<char>>
    decreases k,
{
    if k == 0 {
        from
    } else {
        match walk(par, from, (k - 1) as nat) {
            Some(x) => par(x),
            None => None,
        }
    }
}

/// `to` is `from` or one of its ancestors.
pub open spec fn reaches(cats: Seq<Category>, from: Seq<char>, to: Seq<char>) -> bool {
    exists|k: nat| walk(tree_parent(cats), Some(from), k) == Some(to)
}

/// No node is its own ancestor under the parent relation `par`.
pub open spec fn acyclic(par: spec_fn(Seq<char>) -> Option<Seq<char>>) -> bool {
    forall|x: Seq<char>, k: nat| k >= 1 ==> walk(par, Some(x), k) != Some(x)
}

/// The parent relation once category `id` is given the parent `parent`.
pub open spec fn moved_parent(
    cats: Seq<Category>,
    id: Seq<char>,
    parent: Option<Seq<char>>,
) -> spec_fn(Seq<char>) -> Option<Seq<char>> {
    |x: Seq<char>|
        if x == id {
            parent
        } else {
            parent_of(cats, x)
        }
}

proof fn lemma_first_unique(cats: Seq<Category>, id: Seq<char>, i: int)
    requires
        is_first_with_id(cats, id, i),
    ensures
        first_with_id(cats, id) == Some(i),
{
    let c = choose|c: int| is_first_with_id(cats, id, c);
    if c < i {
        assert(cats[c].id@ == id);
    } else if c > i {
        assert(cats[i].id@ == id);
    }
}

proof fn lemma_walk_add(par: spec_fn(Seq<char>) -> Option<Seq<char>>, from: Option<Seq<char>>, a: nat, b: nat)
    ensures
        walk(par, from, a + b) == walk(par, walk(par, from, a), b),
    decreases b,
{
    if b > 0 {
        lemma_walk_add(par, from, a, (b - 1) as nat);
        assert((a + b - 1) as nat == a + (b - 1) as nat);
    }
}

proof fn lemma_walk_none(par: spec_fn(Seq<char>) -> Option<Seq<char>>, from: Option<Seq<char>>, a: nat, k: nat)
    requires
        walk(par, from, a) is None,
        a <= k,
    ensures
        walk(par, from, k) is None,
    decreases k - a,
{
    if a < k {
        lemma_walk_none(par, from, a, (k - 1) as nat);
    }
}

/// Among `n + 1` values below `n`, two are equal.
proof fn lemma_pigeonhole(f: spec_fn(int) -> int, n: int)
    requires
        0 <= n,
        forall|i: int| 0 <= i <= n ==> 0 <= #[trigger] f(i) < n,
    ensures
        exists|i: int, j: int| 0 <= i < j <= n && #[trigger] f(i) == #[trigger] f(j),
{
    let dom = set_int_range(0, n + 1);
    lemma_int_range(0, n + 1);
    lemma_int_range(0, n);
    if !(exists|i: int, j: int| 0 <= i < j <= n && #[trigger] f(i) == #[trigger] f(j)) {
        assert forall|a: int, b: int| dom.contains(a) && dom.contains(b) && f(a) == f(b) implies a
            == b by {
            if a < b {
                assert(f(a) == f(b));
            } else if b < a {
                assert(f(b) == f(a));
            }
        }
        assert(injective_on(f, dom));
        lemma_map_size(dom, dom.map(f), f);
        assert(dom.map(f).subset_of(set_int_range(0, n)));
        lemma_len_subset(dom.map(f), set_int_range(0, n));
    }
}

/// Once a walk repeats a node, every later node is one already seen before the repeat.
proof fn lemma_walk_cycle(
    par: spec_fn(Seq<char>) -> Option<Seq<char>>,
    from: Option<Seq<char>>,
    i: nat,
    j: nat,
    k: nat,
)
    requires
        i < j,
        walk(par, from, i) == walk(par, from, j),
    ensures
        exists|t: nat| t < j && walk(par, from, t) == walk(par, from, k),
    decreases k,
{
    if k < j {
        assert(walk(par, from, k) == walk(par, from, k));
    } else {
        let d = (k - j) as nat;
        lemma_walk_add(par, from, j, d);
        lemma_walk_add(par, from, i, d);
        lemma_walk_cycle(par, from, i, j, i + d);
    }
}

/// The position of the first category with id `id`.
pub fn find_category(categories: &Vec<Category>, id: &str) -> (r: Option<usize>)
    ensures
        r == (match first_with_id(categories@, id@) {
            Some(i) => Some(i as usize),
            None => None,
        }),
        r matches Some(i) ==> is_first_with_id(categories@, id@, i as int),
{
    let key = owned(id);
    let mut i: usize = 0;
    while i < categories.len()
        invariant
            key@ == id@,
            i <= categories.len(),
            forall|j: int| 0 <= j < i ==> categories@[j].id@ != id@,
        decreases categories.len() - i,
    {
        if categories[i].id == key {
            proof {
                lemma_first_unique(categories@, id@, i as int);
            }
            return Some(i);
        }
        i = i + 1;
    }
    None
}

/// A walk up the tree that still goes on after `n + 1` steps, with `n`
/// categories, has visited some node twice.
proof fn lemma_walk_repeats(cats: Seq<Category>, from: Seq<char>)
    requires
        walk(tree_parent(cats), Some(from), cats.len() + 1) is Some,
    ensures
        exists|i: nat, j: nat|
            i < j <= cats.len() && #[trigger] walk(tree_parent(cats), Some(from), i) == #[trigger] walk(
                tree_parent(cats),
                Some(from),
                j,
            ),
{
    let par = tree_parent(cats);
    let n = cats.len() as int;
    let f = |k: int| first_with_id(cats, walk(par, Some(from), k as nat)->0)->0;
    assert forall|k: int| 0 <= k <= n implies 0 <= #[trigger] f(k) < n && cats[f(k)].id@ == walk(
        par,
        Some(from),
        k as nat,
    )->0 && walk(par, Some(from), k as nat) is Some by {
        let kk = k as nat;
        if walk(par, Some(from), kk + 1) is None {
            lemma_walk_none(par, Some(from), kk + 1, cats.len() + 1);
        }
        if walk(par, Some(from), kk) is None {
            lemma_walk_none(par, Some(from), kk, cats.len() + 1);
        }
        let x = walk(par, Some(from), kk)->0;
        assert(walk(par, Some(from), kk + 1) == parent_of(cats, x));
        assert(first_with_id(cats, x) is Some);
        assert(is_first_with_id(cats, x, first_with_id(cats, x)->0));
    }
    lemma_pigeonhole(f, n);
    let (i, j) = choose|i: int, j: int| 0 <= i < j <= n && #[trigger] f(i) == #[trigger] f(j);
    assert(walk(par, Some(from), i as nat) == walk(par, Some(from), j as nat));
}

/// Whether `ancestor` is `candidate` or one of its ancestors, following
/// `parent_id` links through `categories`.
pub fn is_descendant(candidate: &str, ancestor: &str, categories: &[Category]) -> (r: bool)
    ensures
        r == reaches(categories@, candidate@, ancestor@),
{
    let ghost cats = categories@;
    let ghost par = tree_parent(cats);
    let ghost start = Some(candidate@);
    let target = owned(ancestor);
    let n = categories.len();
    let mut cursor: Option<String> = Some(owned(candidate));
    let mut steps: usize = 0;
    loop
        invariant_except_break
            opt_view(cursor) == walk(par, start, steps as nat),
        invariant
            n == categories.len(),
            cats == categories@,
            par == tree_parent(cats),
            start == Some(candidate@),
            target@ == ancestor@,
            steps <= n,
            forall|k: nat| k < steps ==> walk(par, start, k) != Some(ancestor@),
        ensures
            steps == n,
            opt_view(cursor) == walk(par, start, n as nat + 1),
            forall|k: nat| k <= n ==> walk(par, start, k) != Some(ancestor@),
        decreases n - steps,
    {
        match cursor {
            None => {
                assert forall|k: nat| walk(par, start, k) != Some(ancestor@) by {
                    if k >= steps {
                        lemma_walk_none(par, start, steps as nat, k);
                    }
                }
                return false;
            },
            Some(id) => {
                if id == target {
                    return true;
                }
                let next = match find_category_slice(categories, id.as_str()) {
                    Some(i) => clone_opt(&categories[i].parent_id),
                    None => None,
                };
                assert(walk(par, start, (steps + 1) as nat) == par(id@));
                cursor = next;
                if steps == n {
                    break;
                }
                steps = steps + 1;
            },
        }
    }
    if cursor.is_none() {
        assert forall|k: nat| walk(par, start, k) != Some(ancestor@) by {
            if k > n {
                lemma_walk_none(par, start, n as nat + 1, k);
            }
        }
        return false;
    }
    proof {
        lemma_walk_repeats(cats, candidate@);
        let (i, j) = choose|i: nat, j: nat|
            i < j <= cats.len() && #[trigger] walk(par, start, i) == #[trigger] walk(par, start, j);
        assert forall|k: nat| walk(par, start, k) != Some(ancestor@) by {
            lemma_walk_cycle(par, start, i, j, k);
        }
    }
    false
}

/// The position of the first category with id `id` in a slice.
fn find_category_slice(categories: &[Category], id: &str) -> (r: Option<usize>)
    ensures
        r == (match first_with_id(categories@, id@) {
            Some(i) => Some(i as usize),
            None => None,
        }),
        r matches Some(i) ==> is_first_with_id(categories@, id@, i as int),
{
    let key = owned(id);
    let mut i: usize = 0;
    while i < categories.len()
        invariant
            key@ == id@,
            i <= categories.len(),
            forall|j: int| 0 <= j < i ==> categories@[j].id@ != id@,
        decreases categories.len() - i,
    {
        if categories[i].id == key {
            proof {
                lemma_first_unique(categories@, id@, i as int);
            }
            return Some(i);
        }
        i = i + 1;
    }
    None
}

} // verus!

verus! {

proof fn lemma_walk_moved(
    cats: Seq<Category>,
    id: Seq<char>,
    parent: Option<Seq<char>>,
    from: Option<Seq<char>>,
    k: nat,
)
    ensures
        walk(moved_parent(cats, id, parent), from, k) == walk(tree_parent(cats), from, k) || exists|
            t: nat,
        |
            t < k && walk(moved_parent(cats, id, parent), from, t) == Some(id) && walk(
                tree_parent(cats),
                from,
                t,
            ) == Some(id),
    decreases k,
{
    let mv = moved_parent(cats, id, parent);
    let old = tree_parent(cats);
    if k > 0 {
        let k1 = (k - 1) as nat;
        lemma_walk_moved(cats, id, parent, from, k1);
        if walk(mv, from, k1) == walk(old, from, k1) {
            if walk(old, from, k1) == Some(id) {
                assert(k1 < k);
            }
        } else {
            let t = choose|t: nat|
                t < k1 && walk(mv, from, t) == Some(id) && walk(old, from, t) == Some(id);
            assert(t < k);
        }
    }
}

/// Moving category `id` under a parent that is neither the category itself
/// nor one of its descendants keeps the category tree free of cycles.
pub proof fn lemma_move_keeps_tree_acyclic(
    cats: Seq<Category>,
    id: Seq<char>,
    parent: Option<Seq<char>>,
)
    requires
        acyclic(tree_parent(cats)),
        parent matches Some(p) ==> !reaches(cats, p, id),
    ensures
        acyclic(moved_parent(cats, id, parent)),
{
    let mv = moved_parent(cats, id, parent);
    let old = tree_parent(cats);
    assert forall|x: Seq<char>, k: nat| k >= 1 implies walk(mv, Some(x), k) != Some(x) by {
        if walk(mv, Some(x), k) == Some(x) {
            lemma_walk_moved(cats, id, parent, Some(x), k);
            if walk(mv, Some(x), k) == walk(old, Some(x), k) {
                assert(walk(old, Some(x), k) == Some(x));
            } else {
                let t = choose|t: nat|
                    t < k && walk(mv, Some(x), t) == Some(id) && walk(old, Some(x), t) == Some(id);
                lemma_walk_add(mv, Some(x), k, t);
                lemma_walk_add(mv, Some(x), t, k);
                assert(walk(mv, Some(id), k) == Some(id));
                let k1 = (k - 1) as nat;
                lemma_walk_add(mv, Some(id), 1, k1);
                assert(walk(mv, Some(id), 0) == Some(id));
                assert(walk(mv, Some(id), 1) == parent);
                match parent {
                    None => {
                        lemma_walk_none(mv, None, 0, k1);
                    },
                    Some(p) => {
                        assert(walk(mv, Some(p), k1) == Some(id));
                        lemma_walk_moved(cats, id, parent, Some(p), k1);
                        if walk(mv, Some(p), k1) == walk(old, Some(p), k1) {
                            assert(reaches(cats, p, id));
                        } else {
                            let s = choose|s: nat|
                                s < k1 && walk(mv, Some(p), s) == Some(id) && walk(
                                    old,
                                    Some(p),
                                    s,
                                ) == Some(id);
                            assert(reaches(cats, p, id));
                        }
                    },
                }
            }
        }
    }
}

/// The categories of `cats` whose parent is `parent`, in order.
pub open spec fn siblings(cats: Seq<Category>, parent: Option<Seq<char>>) -> Seq<Category>
    decreases cats.len(),
{
    if cats.len() == 0 {
        Seq::empty()
    } else {
        let prev = siblings(cats.drop_last(), parent);
        if opt_view(cats.last().parent_id) == parent {
            prev.push(cats.last())
        } else {
            prev
        }
    }
}

/// The keys that order categories by `sort_index` alone.
pub open spec fn index_keys(cats: Seq<Category>) -> Seq<KeyView> {
    Seq::new(cats.len(), |i: int| (None, cats[i].sort_index, Seq::<char>::empty()))
}

/// The place at which category `id`, moved under `parent` to position
/// `index`, is put among its new siblings: when it stays under the same
/// parent and moves down, the position counts it no more.
pub open spec fn move_target_index(
    cats: Seq<Category>,
    id: Seq<char>,
    parent: Option<Seq<char>>,
    index: int,
) -> int {
    let m = cats[first_with_id(cats, id)->0];
    if opt_view(m.parent_id) == parent {
        let sibs = siblings(cats, parent);
        let old = match first_with_id(stable_sorted(sibs, index_keys(sibs)), id) {
            Some(p) => p,
            None => 0,
        };
        if old < index {
            index - 1
        } else {
            index
        }
    } else {
        index
    }
}

/// Checks a request to move category `id` under `parent_id` at position
/// `index`, and gives the position at which the category is to be put.
/// Refused: an unknown category, and a parent that is the category itself or
/// one of its descendants.
pub fn category_move_index(
    categories: &Vec<Category>,
    id: &str,
    parent_id: &Option<String>,
    index: usize,
) -> (r: Result<usize, AppError>)
    ensures
        first_with_id(categories@, id@) is None ==> (r matches Err(AppError::MissingCategory(s))
            && s@ == id@),
        first_with_id(categories@, id@) is Some && parent_id.is_some() && reaches(
            categories@,
            parent_id->0@,
            id@,
        ) ==> r matches Err(AppError::CategoryCycle),
        first_with_id(categories@, id@) is Some && !(parent_id.is_some() && reaches(
            categories@,
            parent_id->0@,
            id@,
        )) ==> r == Ok::<usize, AppError>(
            move_target_index(categories@, id@, opt_view(*parent_id), index as int) as usize,
        ),
{
    let mi = match find_category(categories, id) {
        Some(i) => i,
        None => {
            return Err(AppError::MissingCategory(owned(id)));
        },
    };
    if let Some(parent) = parent_id {
        let key = owned(id);
        if *parent == key || is_descendant(parent.as_str(), id, categories.as_slice()) {
            proof {
                if parent@ == id@ {
                    assert(walk(tree_parent(categories@), Some(parent@), 0) == Some(id@));
                }
            }
            return Err(AppError::CategoryCycle);
        }
    }
    let moving = &categories[mi];
    if opt_text_eq(&moving.parent_id, parent_id) {
        let sibs = siblings_in(categories, &moving.parent_id);
        let mut keys: Vec<SortKey> = Vec::new();
        let mut i: usize = 0;
        while i < sibs.len()
            invariant
                i <= sibs.len(),
                keys.len() == i,
                forall|j: int| 0 <= j < i ==> keys@[j].view_key() == index_keys(sibs@)[j],
            decreases sibs.len() - i,
        {
            keys.push(SortKey { group: None, index: sibs[i].sort_index, name: Vec::new() });
            proof {
                assert(keys@[i as int].view_key() =~= index_keys(sibs@)[i as int]);
            }
            i = i + 1;
        }
        assert(key_views(keys@) =~= index_keys(sibs@));
        let ranks = stable_ranks(&keys);
        let ghost sibs_view = sibs@;
        let sorted = place_by_rank(sibs, &ranks, Ghost(index_keys(sibs_view)));
        let old = match find_category(&sorted, id) {
            Some(p) => p,
            None => 0,
        };
        if old < index {
            Ok(index - 1)
        } else {
            Ok(index)
        }
    } else {
        Ok(index)
    }
}

/// The categories whose parent is `parent`, in order.
pub fn siblings_in(categories: &Vec<Category>, parent: &Option<String>) -> (r: Vec<Category>)
    ensures
        r@ == siblings(categories@, opt_view(*parent)),
{
    let mut r: Vec<Category> = Vec::new();
    let mut i: usize = 0;
    while i < categories.len()
        invariant
            i <= categories.len(),
            r@ == siblings(categories@.take(i as int), opt_view(*parent)),
        decreases categories.len() - i,
    {
        assert(categories@.take(i as int + 1).drop_last() =~= categories@.take(i as int));
        if opt_text_eq(&categories[i].parent_id, parent) {
            r.push(categories[i].clone());
        }
        i = i + 1;
    }
    assert(categories@.take(categories.len() as int) =~= categories@);
    r
}

/// `ids` without any copy of `x`, in order.
pub open spec fn without(ids: Seq<Seq<char>>, x: Seq<char>) -> Seq<Seq<char>>
    decreases ids.len(),
{
    if ids.len() == 0 {
        Seq::empty()
    } else {
        let prev = without(ids.drop_last(), x);
        if ids.last() == x {
            prev
        } else {
            prev.push(ids.last())
        }
    }
}

/// The order of siblings once `moving` is put at position `target` among
/// the others (at the end when no position is given, and at most at the end).
pub open spec fn reordered(
    ids: Seq<Seq<char>>,
    moving: Option<Seq<char>>,
    target: Option<int>,
) -> Seq<Seq<char>> {
    match moving {
        None => ids,
        Some(m) => {
            let rest = without(ids, m);
            let at = match target {
                Some(t) => if t < rest.len() {
                    t
                } else {
                    rest.len() as int
                },
                None => rest.len() as int,
            };
            rest.insert(at, m)
        },
    }
}

/// The new order of a group of sibling categories, given in their current
/// order: the moving category, if any, leaves its place and is put at
/// `target_index` (or at the end). Position `i` of the result is the
/// `sort_index` the category gets.
pub fn normalized_sibling_order(
    ids: Vec<String>,
    moving_id: Option<&str>,
    target_index: Option<usize>,
) -> (r: Vec<String>)
    ensures
        texts(r@) == reordered(
            texts(ids@),
            match moving_id {
                Some(m) => Some(m@),
                None => None,
            },
            match target_index {
                Some(t) => Some(t as int),
                None => None,
            },
        ),
        moving_id is None ==> r@ == ids@,
{
    match moving_id {
        None => ids,
        Some(m) => {
            let key = owned(m);
            let mut rest: Vec<String> = Vec::new();
            let mut i: usize = 0;
            while i < ids.len()
                invariant
                    key@ == m@,
                    i <= ids.len(),
                    texts(rest@) == without(texts(ids@.take(i as int)), m@),
                decreases ids.len() - i,
            {
                assert(texts(ids@.take(i as int + 1)).drop_last() =~= texts(ids@.take(i as int)));
                if ids[i] != key {
                    rest.push(ids[i].clone());
                    assert(texts(rest@) =~= without(texts(ids@.take(i as int)), m@).push(
                        ids@[i as int]@,
                    ));
                }
                i = i + 1;
            }
            assert(ids@.take(ids.len() as int) =~= ids@);
            let len = rest.len();
            let at = match target_index {
                Some(t) => if t < len {
                    t
                } else {
                    len
                },
                None => len,
            };
            rest.insert(at, key);
            assert(texts(rest@) =~= reordered(
                texts(ids@),
                Some(m@),
                match target_index {
                    Some(t) => Some(t as int),
                    None => None,
                },
            ));
            rest
        },
    }
}

} // verus!

verus! {

proof fn lemma_without_absent(ids: Seq<Seq<char>>, x: Seq<char>)
    ensures
        !without(ids, x).contains(x),
        without(ids, x).len() <= ids.len(),
    decreases ids.len(),
{
    if ids.len() > 0 {
        lemma_without_absent(ids.drop_last(), x);
        let p = without(ids.drop_last(), x);
        if ids.last() != x {
            assert forall|k: int| 0 <= k < p.push(ids.last()).len() implies p.push(ids.last())[k] != x by {
                if k < p.len() {
                    assert(p[k] == p.push(ids.last())[k]);
                }
            }
        }
    }
}

proof fn lemma_without_of_absent(ids: Seq<Seq<char>>, x: Seq<char>)
    requires
        !ids.contains(x),
    ensures
        without(ids, x) == ids,
    decreases ids.len(),
{
    if ids.len() > 0 {
        assert(!ids.drop_last().contains(x)) by {
            if ids.drop_last().contains(x) {
                let k = choose|k: int| 0 <= k < ids.drop_last().len() && ids.drop_last()[k] == x;
                assert(ids[k] == x);
            }
        }
        lemma_without_of_absent(ids.drop_last(), x);
        assert(ids.last() != x) by {
            assert(ids[ids.len() - 1] == ids.last());
        }
        assert(ids.drop_last().push(ids.last()) =~= ids);
    }
}

proof fn lemma_without_insert(rest: Seq<Seq<char>>, at: int, x: Seq<char>)
    requires
        0 <= at <= rest.len(),
        !rest.contains(x),
    ensures
        without(rest.insert(at, x), x) == rest,
    decreases rest.len(),
{
    let s = rest.insert(at, x);
    if at == rest.len() {
        assert(s.drop_last() =~= rest);
        lemma_without_of_absent(rest, x);
    } else {
        let r2 = rest.drop_last();
        assert(!r2.contains(x)) by {
            if r2.contains(x) {
                let k = choose|k: int| 0 <= k < r2.len() && r2[k] == x;
                assert(rest[k] == x);
            }
        }
        lemma_without_insert(r2, at, x);
        assert(s.drop_last() =~= r2.insert(at, x));
        assert(s.last() == rest.last());
        assert(rest.last() != x) by {
            assert(rest[rest.len() - 1] == rest.last());
        }
        assert(r2.push(rest.last()) =~= rest);
    }
}

/// Renumbering siblings around a moved category keeps the others in their
/// order, puts the moved one at the requested position (at most at the end),
/// and lists it once.
pub proof fn lemma_reorder_keeps_others(ids: Seq<Seq<char>>, m: Seq<char>, target: Option<int>)
    requires
        target matches Some(t) ==> t >= 0,
    ensures
        without(reordered(ids, Some(m), target), m) == without(ids, m),
        reordered(ids, Some(m), target).len() == without(ids, m).len() + 1,
        reordered(ids, Some(m), target)[match target {
            Some(t) => if t < without(ids, m).len() {
                t
            } else {
                without(ids, m).len() as int
            },
            None => without(ids, m).len() as int,
        }] == m,
{
    let rest = without(ids, m);
    lemma_without_absent(ids, m);
    let at = match target {
        Some(t) => if t < rest.len() {
            t
        } else {
            rest.len() as int
        },
        None => rest.len() as int,
    };
    lemma_without_insert(rest, at, m);
}

} // verus!

verus! {

/// A new category named `name` under `parent_id` at position `sort_index`,
/// with a random version 4 UUID as id (only its form is stated) and no
/// color or icon.
pub fn new_category(name: String, parent_id: Option<String>, sort_index: i64) -> (r: Category)
    ensures
        r.name == name,
        r.parent_id == parent_id,
        r.sort_index == sort_index,
        r.color is None,
        r.icon_hex is None,
        is_v4_uuid_text(r.id@),
{
    Category { id: random_uuid(), name, parent_id, sort_index, color: None, icon_hex: None }
}


/// Renumbering a group of siblings with no moving category (after a
/// deletion) keeps their current order, whatever target position is given.
pub proof fn lemma_renumber_keeps_order(ids: Seq<Seq<char>>, target: Option<int>)
    ensures
        reordered(ids, None, target) == ids,
        forall|i: int| 0 <= i < ids.len() ==> #[trigger] reordered(ids, None, target)[i] == ids[i],
{
}


/// No two categories of `cats` share an id.
pub open spec fn ids_unique(cats: Seq<Category>) -> bool {
    forall|i: int, j: int| 0 <= i < cats.len() && 0 <= j < cats.len() && i != j ==> cats[i].id@ != cats[j].id@
}

/// The number of siblings among the first `n` of `sibs` that come before
/// sibling `k` when sorted by `sort_index` (ties keep their order).
pub open spec fn count_before(sibs: Seq<Category>, k: int, n: int) -> nat
    decreases n,
{
    if n <= 0 {
        0
    } else if sibs[n - 1].sort_index < sibs[k].sort_index || (sibs[n - 1].sort_index == sibs[k].sort_index && n
        - 1 < k) {
        count_before(sibs, k, n - 1) + 1
    } else {
        count_before(sibs, k, n - 1)
    }
}

proof fn lemma_count_is_rank(sibs: Seq<Category>, k: int, n: int)
    requires
        0 <= k < sibs.len(),
        0 <= n <= sibs.len(),
    ensures
        count_before(sibs, k, n) == rank_upto(index_keys(sibs), k, n),
    decreases n,
{
    if n > 0 {
        lemma_count_is_rank(sibs, k, n - 1);
        let keys = index_keys(sibs);
        assert(keys[n - 1] == (None::<Seq<char>>, sibs[n - 1].sort_index, Seq::<char>::empty()));
        assert(keys[k] == (None::<Seq<char>>, sibs[k].sort_index, Seq::<char>::empty()));
        assert(!text_lt(Seq::<char>::empty(), Seq::<char>::empty()));
    }
}

proof fn lemma_siblings_from(cats: Seq<Category>, par: Option<Seq<char>>)
    ensures
        forall|x: int| 0 <= x < siblings(cats, par).len() ==> exists|i: int|
            0 <= i < cats.len() && cats[i] == #[trigger] siblings(cats, par)[x],
        forall|x: int| 0 <= x < siblings(cats, par).len() ==> opt_view((#[trigger] siblings(cats, par)[x]).parent_id) == par,
        forall|i: int| 0 <= i < cats.len() && opt_view((#[trigger] cats[i]).parent_id) == par ==> exists|x: int|
            0 <= x < siblings(cats, par).len() && siblings(cats, par)[x] == cats[i],
        ids_unique(cats) ==> ids_unique(siblings(cats, par)),
    decreases cats.len(),
{
    if cats.len() > 0 {
        let d = cats.drop_last();
        lemma_siblings_from(d, par);
        let sd = siblings(d, par);
        let sc = siblings(cats, par);
        let n1 = cats.len() - 1;
        assert(cats[n1] == cats.last());
        assert forall|x: int| 0 <= x < sd.len() implies #[trigger] sc[x] == sd[x] by {}
        assert forall|x: int| 0 <= x < sc.len() implies exists|i: int| 0 <= i < cats.len() && cats[i] == #[trigger] sc[x] by {
            if x < sd.len() {
                let i = choose|i: int| 0 <= i < d.len() && d[i] == sd[x];
                assert(cats[i] == d[i]);
            } else {
                assert(sc[x] == cats[n1]);
            }
        }
        assert forall|i: int| 0 <= i < cats.len() && opt_view((#[trigger] cats[i]).parent_id) == par implies exists|x: int|
            0 <= x < sc.len() && sc[x] == cats[i] by {
            if i < n1 {
                assert(d[i] == cats[i]);
                let x = choose|x: int| 0 <= x < sd.len() && sd[x] == d[i];
                assert(sc[x] == sd[x]);
            } else {
                assert(sc[sc.len() - 1] == cats[i]);
            }
        }
        if ids_unique(cats) {
            assert forall|i: int, j: int| 0 <= i < d.len() && 0 <= j < d.len() && i != j implies d[i].id@ != d[j].id@ by {
                assert(d[i] == cats[i] && d[j] == cats[j]);
            }
            assert forall|x: int, y: int| 0 <= x < sc.len() && 0 <= y < sc.len() && x != y implies sc[x].id@ != sc[y].id@ by {
                if x < sd.len() && y < sd.len() {
                } else if x < sd.len() {
                    let i = choose|i: int| 0 <= i < d.len() && d[i] == sd[x];
                    assert(cats[i] == d[i]);
                    assert(sc[y] == cats[n1]);
                } else {
                    let i = choose|i: int| 0 <= i < d.len() && d[i] == sd[y];
                    assert(cats[i] == d[i]);
                    assert(sc[x] == cats[n1]);
                }
            }
        }
    }
}

/// Where a category dropped among the siblings of its own parent goes: its
/// position among them sorted by `sort_index` is `count_before`; when that is
/// before the requested position, the request counts it and is one less; a
/// drop under another parent keeps the requested position. This holds for
/// the root (parent `None`) as for any category.
pub proof fn lemma_move_target_position(cats: Seq<Category>, id: Seq<char>, parent: Option<Seq<char>>, index: int)
    requires
        first_with_id(cats, id) is Some,
        ids_unique(cats),
    ensures
        ({
            let m = cats[first_with_id(cats, id)->0];
            let sibs = siblings(cats, opt_view(m.parent_id));
            &&& parent != opt_view(m.parent_id) ==> move_target_index(cats, id, parent, index) == index
            &&& parent == opt_view(m.parent_id) ==> exists|k: int| {
                &&& 0 <= k < sibs.len()
                &&& #[trigger] sibs[k] == m
                &&& move_target_index(cats, id, parent, index) == if count_before(sibs, k, sibs.len() as int) < index {
                    index - 1
                } else {
                    index
                }
            }
        }),
{
    let mi = first_with_id(cats, id)->0;
    assert(is_first_with_id(cats, id, mi));
    let m = cats[mi];
    let par = opt_view(m.parent_id);
    let sibs = siblings(cats, par);
    if parent == par {
        lemma_siblings_from(cats, par);
        let k = choose|x: int| 0 <= x < sibs.len() && sibs[x] == cats[mi];
        let keys = index_keys(sibs);
        let sorted = stable_sorted(sibs, keys);
        crate::order::lemma_stable_sorted_at(sibs, keys, k);
        let r = rank(keys, k) as int;
        assert forall|q: int| 0 <= q < r implies sorted[q].id@ != id by {
            crate::order::lemma_rank_onto(keys, q);
            let c = choose|c: int| 0 <= c < keys.len() && rank(keys, c) == q;
            crate::order::lemma_stable_sorted_at(sibs, keys, c);
            assert(sorted[q] == sibs[c]);
            assert(c != k);
        }
        assert(sorted[r].id@ == id);
        assert(is_first_with_id(sorted, id, r));
        lemma_first_unique(sorted, id, r);
        lemma_count_is_rank(sibs, k, sibs.len() as int);
    }
}

} // verus!
