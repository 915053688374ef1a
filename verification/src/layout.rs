//! The layout of mods in the category tree: the snapshot shown to the user,
//! the renumbering done by drag and drop, and switching a mod on or off by
//! renaming `mod.jar` to `mod.jar.disabled` and back.
use vstd::prelude::*;
use crate::domain::{
    clone_opt, opt_text_eq, opt_view, AppError, Category, ModArtifact, ModDescriptor, ModEntryDto,
    PackagedModDto, WorkspaceSnapshot,
};
use crate::order::{opt_text_lt, text_lt, key_lt, lemma_rank_follows_order, key_views, place_by_rank, rank, stable_ranks, KeyView, SortKey, lemma_stable_sorted_at};
use crate::outside::{to_lowercase, unicode_lowercase};
use crate::text::{chars_of, concat, ends_with, owned, string_of, strip_suffix, text_ends_with, prefix_of};
use crate::domain::texts;

verus! {

broadcast use vstd::string::group_string_axioms;

/// A layout row: the layout key of a mod, its category and its index in it.
pub type LayoutRow = (String, Option<String>, i64);

/// The view of a layout row.
pub type LayoutView = (Seq<char>, Option<Seq<char>>, i64);

/// The views of layout rows.
pub open spec fn layout_views(rows: Seq<LayoutRow>) -> Seq<LayoutView> {
    Seq::new(rows.len(), |i: int| (rows[i].0@, opt_view(rows[i].1), rows[i].2))
}

/// The index given to a mod that has no layout yet: after every placed mod.
pub open spec fn unplaced_index() -> i64 {
    2305843009213693951i64
}

/// The first position of `rows` whose key is `key`.
pub open spec fn first_row(rows: Seq<LayoutRow>, key: Seq<char>) -> Option<int> {
    if exists|i: int| 0 <= i < rows.len() && rows[i].0@ == key && forall|j: int| 0 <= j < i ==> rows[j].0@ != key {
        Some(choose|i: int| 0 <= i < rows.len() && rows[i].0@ == key && forall|j: int| 0 <= j < i ==> rows[j].0@ != key)
    } else {
        None
    }
}

/// The category and index of artifact `k`: those of its layout row, unless an
/// earlier artifact has the same layout key (it took the row) or there is no
/// row; then root and `unplaced_index()`.
pub open spec fn layout_of(arts: Seq<ModArtifact>, rows: Seq<LayoutRow>, k: int) -> (Option<Seq<char>>, i64) {
    let key = arts[k].layout_key@;
    if exists|j: int| 0 <= j < k && arts[j].layout_key@ == key {
        (None, unplaced_index())
    } else {
        match first_row(rows, key) {
            Some(i) => (opt_view(rows[i].1), rows[i].2),
            None => (None, unplaced_index()),
        }
    }
}

/// The display key of artifact `k`: category, index, lower-case name.
pub open spec fn display_keys(arts: Seq<ModArtifact>, rows: Seq<LayoutRow>) -> Seq<KeyView> {
    Seq::new(
        arts.len(),
        |k: int|
            (layout_of(arts, rows, k).0, layout_of(arts, rows, k).1, unicode_lowercase(arts[k].descriptor.name@)),
    )
}

/// `p` shows descriptor `d`.
pub open spec fn packaged_shows(p: PackagedModDto, d: ModDescriptor) -> bool {
    p.mod_id == d.mod_id && p.name == d.name && p.version == d.version && p.loader == d.loader
}

/// `e` shows artifact `a` placed in category `cat` at index `idx`.
pub open spec fn entry_shows(e: ModEntryDto, a: ModArtifact, cat: Option<Seq<char>>, idx: i64) -> bool {
    &&& e.id == a.id
    &&& e.layout_key == a.layout_key
    &&& e.mod_id == a.descriptor.mod_id
    &&& e.name == a.descriptor.name
    &&& e.version == a.descriptor.version
    &&& e.loader == a.descriptor.loader
    &&& e.enabled == a.enabled
    &&& e.file_name == a.file_name
    &&& e.path == a.path
    &&& e.icon_data_url == a.icon_data_url
    &&& e.packaged_mods@.len() == a.packaged_mods@.len()
    &&& forall|i: int| 0 <= i < e.packaged_mods@.len() ==> packaged_shows(#[trigger] e.packaged_mods@[i], a.packaged_mods@[i])
    &&& opt_view(e.category_id) == cat
    &&& e.sort_index == idx
}

/// `mods` shows every artifact, with its layout, at its rank in the display order.
pub open spec fn shows_sorted(mods: Seq<ModEntryDto>, arts: Seq<ModArtifact>, rows: Seq<LayoutRow>) -> bool {
    &&& mods.len() == arts.len()
    &&& forall|k: int|
        #![trigger rank(display_keys(arts, rows), k)]
        0 <= k < arts.len() ==> {
            &&& rank(display_keys(arts, rows), k) < arts.len()
            &&& entry_shows(
                mods[rank(display_keys(arts, rows), k) as int],
                arts[k],
                layout_of(arts, rows, k).0,
                layout_of(arts, rows, k).1,
            )
        }
}

/// The position of the first layout row with key `key`.
fn find_row(rows: &Vec<LayoutRow>, key: &String) -> (r: Option<usize>)
    ensures
        r matches Some(i) ==> first_row(rows@, key@) == Some(i as int) && i < rows@.len(),
        r is None ==> first_row(rows@, key@) is None,
{
    let mut i: usize = 0;
    while i < rows.len()
        invariant
            i <= rows.len(),
            forall|j: int| 0 <= j < i ==> rows@[j].0@ != key@,
        decreases rows.len() - i,
    {
        if rows[i].0.eq(key) {
            let ghost c = choose|c: int| 0 <= c < rows@.len() && rows@[c].0@ == key@ && forall|j: int| 0 <= j < c ==> rows@[j].0@ != key@;
            proof {
                if c < i {
                    assert(rows@[c].0@ == key@);
                } else if c > i {
                    assert(rows@[i as int].0@ == key@);
                }
            }
            return Some(i);
        }
        i = i + 1;
    }
    None
}

/// The category and index of artifact `k`.
fn layout_at(arts: &Vec<ModArtifact>, rows: &Vec<LayoutRow>, k: usize) -> (r: (Option<String>, i64))
    requires
        k < arts.len(),
    ensures
        (opt_view(r.0), r.1) == layout_of(arts@, rows@, k as int),
{
    let key = &arts[k].layout_key;
    let mut j: usize = 0;
    while j < k
        invariant
            k < arts.len(),
            key == arts@[k as int].layout_key,
            j <= k,
            forall|x: int| 0 <= x < j ==> arts@[x].layout_key@ != key@,
        decreases k - j,
    {
        if arts[j].layout_key.eq(key) {
            return (None, i64::MAX / 4);
        }
        j = j + 1;
    }
    assert(!(exists|x: int| 0 <= x < k && arts@[x].layout_key@ == arts@[k as int].layout_key@));
    match find_row(rows, key) {
        Some(i) => {
            let r = (clone_opt(&rows[i].1), rows[i].2);
            assert(first_row(rows@, arts@[k as int].layout_key@) == Some(i as int));
            assert((opt_view(r.0), r.1) == (opt_view(rows@[i as int].1), rows@[i as int].2));
            r
        },
        None => {
            let r: (Option<String>, i64) = (None, i64::MAX / 4);
            assert(r.1 == unplaced_index());
            r
        },
    }
}

/// The packaged mods of an artifact as the user interface shows them.
fn packaged_entries(ds: &Vec<ModDescriptor>) -> (r: Vec<PackagedModDto>)
    ensures
        r@.len() == ds@.len(),
        forall|i: int| 0 <= i < r@.len() ==> packaged_shows(#[trigger] r@[i], ds@[i]),
{
    let mut r: Vec<PackagedModDto> = Vec::new();
    let mut i: usize = 0;
    while i < ds.len()
        invariant
            i <= ds.len(),
            r@.len() == i,
            forall|x: int| 0 <= x < i ==> packaged_shows(#[trigger] r@[x], ds@[x]),
        decreases ds.len() - i,
    {
        let d = &ds[i];
        r.push(PackagedModDto {
            mod_id: d.mod_id.clone(),
            name: d.name.clone(),
            version: d.version.clone(),
            loader: d.loader,
        });
        i = i + 1;
    }
    r
}

/// The snapshot shown to the user: the mods folder, the categories as given,
/// and, when a folder is chosen, every artifact with its layout, sorted
/// stably by category (root first), index, and lower-case name.
pub fn build_snapshot(
    mods_dir: Option<String>,
    categories: Vec<Category>,
    artifacts: &Vec<ModArtifact>,
    layouts: &Vec<LayoutRow>,
) -> (r: WorkspaceSnapshot)
    ensures
        r.mods_dir == mods_dir,
        r.categories == categories,
        mods_dir is None ==> r.mods@.len() == 0,
        mods_dir is Some ==> r.mods@.len() == artifacts@.len(),
        mods_dir is Some ==> shows_sorted(r.mods@, artifacts@, layouts@),
{
    if mods_dir.is_none() {
        return WorkspaceSnapshot { mods_dir, categories, mods: Vec::new() };
    }
    let ghost arts = artifacts@;
    let ghost keys_v = display_keys(artifacts@, layouts@);
    let n = artifacts.len();
    let mut entries: Vec<ModEntryDto> = Vec::new();
    let mut keys: Vec<SortKey> = Vec::new();
    let mut k: usize = 0;
    while k < n
        invariant
            n == artifacts.len(),
            arts == artifacts@,
            keys_v == display_keys(artifacts@, layouts@),
            k <= n,
            entries@.len() == k,
            keys@.len() == k,
            forall|x: int| 0 <= x < k ==> entry_shows(#[trigger] entries@[x], arts[x], layout_of(arts, layouts@, x).0, layout_of(arts, layouts@, x).1),
            forall|x: int| 0 <= x < k ==> #[trigger] keys@[x].view_key() == keys_v[x],
        decreases n - k,
    {
        let a = &artifacts[k];
        let (category_id, sort_index) = layout_at(artifacts, layouts, k);
        let lower = to_lowercase(a.descriptor.name.as_str());
        let key = SortKey {
            group: match &category_id {
                Some(c) => Some(chars_of(c.as_str())),
                None => None,
            },
            index: sort_index,
            name: chars_of(lower.as_str()),
        };
        entries.push(ModEntryDto {
            id: a.id.clone(),
            layout_key: a.layout_key.clone(),
            mod_id: a.descriptor.mod_id.clone(),
            name: a.descriptor.name.clone(),
            version: a.descriptor.version.clone(),
            loader: a.descriptor.loader,
            enabled: a.enabled,
            file_name: a.file_name.clone(),
            path: a.path.clone(),
            icon_data_url: clone_opt(&a.icon_data_url),
            packaged_mods: packaged_entries(&a.packaged_mods),
            category_id,
            sort_index,
        });
        keys.push(key);
        proof {
            assert(keys@[k as int].view_key() =~= keys_v[k as int]);
        }
        k = k + 1;
    }
    assert(key_views(keys@) =~= keys_v);
    let ranks = stable_ranks(&keys);
    let ghost unsorted = entries@;
    let mods = place_by_rank(entries, &ranks, Ghost(keys_v));
    proof {
        assert(keys_v == display_keys(artifacts@, layouts@));
        assert(mods@.len() == n);
        assert forall|x: int|
            #![trigger rank(display_keys(artifacts@, layouts@), x)]
            0 <= x < artifacts@.len() implies {
            &&& rank(display_keys(artifacts@, layouts@), x) < artifacts@.len()
            &&& entry_shows(
                mods@[rank(display_keys(artifacts@, layouts@), x) as int],
                artifacts@[x],
                layout_of(artifacts@, layouts@, x).0,
                layout_of(artifacts@, layouts@, x).1,
            )
        } by {
            lemma_stable_sorted_at(unsorted, keys_v, x);
            assert(mods@[rank(keys_v, x) as int] == unsorted[x]);
        }
        assert(shows_sorted(mods@, artifacts@, layouts@));
    }
    WorkspaceSnapshot { mods_dir, categories, mods }
}

} // verus!

verus! {

/// The first position of `mods` that holds the mod with id `id`.
pub open spec fn first_mod(mods: Seq<ModEntryDto>, id: Seq<char>) -> Option<int> {
    if exists|i: int| 0 <= i < mods.len() && mods[i].id@ == id && forall|j: int| 0 <= j < i ==> mods[j].id@ != id {
        Some(choose|i: int| 0 <= i < mods.len() && mods[i].id@ == id && forall|j: int| 0 <= j < i ==> mods[j].id@ != id)
    } else {
        None
    }
}

/// The layout keys of the mods of category `cat`, other than mod `skip`, in order.
pub open spec fn group_keys(mods: Seq<ModEntryDto>, cat: Option<Seq<char>>, skip: Seq<char>) -> Seq<Seq<char>>
    decreases mods.len(),
{
    if mods.len() == 0 {
        Seq::empty()
    } else {
        let prev = group_keys(mods.drop_last(), cat, skip);
        let m = mods.last();
        if opt_view(m.category_id) == cat && m.id@ != skip {
            prev.push(m.layout_key@)
        } else {
            prev
        }
    }
}

/// The number of mods of category `cat` in `mods`.
pub open spec fn group_count(mods: Seq<ModEntryDto>, cat: Option<Seq<char>>) -> nat
    decreases mods.len(),
{
    if mods.len() == 0 {
        0
    } else if opt_view(mods.last().category_id) == cat {
        group_count(mods.drop_last(), cat) + 1
    } else {
        group_count(mods.drop_last(), cat)
    }
}

/// Layout rows for `keys` in category `cat`, numbered from 0.
pub open spec fn numbered(keys: Seq<Seq<char>>, cat: Option<Seq<char>>) -> Seq<LayoutView> {
    Seq::new(keys.len(), |i: int| (keys[i], cat, i as i64))
}

/// `keys` with `x` put at position `at`, or at the end when `at` is past it.
pub open spec fn insert_clamped(keys: Seq<Seq<char>>, at: int, x: Seq<char>) -> Seq<Seq<char>> {
    keys.insert(if at < keys.len() { at } else { keys.len() as int }, x)
}

/// The layout rows written when mod `id` is dropped into category `target`
/// at position `index` of the displayed list. Its position in its own
/// category is the number of mods of that category shown before it; when it
/// moves down within its category, `index` counts it no more. The target
/// category is renumbered with the mod at its new place; a category it
/// leaves is renumbered without it.
pub open spec fn moved_layout(mods: Seq<ModEntryDto>, id: Seq<char>, target: Option<Seq<char>>, index: int) -> Seq<LayoutView> {
    let mi = first_mod(mods, id)->0;
    let m = mods[mi];
    let old = opt_view(m.category_id);
    let old_pos = group_count(mods.take(mi), old);
    let adjusted = if old == target && old_pos < index { index - 1 } else { index };
    let placed = numbered(insert_clamped(group_keys(mods, target, id), adjusted, m.layout_key@), target);
    if old == target {
        placed
    } else {
        numbered(group_keys(mods, old, id), old) + placed
    }
}

/// The position of the first mod with id `id`.
pub fn find_mod(mods: &Vec<ModEntryDto>, id: &str) -> (r: Option<usize>)
    ensures
        r matches Some(i) ==> first_mod(mods@, id@) == Some(i as int) && i < mods@.len(),
        r is None ==> first_mod(mods@, id@) is None,
{
    let key = owned(id);
    let mut i: usize = 0;
    while i < mods.len()
        invariant
            key@ == id@,
            i <= mods.len(),
            forall|j: int| 0 <= j < i ==> mods@[j].id@ != id@,
        decreases mods.len() - i,
    {
        if mods[i].id == key {
            let ghost c = choose|c: int| 0 <= c < mods@.len() && mods@[c].id@ == id@ && forall|j: int| 0 <= j < c ==> mods@[j].id@ != id@;
            proof {
                if c < i {
                    assert(mods@[c].id@ == id@);
                } else if c > i {
                    assert(mods@[i as int].id@ == id@);
                }
            }
            return Some(i);
        }
        i = i + 1;
    }
    None
}

/// The layout keys of the mods of category `cat`, other than mod `skip`, in order.
fn keys_in_group(mods: &Vec<ModEntryDto>, cat: &Option<String>, skip: &String) -> (r: Vec<String>)
    ensures
        texts(r@) == group_keys(mods@, opt_view(*cat), skip@),
{
    let mut r: Vec<String> = Vec::new();
    let mut i: usize = 0;
    while i < mods.len()
        invariant
            i <= mods.len(),
            texts(r@) == group_keys(mods@.take(i as int), opt_view(*cat), skip@),
        decreases mods.len() - i,
    {
        assert(mods@.take(i as int + 1).drop_last() =~= mods@.take(i as int));
        let m = &mods[i];
        if opt_text_eq(&m.category_id, cat) && !m.id.eq(skip) {
            r.push(m.layout_key.clone());
            assert(texts(r@) =~= group_keys(mods@.take(i as int), opt_view(*cat), skip@).push(m.layout_key@));
        }
        i = i + 1;
    }
    assert(mods@.take(mods.len() as int) =~= mods@);
    r
}

/// Appends rows for `keys` in category `cat`, numbered from 0.
fn push_numbered(out: &mut Vec<LayoutRow>, keys: Vec<String>, cat: &Option<String>)
    ensures
        layout_views(final(out)@) == layout_views(old(out)@) + numbered(texts(keys@), opt_view(*cat)),
{
    let ghost start = layout_views(out@);
    let mut i: usize = 0;
    while i < keys.len()
        invariant
            i <= keys.len(),
            layout_views(out@) == start + numbered(texts(keys@.take(i as int)), opt_view(*cat)),
        decreases keys.len() - i,
    {
        let ghost prev = out@;
        let idx: i64 = #[verifier::truncate] (i as i64);
        out.push((keys[i].clone(), clone_opt(cat), idx));
        proof {
            let nk = texts(keys@.take(i as int + 1));
            assert(nk.len() == i + 1);
            assert(nk[i as int] == keys@[i as int]@);
            assert(numbered(nk, opt_view(*cat))[i as int] == (keys@[i as int]@, opt_view(*cat), idx));
            assert(texts(keys@.take(i as int + 1)).drop_last() =~= texts(keys@.take(i as int)));
            assert(numbered(texts(keys@.take(i as int + 1)), opt_view(*cat)).drop_last() =~= numbered(texts(keys@.take(i as int)), opt_view(*cat)));
            assert(layout_views(out@) =~= layout_views(prev).push((keys@[i as int]@, opt_view(*cat), idx)));
        }
        i = i + 1;
        assert(layout_views(out@) =~= start + numbered(texts(keys@.take(i as int)), opt_view(*cat)));
    }
    assert(keys@.take(keys.len() as int) =~= keys@);
}

/// The layout rows to write when the user drops mod `id` into category
/// `category_id` at position `index`, given the mods as displayed. Refused
/// when no mod has that id.
pub fn mod_layout_updates(
    mods: &Vec<ModEntryDto>,
    id: &str,
    category_id: &Option<String>,
    index: usize,
) -> (r: Result<Vec<LayoutRow>, AppError>)
    ensures
        first_mod(mods@, id@) is None ==> (r matches Err(AppError::MissingMod(s)) && s@ == id@),
        first_mod(mods@, id@) is Some ==> (r matches Ok(rows) && layout_views(rows@) == moved_layout(
            mods@,
            id@,
            opt_view(*category_id),
            index as int,
        )),
{
    let mi = match find_mod(mods, id) {
        Some(i) => i,
        None => {
            return Err(AppError::MissingMod(owned(id)));
        },
    };
    let moving = &mods[mi];
    let old_category = clone_opt(&moving.category_id);
    let mut old_pos: usize = 0;
    let mut j: usize = 0;
    while j < mi
        invariant
            mi < mods.len(),
            j <= mi,
            old_pos <= j,
            old_pos == group_count(mods@.take(j as int), opt_view(old_category)),
        decreases mi - j,
    {
        assert(mods@.take(j as int + 1).drop_last() =~= mods@.take(j as int));
        if opt_text_eq(&mods[j].category_id, &old_category) {
            old_pos = old_pos + 1;
        }
        j = j + 1;
    }
    let same = opt_text_eq(&old_category, category_id);
    let adjusted = if same && old_pos < index {
        index - 1
    } else {
        index
    };
    let mut updates: Vec<LayoutRow> = Vec::new();
    if !same {
        let old_keys = keys_in_group(mods, &old_category, &moving.id);
        push_numbered(&mut updates, old_keys, &old_category);
    }
    let mut target_keys = keys_in_group(mods, category_id, &moving.id);
    let len = target_keys.len();
    let at = if adjusted < len {
        adjusted
    } else {
        len
    };
    target_keys.insert(at, moving.layout_key.clone());
    assert(texts(target_keys@) =~= insert_clamped(
        group_keys(mods@, opt_view(*category_id), id@),
        adjusted as int,
        moving.layout_key@,
    ));
    push_numbered(&mut updates, target_keys, category_id);
    assert(layout_views(updates@) =~= moved_layout(mods@, id@, opt_view(*category_id), index as int));
    Ok(updates)
}

/// The suffix of a disabled mod file.
pub open spec fn disabled_suffix() -> Seq<char> {
    seq!['.', 'd', 'i', 's', 'a', 'b', 'l', 'e', 'd']
}

/// The suffix of a mod file.
pub open spec fn jar_suffix() -> Seq<char> {
    seq!['.', 'j', 'a', 'r']
}

/// The suffix of a disabled mod file, as characters.
pub fn disabled_chars() -> (r: Vec<char>)
    ensures
        r@ == disabled_suffix(),
{
    let r = vec!['.', 'd', 'i', 's', 'a', 'b', 'l', 'e', 'd'];
    assert(r@ =~= disabled_suffix());
    r
}

/// The suffix of a mod file, as characters.
pub fn jar_chars() -> (r: Vec<char>)
    ensures
        r@ == jar_suffix(),
{
    let r = vec!['.', 'j', 'a', 'r'];
    assert(r@ =~= jar_suffix());
    r
}

/// The path a mod file gets when switched on or off: switching on takes
/// `.disabled` off the end; switching off appends it to a path ending in
/// `.jar`; any other path stays.
pub open spec fn toggled(p: Seq<char>, enabled: bool) -> Seq<char> {
    if enabled {
        match strip_suffix(p, disabled_suffix()) {
            Some(s) => s,
            None => p,
        }
    } else if ends_with(p, jar_suffix()) {
        p + disabled_suffix()
    } else {
        p
    }
}

/// The path a mod file gets when switched on (`enabled`) or off.
pub fn toggled_path(current: &str, enabled: bool) -> (r: String)
    ensures
        r@ == toggled(current@, enabled),
{
    let s = chars_of(current);
    let disabled = disabled_chars();
    if enabled {
        if text_ends_with(s.as_slice(), disabled.as_slice()) {
            let stripped = prefix_of(s.as_slice(), s.len() - disabled.len());
            string_of(stripped.as_slice())
        } else {
            string_of(s.as_slice())
        }
    } else if text_ends_with(s.as_slice(), jar_chars().as_slice()) {
        let with = concat(s.as_slice(), disabled.as_slice());
        string_of(with.as_slice())
    } else {
        string_of(s.as_slice())
    }
}

/// The current path and the new path of mod `id` when it is switched on
/// (`enabled`) or off. Refused when no mod has that id.
pub fn mod_toggle_paths(mods: &Vec<ModEntryDto>, id: &str, enabled: bool) -> (r: Result<(String, String), AppError>)
    ensures
        first_mod(mods@, id@) is None ==> (r matches Err(AppError::MissingMod(s)) && s@ == id@),
        first_mod(mods@, id@) is Some ==> (r matches Ok((current, target)) && current@ == mods@[first_mod(mods@, id@)->0].path@
            && target@ == toggled(current@, enabled)),
{
    match find_mod(mods, id) {
        None => Err(AppError::MissingMod(owned(id))),
        Some(i) => {
            let current = mods[i].path.clone();
            let target = toggled_path(current.as_str(), enabled);
            Ok((current, target))
        },
    }
}

/// The first position of `arts` that holds the artifact with id `id`.
pub open spec fn first_artifact(arts: Seq<ModArtifact>, id: Seq<char>) -> Option<int> {
    if exists|i: int| 0 <= i < arts.len() && arts[i].id@ == id && forall|j: int| 0 <= j < i ==> arts[j].id@ != id {
        Some(choose|i: int| 0 <= i < arts.len() && arts[i].id@ == id && forall|j: int| 0 <= j < i ==> arts[j].id@ != id)
    } else {
        None
    }
}

/// `a` with its file at `target`, its file name replaced when one is given,
/// and switched on or off.
fn with_toggle(a: ModArtifact, target: String, target_file_name: Option<String>, enabled: bool) -> (r: ModArtifact)
    ensures
        r.path == target,
        r.file_name == (match target_file_name {
            Some(f) => f,
            None => a.file_name,
        }),
        r.enabled == enabled,
        r.id == a.id,
        r.layout_key == a.layout_key,
        r.descriptor == a.descriptor,
        r.packaged_mods == a.packaged_mods,
        r.icon_data_url == a.icon_data_url,
{
    let file_name = match target_file_name {
        Some(f) => f,
        None => a.file_name,
    };
    ModArtifact {
        id: a.id,
        layout_key: a.layout_key,
        descriptor: a.descriptor,
        packaged_mods: a.packaged_mods,
        enabled,
        file_name,
        path: target,
        icon_data_url: a.icon_data_url,
    }
}

/// Records that the file of artifact `id` now lies at `target` (with file
/// name `target_file_name`, when it has one) and is switched on or off.
pub fn record_toggle(
    artifacts: &mut Vec<ModArtifact>,
    id: &str,
    target: String,
    target_file_name: Option<String>,
    enabled: bool,
)
    ensures
        final(artifacts)@.len() == old(artifacts)@.len(),
        first_artifact(old(artifacts)@, id@) is None ==> final(artifacts)@ == old(artifacts)@,
        first_artifact(old(artifacts)@, id@) matches Some(i) ==> {
            &&& forall|j: int| 0 <= j < old(artifacts)@.len() && j != i ==> final(artifacts)@[j] == old(artifacts)@[j]
            &&& final(artifacts)@[i].path == target
            &&& final(artifacts)@[i].file_name == (match target_file_name {
                Some(f) => f,
                None => old(artifacts)@[i].file_name,
            })
            &&& final(artifacts)@[i].enabled == enabled
            &&& final(artifacts)@[i].id == old(artifacts)@[i].id
            &&& final(artifacts)@[i].layout_key == old(artifacts)@[i].layout_key
            &&& final(artifacts)@[i].descriptor == old(artifacts)@[i].descriptor
            &&& final(artifacts)@[i].packaged_mods == old(artifacts)@[i].packaged_mods
            &&& final(artifacts)@[i].icon_data_url == old(artifacts)@[i].icon_data_url
        },
{
    match find_artifact(artifacts, id) {
        None => {},
        Some(i) => {
            let ghost before = artifacts@;
            let a = artifacts.remove(i);
            let changed = with_toggle(a, target, target_file_name, enabled);
            let ghost ch = changed;
            artifacts.insert(i, changed);
            proof {
                assert(artifacts@ =~= before.update(i as int, ch));
            }
        },
    }
}

/// The position of the first artifact with id `id`.
pub fn find_artifact(artifacts: &Vec<ModArtifact>, id: &str) -> (r: Option<usize>)
    ensures
        r matches Some(i) ==> first_artifact(artifacts@, id@) == Some(i as int) && i < artifacts@.len(),
        r is None ==> first_artifact(artifacts@, id@) is None,
{
    let key = owned(id);
    let mut i: usize = 0;
    while i < artifacts.len()
        invariant
            key@ == id@,
            i <= artifacts.len(),
            forall|j: int| 0 <= j < i ==> artifacts@[j].id@ != id@,
        decreases artifacts.len() - i,
    {
        if artifacts[i].id == key {
            let ghost c = choose|c: int| 0 <= c < artifacts@.len() && artifacts@[c].id@ == id@ && forall|j: int| 0 <= j < c ==> artifacts@[j].id@ != id@;
            proof {
                if c < i {
                    assert(artifacts@[c].id@ == id@);
                } else if c > i {
                    assert(artifacts@[i as int].id@ == id@);
                }
            }
            return Some(i);
        }
        i = i + 1;
    }
    None
}

} // verus!

verus! {

/// Switching a mod file off and then on again gives back its path.
pub proof fn lemma_toggle_off_on(p: Seq<char>)
    requires
        ends_with(p, jar_suffix()),
    ensures
        toggled(toggled(p, false), true) == p,
{
    let q = p + disabled_suffix();
    assert(q.subrange(q.len() - disabled_suffix().len(), q.len() as int) =~= disabled_suffix());
    assert(q.subrange(0, q.len() - disabled_suffix().len()) =~= p);
}

/// Switching a disabled mod file on and then off again gives back its path.
pub proof fn lemma_toggle_on_off(p: Seq<char>)
    requires
        ends_with(p, jar_suffix() + disabled_suffix()),
    ensures
        toggled(toggled(p, true), false) == p,
{
    let n = p.len();
    let d = disabled_suffix();
    let jd = jar_suffix() + d;
    assert(p.subrange(n - jd.len(), n as int) == jd);
    assert(p.subrange(n - d.len(), n as int) =~= jd.subrange(4, 13));
    assert(jd.subrange(4, 13) =~= d);
    let q = p.subrange(0, n - d.len());
    assert(q.subrange(q.len() - 4, q.len() as int) =~= jd.subrange(0, 4));
    assert(jd.subrange(0, 4) =~= jar_suffix());
    assert(q + d =~= p);
}

/// Switching a mod that is already in the requested state leaves its path.
pub proof fn lemma_toggle_settled(p: Seq<char>)
    requires
        ends_with(p, jar_suffix()),
    ensures
        toggled(p, true) == p,
{
    let d = disabled_suffix();
    if ends_with(p, d) {
        assert(p.subrange(p.len() - 4, p.len() as int)[3] == p[p.len() - 1]);
        assert(p.subrange(p.len() - 9, p.len() as int)[8] == p[p.len() - 1]);
    }
}

} // verus!

verus! {

/// The snapshot lists mods in display order: a mod whose key (category,
/// index, lower-case name) is smaller comes first, and mods with equal keys
/// keep the order in which the folder was scanned.
pub proof fn lemma_display_order(arts: Seq<ModArtifact>, rows: Seq<LayoutRow>, i: int, j: int)
    requires
        0 <= i < arts.len(),
        0 <= j < arts.len(),
        key_lt(display_keys(arts, rows)[i], display_keys(arts, rows)[j]) || (display_keys(arts, rows)[i]
            == display_keys(arts, rows)[j] && i < j),
    ensures
        rank(display_keys(arts, rows), i) < rank(display_keys(arts, rows), j),
{
    lemma_rank_follows_order(display_keys(arts, rows), i, j);
}

} // verus!

verus! {

/// The last rows of a drop are the target category, numbered.
proof fn lemma_moved_layout_tail(mods: Seq<ModEntryDto>, id: Seq<char>, target: Option<Seq<char>>, index: int)
    requires
        first_mod(mods, id) is Some,
        0 <= index,
    ensures
        ({
            let m = mods[first_mod(mods, id)->0];
            let others = group_keys(mods, target, id);
            let old_pos = group_count(mods.take(first_mod(mods, id)->0), opt_view(m.category_id));
            let adjusted = if opt_view(m.category_id) == target && old_pos < index { index - 1 } else { index };
            let rows = moved_layout(mods, id, target, index);
            &&& others.len() + 1 <= rows.len()
            &&& rows.subrange(rows.len() - (others.len() + 1), rows.len() as int) == numbered(
                insert_clamped(others, adjusted, m.layout_key@),
                target,
            )
        }),
{
    let mi = first_mod(mods, id)->0;
    let m = mods[mi];
    let others = group_keys(mods, target, id);
    let old = opt_view(m.category_id);
    let old_pos = group_count(mods.take(mi), old);
    let adjusted = if old == target && old_pos < index { index - 1 } else { index };
    lemma_insert_clamped_at(others, adjusted, m.layout_key@);
    let placed = numbered(insert_clamped(others, adjusted, m.layout_key@), target);
    let rows = moved_layout(mods, id, target, index);
    if old != target {
        assert(rows == numbered(group_keys(mods, old, id), old) + placed);
    }
    assert(rows.subrange(rows.len() - (others.len() + 1), rows.len() as int) =~= placed);
}

/// Putting `x` at a clamped position `at` and taking it out again gives back `keys`.
proof fn lemma_insert_clamped_at(keys: Seq<Seq<char>>, adjusted: int, x: Seq<char>)
    requires
        0 <= adjusted,
    ensures
        ({
            let at = if adjusted < keys.len() { adjusted } else { keys.len() as int };
            let ins = insert_clamped(keys, adjusted, x);
            &&& ins[at] == x
            &&& ins.remove(at) == keys
            &&& ins.len() == keys.len() + 1
        }),
{
    let at = if adjusted < keys.len() { adjusted } else { keys.len() as int };
    let ins = insert_clamped(keys, adjusted, x);
    assert(ins == keys.insert(at, x));
    assert(ins.remove(at) =~= keys);
}

/// The keys of numbered rows, and their category and index.
proof fn lemma_numbered_rows(keys: Seq<Seq<char>>, cat: Option<Seq<char>>)
    ensures
        Seq::new(numbered(keys, cat).len(), |i: int| numbered(keys, cat)[i].0) == keys,
        forall|i: int| 0 <= i < keys.len() ==> (#[trigger] numbered(keys, cat)[i]).1 == cat
            && numbered(keys, cat)[i].2 == i as i64,
{
    assert(Seq::new(numbered(keys, cat).len(), |i: int| numbered(keys, cat)[i].0) =~= keys);
}

/// Dropping mod `id` into category `target` at position `index` writes, as
/// the last rows, that category numbered from 0 in order: the mod stands at
/// the requested position (at the end when the position is past the last
/// mod), and the other mods of the category keep their displayed order.
pub proof fn lemma_moved_mod_placement(mods: Seq<ModEntryDto>, id: Seq<char>, target: Option<Seq<char>>, index: int)
    requires
        first_mod(mods, id) is Some,
        0 <= index,
    ensures
        ({
            let m = mods[first_mod(mods, id)->0];
            let others = group_keys(mods, target, id);
            let old_pos = group_count(mods.take(first_mod(mods, id)->0), opt_view(m.category_id));
            let adjusted = if opt_view(m.category_id) == target && old_pos < index { index - 1 } else { index };
            let at = if adjusted < others.len() { adjusted } else { others.len() as int };
            let rows = moved_layout(mods, id, target, index);
            let placed = rows.subrange(rows.len() - (others.len() + 1), rows.len() as int);
            &&& others.len() + 1 <= rows.len()
            &&& forall|i: int| 0 <= i < placed.len() ==> (#[trigger] placed[i]).1 == target && placed[i].2 == i as i64
            &&& placed[at].0 == m.layout_key@
            &&& Seq::new(placed.len(), |i: int| placed[i].0).remove(at) == others
        }),
{
    let mi = first_mod(mods, id)->0;
    let m = mods[mi];
    let others = group_keys(mods, target, id);
    let old_pos = group_count(mods.take(mi), opt_view(m.category_id));
    let adjusted = if opt_view(m.category_id) == target && old_pos < index { index - 1 } else { index };
    let ins = insert_clamped(others, adjusted, m.layout_key@);
    lemma_moved_layout_tail(mods, id, target, index);
    lemma_insert_clamped_at(others, adjusted, m.layout_key@);
    lemma_numbered_rows(ins, target);
}

} // verus!

verus! {

/// Each key of a group is the layout key of a mod of that category.
proof fn lemma_group_keys_from(mods: Seq<ModEntryDto>, cat: Option<Seq<char>>, skip: Seq<char>)
    ensures
        forall|x: int| 0 <= x < group_keys(mods, cat, skip).len() ==> exists|i: int|
            0 <= i < mods.len() && mods[i].layout_key@ == #[trigger] group_keys(mods, cat, skip)[x]
                && opt_view(mods[i].category_id) == cat,
    decreases mods.len(),
{
    if mods.len() > 0 {
        let p = mods.drop_last();
        lemma_group_keys_from(p, cat, skip);
        let g = group_keys(mods, cat, skip);
        let gp = group_keys(p, cat, skip);
        assert forall|x: int| 0 <= x < g.len() implies exists|i: int|
            0 <= i < mods.len() && mods[i].layout_key@ == #[trigger] g[x]
                && opt_view(mods[i].category_id) == cat by {
            if x < gp.len() {
                assert(g[x] == gp[x]);
                let i = choose|i: int| 0 <= i < p.len() && p[i].layout_key@ == #[trigger] gp[x]
                    && opt_view(p[i].category_id) == cat;
                assert(mods[i] == p[i]);
            } else {
                assert(g[x] == mods.last().layout_key@);
                assert(mods[mods.len() - 1] == mods.last());
            }
        }
    }
}

/// A drop writes rows only for mods of the category the mod leaves and of
/// the category it enters: the layout of every other mod stays as it was.
pub proof fn lemma_move_touches_two_categories(
    mods: Seq<ModEntryDto>,
    id: Seq<char>,
    target: Option<Seq<char>>,
    index: int,
)
    requires
        first_mod(mods, id) is Some,
        0 <= index,
    ensures
        ({
            let old = opt_view(mods[first_mod(mods, id)->0].category_id);
            let rows = moved_layout(mods, id, target, index);
            forall|r: int| 0 <= r < rows.len() ==> {
                &&& ((#[trigger] rows[r]).1 == old || rows[r].1 == target)
                &&& exists|i: int| 0 <= i < mods.len() && mods[i].layout_key@ == rows[r].0
                    && (opt_view(mods[i].category_id) == old || opt_view(mods[i].category_id) == target)
            }
        }),
{
    let mi = first_mod(mods, id)->0;
    let m = mods[mi];
    let old = opt_view(m.category_id);
    let others = group_keys(mods, target, id);
    let old_pos = group_count(mods.take(mi), old);
    let adjusted = if old == target && old_pos < index { index - 1 } else { index };
    let at = if adjusted < others.len() { adjusted } else { others.len() as int };
    let ins = insert_clamped(others, adjusted, m.layout_key@);
    assert(ins == others.insert(at, m.layout_key@));
    let placed = numbered(ins, target);
    lemma_group_keys_from(mods, target, id);
    lemma_group_keys_from(mods, old, id);
    assert forall|j: int| 0 <= j < placed.len() implies (#[trigger] placed[j]).1 == target
        && exists|i: int| 0 <= i < mods.len() && mods[i].layout_key@ == placed[j].0
            && (opt_view(mods[i].category_id) == old || opt_view(mods[i].category_id) == target) by {
        assert(placed[j].0 == ins[j]);
        if j < at {
            assert(ins[j] == others[j]);
        } else if j == at {
            assert(ins[j] == mods[mi].layout_key@);
        } else {
            assert(ins[j] == others[j - 1]);
        }
    }
    let rows = moved_layout(mods, id, target, index);
    if old == target {
        assert(rows == placed);
    } else {
        let left = numbered(group_keys(mods, old, id), old);
        assert(rows == left + placed);
        assert forall|r: int| 0 <= r < rows.len() implies ((#[trigger] rows[r]).1 == old || rows[r].1 == target)
            && exists|i: int| 0 <= i < mods.len() && mods[i].layout_key@ == rows[r].0
                && (opt_view(mods[i].category_id) == old || opt_view(mods[i].category_id) == target) by {
            if r < left.len() {
                assert(rows[r] == left[r]);
                assert(left[r].0 == group_keys(mods, old, id)[r]);
            } else {
                assert(rows[r] == placed[r - left.len()]);
            }
        }
    }
}

} // verus!

verus! {

/// Two entries show the same mod the same way: every field is equal (the
/// category by its text).
pub open spec fn same_entry(a: ModEntryDto, b: ModEntryDto) -> bool {
    &&& a.id == b.id
    &&& a.layout_key == b.layout_key
    &&& a.mod_id == b.mod_id
    &&& a.name == b.name
    &&& a.version == b.version
    &&& a.loader == b.loader
    &&& a.enabled == b.enabled
    &&& a.file_name == b.file_name
    &&& a.path == b.path
    &&& a.icon_data_url == b.icon_data_url
    &&& a.packaged_mods@ == b.packaged_mods@
    &&& opt_view(a.category_id) == opt_view(b.category_id)
    &&& a.sort_index == b.sort_index
}

/// Entries that show the same artifact with the same layout are the same.
proof fn lemma_entry_shows_unique(e1: ModEntryDto, e2: ModEntryDto, a: ModArtifact, cat: Option<Seq<char>>, idx: i64)
    requires
        entry_shows(e1, a, cat, idx),
        entry_shows(e2, a, cat, idx),
    ensures
        same_entry(e1, e2),
{
    assert forall|i: int| 0 <= i < e1.packaged_mods@.len() implies e1.packaged_mods@[i] == e2.packaged_mods@[i] by {
        assert(packaged_shows(e1.packaged_mods@[i], a.packaged_mods@[i]));
        assert(packaged_shows(e2.packaged_mods@[i], a.packaged_mods@[i]));
    }
    assert(e1.packaged_mods@ =~= e2.packaged_mods@);
}

/// The snapshot is determined by its inputs: two lists that both show the
/// artifacts with the layout rows in display order hold the same entries.
pub proof fn lemma_snapshot_determined(
    m1: Seq<ModEntryDto>,
    m2: Seq<ModEntryDto>,
    arts: Seq<ModArtifact>,
    rows: Seq<LayoutRow>,
)
    requires
        shows_sorted(m1, arts, rows),
        shows_sorted(m2, arts, rows),
    ensures
        m1.len() == m2.len(),
        forall|p: int| 0 <= p < m1.len() ==> same_entry(#[trigger] m1[p], m2[p]),
{
    let keys = display_keys(arts, rows);
    assert forall|p: int| 0 <= p < m1.len() implies same_entry(#[trigger] m1[p], m2[p]) by {
        crate::order::lemma_rank_onto(keys, p);
        let k = choose|k: int| 0 <= k < keys.len() && rank(keys, k) == p;
        lemma_entry_shows_unique(m1[p], m2[p], arts[k], layout_of(arts, rows, k).0, layout_of(arts, rows, k).1);
    }
}

} // verus!

verus! {

/// Two entries show the same mod apart from its place: every field but the
/// category and the index is equal.
pub open spec fn same_mod(a: ModEntryDto, b: ModEntryDto) -> bool {
    &&& a.id == b.id
    &&& a.layout_key == b.layout_key
    &&& a.mod_id == b.mod_id
    &&& a.name == b.name
    &&& a.version == b.version
    &&& a.loader == b.loader
    &&& a.enabled == b.enabled
    &&& a.file_name == b.file_name
    &&& a.path == b.path
    &&& a.icon_data_url == b.icon_data_url
    &&& a.packaged_mods@ == b.packaged_mods@
}

/// Entries that show the same artifact, with any layout, show the same mod.
proof fn lemma_entry_shows_same_mod(
    e1: ModEntryDto,
    e2: ModEntryDto,
    a: ModArtifact,
    c1: Option<Seq<char>>,
    i1: i64,
    c2: Option<Seq<char>>,
    i2: i64,
)
    requires
        entry_shows(e1, a, c1, i1),
        entry_shows(e2, a, c2, i2),
    ensures
        same_mod(e1, e2),
{
    assert forall|i: int| 0 <= i < e1.packaged_mods@.len() implies e1.packaged_mods@[i] == e2.packaged_mods@[i] by {
        assert(packaged_shows(e1.packaged_mods@[i], a.packaged_mods@[i]));
        assert(packaged_shows(e2.packaged_mods@[i], a.packaged_mods@[i]));
    }
    assert(e1.packaged_mods@ =~= e2.packaged_mods@);
}

/// Writing new layout rows changes only where mods are shown: the snapshot
/// taken after a drop has as many entries as the one before, and shows each
/// artifact (at its rank in each list, which covers every position) with the
/// same id, names, version, loader, state, file, icon and packaged mods;
/// only its category, index and place in the list may differ.
pub proof fn lemma_relayout_keeps_mods(
    m1: Seq<ModEntryDto>,
    m2: Seq<ModEntryDto>,
    arts: Seq<ModArtifact>,
    rows1: Seq<LayoutRow>,
    rows2: Seq<LayoutRow>,
)
    requires
        shows_sorted(m1, arts, rows1),
        shows_sorted(m2, arts, rows2),
    ensures
        m1.len() == m2.len(),
        forall|k: int| 0 <= k < arts.len() ==> same_mod(
            #[trigger] m1[rank(display_keys(arts, rows1), k) as int],
            m2[rank(display_keys(arts, rows2), k) as int],
        ),
{
    let k1 = display_keys(arts, rows1);
    let k2 = display_keys(arts, rows2);
    assert forall|k: int| 0 <= k < arts.len() implies same_mod(
        #[trigger] m1[rank(k1, k) as int],
        m2[rank(k2, k) as int],
    ) by {
        assert(rank(k1, k) < arts.len());
        lemma_entry_shows_same_mod(
            m1[rank(k1, k) as int],
            m2[rank(k2, k) as int],
            arts[k],
            layout_of(arts, rows1, k).0,
            layout_of(arts, rows1, k).1,
            layout_of(arts, rows2, k).0,
            layout_of(arts, rows2, k).1,
        );
    }
}


/// The display order of the snapshot: a mod in an earlier category (root
/// first) comes first; in the same category, a smaller index comes first;
/// with the same category and index, the lower-case names decide; with equal
/// lower-case names too, the scan order decides.
pub proof fn lemma_display_order_by_fields(arts: Seq<ModArtifact>, rows: Seq<LayoutRow>, i: int, j: int)
    requires
        0 <= i < arts.len(),
        0 <= j < arts.len(),
        i != j,
    ensures
        opt_text_lt(layout_of(arts, rows, i).0, layout_of(arts, rows, j).0) ==> rank(
            display_keys(arts, rows),
            i,
        ) < rank(display_keys(arts, rows), j),
        layout_of(arts, rows, i).0 == layout_of(arts, rows, j).0 && layout_of(arts, rows, i).1 < layout_of(
            arts,
            rows,
            j,
        ).1 ==> rank(display_keys(arts, rows), i) < rank(display_keys(arts, rows), j),
        layout_of(arts, rows, i) == layout_of(arts, rows, j) && text_lt(
            unicode_lowercase(arts[i].descriptor.name@),
            unicode_lowercase(arts[j].descriptor.name@),
        ) ==> rank(display_keys(arts, rows), i) < rank(display_keys(arts, rows), j),
        layout_of(arts, rows, i) == layout_of(arts, rows, j) && unicode_lowercase(arts[i].descriptor.name@)
            == unicode_lowercase(arts[j].descriptor.name@) && i < j ==> rank(display_keys(arts, rows), i)
            < rank(display_keys(arts, rows), j),
{
    let keys = display_keys(arts, rows);
    assert(keys[i] == (layout_of(arts, rows, i).0, layout_of(arts, rows, i).1, unicode_lowercase(arts[i].descriptor.name@)));
    assert(keys[j] == (layout_of(arts, rows, j).0, layout_of(arts, rows, j).1, unicode_lowercase(arts[j].descriptor.name@)));
    if key_lt(keys[i], keys[j]) || (keys[i] == keys[j] && i < j) {
        lemma_rank_follows_order(keys, i, j);
    }
}


/// When a mod moves to another category, the first rows written are those
/// of the category it leaves: its other mods in their displayed order (row
/// `i` is the mod at the `i`-th position of that category in the list,
/// positions increasing), the `i`-th of them with index `i`; the rows of the
/// category it enters follow.
pub proof fn lemma_moved_out_keeps_old_order(mods: Seq<ModEntryDto>, id: Seq<char>, target: Option<Seq<char>>, index: int)
    requires
        first_mod(mods, id) is Some,
        0 <= index,
        opt_view(mods[first_mod(mods, id)->0].category_id) != target,
    ensures
        ({
            let old = opt_view(mods[first_mod(mods, id)->0].category_id);
            let left = group_keys(mods, old, id);
            let rows = moved_layout(mods, id, target, index);
            &&& rows.len() == left.len() + group_keys(mods, target, id).len() + 1
            &&& forall|i: int| 0 <= i < left.len() ==> #[trigger] rows[i] == (left[i], old, i as i64)
            &&& forall|i: int| 0 <= i < left.len() ==> {
                let q = #[trigger] group_positions(mods, old, id)[i];
                &&& 0 <= q < mods.len()
                &&& rows[i].0 == mods[q].layout_key@
                &&& opt_view(mods[q].category_id) == old
                &&& mods[q].id@ != id
            }
            &&& forall|i: int, k: int| 0 <= i < k < left.len() ==> group_positions(mods, old, id)[i]
                < group_positions(mods, old, id)[k]
        }),
{
    lemma_group_keys_in_display_order(mods, opt_view(mods[first_mod(mods, id)->0].category_id), id);
    let mi = first_mod(mods, id)->0;
    let m = mods[mi];
    let old = opt_view(m.category_id);
    let left = group_keys(mods, old, id);
    let others = group_keys(mods, target, id);
    let old_pos = group_count(mods.take(mi), old);
    lemma_insert_clamped_at(others, index, m.layout_key@);
    let placed = numbered(insert_clamped(others, index, m.layout_key@), target);
    let rows = moved_layout(mods, id, target, index);
    assert(rows == numbered(left, old) + placed);
    assert forall|i: int| 0 <= i < left.len() implies #[trigger] rows[i] == (left[i], old, i as i64) by {
        assert(rows[i] == numbered(left, old)[i]);
    }
}


/// The positions in `mods` of the mods of category `cat` other than mod `skip`, in order.
pub open spec fn group_positions(mods: Seq<ModEntryDto>, cat: Option<Seq<char>>, skip: Seq<char>) -> Seq<int>
    decreases mods.len(),
{
    if mods.len() == 0 {
        Seq::empty()
    } else {
        let prev = group_positions(mods.drop_last(), cat, skip);
        if opt_view(mods.last().category_id) == cat && mods.last().id@ != skip {
            prev.push(mods.len() - 1)
        } else {
            prev
        }
    }
}

/// The keys of a group are those of the mods of that category, other than
/// the skipped one, each once and in displayed order: key `x` belongs to the
/// mod at position `p[x]`, positions increase, and every such mod has one.
pub proof fn lemma_group_keys_in_display_order(mods: Seq<ModEntryDto>, cat: Option<Seq<char>>, skip: Seq<char>)
    ensures
        ({
            let g = group_keys(mods, cat, skip);
            let p = group_positions(mods, cat, skip);
            &&& p.len() == g.len()
            &&& forall|x: int| 0 <= x < p.len() ==> {
                &&& 0 <= #[trigger] p[x] < mods.len()
                &&& opt_view(mods[p[x]].category_id) == cat
                &&& mods[p[x]].id@ != skip
                &&& g[x] == mods[p[x]].layout_key@
            }
            &&& forall|x: int, y: int| 0 <= x < y < p.len() ==> p[x] < p[y]
            &&& forall|j: int| 0 <= j < mods.len() && opt_view(#[trigger] mods[j].category_id) == cat
                && mods[j].id@ != skip ==> exists|x: int| 0 <= x < p.len() && p[x] == j
        }),
    decreases mods.len(),
{
    if mods.len() > 0 {
        let d = mods.drop_last();
        lemma_group_keys_in_display_order(d, cat, skip);
        let g = group_keys(mods, cat, skip);
        let p = group_positions(mods, cat, skip);
        let pd = group_positions(d, cat, skip);
        let n = mods.len() - 1;
        assert forall|x: int| 0 <= x < pd.len() implies #[trigger] p[x] == pd[x] && g[x] == group_keys(d, cat, skip)[x] by {}
        assert forall|x: int| 0 <= x < p.len() implies {
            &&& 0 <= #[trigger] p[x] < mods.len()
            &&& opt_view(mods[p[x]].category_id) == cat
            &&& mods[p[x]].id@ != skip
            &&& g[x] == mods[p[x]].layout_key@
        } by {
            if x < pd.len() {
                assert(mods[pd[x]] == d[pd[x]]);
            } else {
                assert(mods[n] == mods.last());
            }
        }
        assert forall|j: int| 0 <= j < mods.len() && opt_view(#[trigger] mods[j].category_id) == cat
            && mods[j].id@ != skip implies exists|x: int| 0 <= x < p.len() && p[x] == j by {
            if j < n {
                assert(d[j] == mods[j]);
                assert(opt_view(d[j].category_id) == cat);
                let x = choose|x: int| 0 <= x < pd.len() && pd[x] == j;
                assert(p[x] == j);
            } else {
                assert(mods[j] == mods.last());
                assert(p[p.len() - 1] == j);
            }
        }
    }
}

} // verus!
