//! The catalog query engine: stateless filter, sort, and pagination over a
//! snapshot of a catalog's entries, and name-based lookups against it.
use vstd::prelude::*;

use crate::entry::CatalogEntry;
use crate::store::CatalogStore;
use crate::text::{
    contains_seq, lex_le, lower_of, str_contains, str_eq, str_lex_le, to_lowercase,
};

verus! {

/// The sort orders the query engine understands.
#[derive(Clone, Copy, PartialEq, Eq, Structural)]
pub enum SortKey {
    Downloads,
    Rating,
    Updated,
    Name,
}

/// The sort key a textual request selects; an unrecognized request selects
/// none and leaves the filtered order unchanged.
pub open spec fn spec_sort_key(s: Seq<char>) -> Option<SortKey> {
    if s == "downloads"@ {
        Some(SortKey::Downloads)
    } else if s == "rating"@ {
        Some(SortKey::Rating)
    } else if s == "updated"@ {
        Some(SortKey::Updated)
    } else if s == "alphabetical"@ {
        Some(SortKey::Name)
    } else {
        None
    }
}

/// Parses a sort request.
pub fn sort_key_of(s: &str) -> (r: Option<SortKey>)
    ensures
        r == spec_sort_key(s@),
{
    if str_eq(s, "downloads") {
        Some(SortKey::Downloads)
    } else if str_eq(s, "rating") {
        Some(SortKey::Rating)
    } else if str_eq(s, "updated") {
        Some(SortKey::Updated)
    } else if str_eq(s, "alphabetical") {
        Some(SortKey::Name)
    } else {
        None
    }
}

/// An entry matches a search when the search is empty or its lowercase form
/// occurs in the lowercase name or qualified name.
pub open spec fn entry_matches(e: CatalogEntry, search: Seq<char>) -> bool {
    search.len() == 0 || contains_seq(lower_of(e.name@), lower_of(search)) || contains_seq(
        lower_of(e.full_name@),
        lower_of(search),
    )
}

/// The entries that match a search, in their original order.
pub open spec fn spec_filter(s: Seq<CatalogEntry>, search: Seq<char>) -> Seq<CatalogEntry>
    decreases s.len(),
{
    if s.len() == 0 {
        Seq::empty()
    } else {
        let rest = spec_filter(s.drop_last(), search);
        if entry_matches(s.last(), search) {
            rest.push(s.last())
        } else {
            rest
        }
    }
}

/// `a` sorts no later than `b` under the given key: downloads, rating and
/// update timestamp sort descending, names ascending case-insensitively.
pub open spec fn key_le(k: SortKey, a: CatalogEntry, b: CatalogEntry) -> bool {
    match k {
        SortKey::Downloads => a.downloads >= b.downloads,
        SortKey::Rating => a.rating >= b.rating,
        SortKey::Updated => lex_le(b.date_updated@, a.date_updated@),
        SortKey::Name => lex_le(lower_of(a.name@), lower_of(b.name@)),
    }
}

/// `key_le` relates every pair of entries one way or the other.
pub proof fn lemma_key_le_total(k: SortKey, a: CatalogEntry, b: CatalogEntry)
    ensures
        key_le(k, a, b) || key_le(k, b, a),
{
    match k {
        SortKey::Downloads => {},
        SortKey::Rating => {},
        SortKey::Updated => {
            lemma_lex_le_total(a.date_updated@, b.date_updated@, 0);
        },
        SortKey::Name => {
            lemma_lex_le_total(lower_of(a.name@), lower_of(b.name@), 0);
        },
    }
}

/// Lexicographic order is total.
proof fn lemma_lex_le_total(a: Seq<char>, b: Seq<char>, i: int)
    requires
        0 <= i,
    ensures
        crate::text::lex_le_from(a, b, i) || crate::text::lex_le_from(b, a, i),
    decreases a.len() - i,
{
    if i < a.len() && i < b.len() && a[i] == b[i] {
        lemma_lex_le_total(a, b, i + 1);
    }
}

/// `e` placed into `s` after every element that sorts no later than it; on
/// a sorted `s` this is a stable insertion.
pub open spec fn spec_insert(k: SortKey, s: Seq<CatalogEntry>, e: CatalogEntry) -> Seq<
    CatalogEntry,
>
    decreases s.len(),
{
    if s.len() == 0 {
        seq![e]
    } else if key_le(k, s.last(), e) {
        s.push(e)
    } else {
        spec_insert(k, s.drop_last(), e).push(s.last())
    }
}

/// Insertion sort of `s` under `k`: the unique stable reordering by `key_le`.
pub open spec fn spec_sort(k: SortKey, s: Seq<CatalogEntry>) -> Seq<CatalogEntry>
    decreases s.len(),
{
    if s.len() == 0 {
        Seq::empty()
    } else {
        spec_insert(k, spec_sort(k, s.drop_last()), s.last())
    }
}

/// The sorted sequence under an optional key; no key leaves the order as is.
pub open spec fn spec_sort_opt(k: Option<SortKey>, s: Seq<CatalogEntry>) -> Seq<CatalogEntry> {
    match k {
        Some(key) => spec_sort(key, s),
        None => s,
    }
}

/// Inserts `e` into the sorted vector `v`, keeping it sorted.
fn insert_sorted(k: SortKey, v: Vec<CatalogEntry>, e: CatalogEntry) -> (r: Vec<CatalogEntry>)
    ensures
        r@ == spec_insert(k, v@, e),
    decreases v@.len(),
{
    let mut v = v;
    if v.len() == 0 {
        v.push(e);
        proof {
            assert(v@ =~= seq![e]);
        }
        v
    } else {
        let last_le = key_le_exec(k, &v[v.len() - 1], &e);
        if last_le {
            v.push(e);
            v
        } else {
            let last = v.pop().unwrap();
            let mut r = insert_sorted(k, v, e);
            r.push(last);
            r
        }
    }
}

/// Compares two entries under `k`.
fn key_le_exec(k: SortKey, a: &CatalogEntry, b: &CatalogEntry) -> (r: bool)
    ensures
        r == key_le(k, *a, *b),
{
    match k {
        SortKey::Downloads => a.downloads >= b.downloads,
        SortKey::Rating => a.rating >= b.rating,
        SortKey::Updated => str_lex_le(b.date_updated.as_str(), a.date_updated.as_str()),
        SortKey::Name => {
            let la = to_lowercase(a.name.as_str());
            let lb = to_lowercase(b.name.as_str());
            str_lex_le(la.as_str(), lb.as_str())
        },
    }
}

/// Sorts the entries under `k` by insertion sort.
pub fn sort_entries(k: SortKey, v: Vec<CatalogEntry>) -> (r: Vec<CatalogEntry>)
    ensures
        r@ == spec_sort(k, v@),
    decreases v@.len(),
{
    let mut v = v;
    if v.len() == 0 {
        v
    } else {
        let last = v.pop().unwrap();
        let sorted = sort_entries(k, v);
        insert_sorted(k, sorted, last)
    }
}

/// The entries of `s` that match `search`, in order.
pub fn filter_entries(s: &Vec<CatalogEntry>, search: &str) -> (r: Vec<CatalogEntry>)
    ensures
        r@ == spec_filter(s@, search@),
{
    let search_lower = to_lowercase(search);
    let empty_search = search.unicode_len() == 0;
    let mut out: Vec<CatalogEntry> = Vec::new();
    let mut i: usize = 0;
    while i < s.len()
        invariant
            0 <= i <= s@.len(),
            out@ == spec_filter(s@.subrange(0, i as int), search@),
            search_lower@ == lower_of(search@),
            empty_search == (search@.len() == 0),
        decreases s@.len() - i,
    {
        let e = &s[i];
        let keep = if empty_search {
            true
        } else {
            let name_lower = to_lowercase(e.name.as_str());
            let full_lower = to_lowercase(e.full_name.as_str());
            str_contains(name_lower.as_str(), search_lower.as_str()) || str_contains(
                full_lower.as_str(),
                search_lower.as_str(),
            )
        };
        if keep {
            out.push(e.clone());
        }
        proof {
            let w = s@.subrange(0, i + 1);
            assert(w.drop_last() =~= s@.subrange(0, i as int));
            assert(w.last() == s@[i as int]);
            assert(keep == entry_matches(s@[i as int], search@));
        }
        i += 1;
    }
    proof {
        assert(s@.subrange(0, s@.len() as int) =~= s@);
    }
    out
}

/// The page of `s` selected by a zero-indexed page number: entries
/// `page * size` up to `page * size + size`, empty once the start passes the
/// end. An empty result is the defined end-of-results signal.
pub open spec fn spec_page(s: Seq<CatalogEntry>, page: int, size: int) -> Seq<CatalogEntry> {
    let start = page * size;
    if start >= s.len() {
        Seq::empty()
    } else {
        s.subrange(start, if start + size <= s.len() { start + size } else { s.len() as int })
    }
}

/// Copies out the requested page of `v`.
pub fn page_of(v: &Vec<CatalogEntry>, page: usize, size: usize) -> (r: Vec<CatalogEntry>)
    ensures
        r@ == spec_page(v@, page as int, size as int),
{
    let n = v.len();
    let start = match page.checked_mul(size) {
        Some(s) => s,
        None => {
            proof {
                assert(page * size >= v@.len()) by (nonlinear_arith)
                    requires
                        page * size > usize::MAX,
                        v@.len() <= usize::MAX,
                ;
            }
            return Vec::new();
        },
    };
    if start >= n {
        return Vec::new();
    }
    let end = if n - start >= size {
        start + size
    } else {
        n
    };
    let mut out: Vec<CatalogEntry> = Vec::new();
    let mut i: usize = start;
    while i < end
        invariant
            start <= i <= end <= v@.len(),
            out@ =~= v@.subrange(start as int, i as int),
        decreases end - i,
    {
        out.push(v[i].clone());
        i += 1;
    }
    out
}

/// What a catalog query returns: the requested page of the sorted, filtered
/// entries.
pub open spec fn spec_query(
    entries: Seq<CatalogEntry>,
    search: Seq<char>,
    key: Option<SortKey>,
    page: int,
    size: int,
) -> Seq<CatalogEntry> {
    spec_page(spec_sort_opt(key, spec_filter(entries, search)), page, size)
}

/// Queries the store's snapshot for `game_id`: case-insensitive substring
/// filter on name and qualified name, optional sort, zero-indexed
/// pagination. A catalog that was never loaded yields an empty result.
pub fn get_packages(
    store: &CatalogStore,
    game_id: &str,
    page: usize,
    page_size: usize,
    search: &str,
    sort: &Option<String>,
) -> (r: Vec<CatalogEntry>)
    requires
        store.wf(),
    ensures
        r@ == spec_query(
            store.spec_entries_of(game_id@),
            search@,
            match sort {
                Some(s) => spec_sort_key(s@),
                None => None,
            },
            page as int,
            page_size as int,
        ),
{
    let entries = match store.get(game_id) {
        Some(v) => v,
        None => Vec::new(),
    };
    let filtered = filter_entries(&entries, search);
    let key = match sort {
        Some(s) => sort_key_of(s.as_str()),
        None => None,
    };
    let sorted = match key {
        Some(k) => sort_entries(k, filtered),
        None => filtered,
    };
    page_of(&sorted, page, page_size)
}

/// Adjacent entries stand in `key_le` order.
pub open spec fn sorted_under(k: SortKey, s: Seq<CatalogEntry>) -> bool {
    forall|i: int| 0 <= i < s.len() - 1 ==> #[trigger] key_le(k, s[i], s[i + 1])
}

/// Inserting lengthens by one, and the new last element is the old last or
/// the inserted one.
proof fn lemma_insert_shape(k: SortKey, s: Seq<CatalogEntry>, e: CatalogEntry)
    ensures
        spec_insert(k, s, e).len() == s.len() + 1,
        spec_insert(k, s, e).last() == if s.len() > 0 && !key_le(k, s.last(), e) {
            s.last()
        } else {
            e
        },
    decreases s.len(),
{
    if s.len() == 0 {
    } else if key_le(k, s.last(), e) {
    } else {
        lemma_insert_shape(k, s.drop_last(), e);
    }
}

/// Insertion keeps a sorted sequence sorted.
proof fn lemma_insert_sorted(k: SortKey, s: Seq<CatalogEntry>, e: CatalogEntry)
    requires
        sorted_under(k, s),
    ensures
        sorted_under(k, spec_insert(k, s, e)),
    decreases s.len(),
{
    if s.len() == 0 {
    } else if key_le(k, s.last(), e) {
        let r = s.push(e);
        assert forall|i: int| 0 <= i < r.len() - 1 implies #[trigger] key_le(k, r[i], r[i + 1]) by {
            if i < s.len() - 1 {
                assert(key_le(k, s[i], s[i + 1]));
            }
        }
    } else {
        assert(sorted_under(k, s.drop_last())) by {
            assert(forall|i: int|
                0 <= i < s.drop_last().len() - 1 ==> #[trigger] key_le(k, s[i], s[i + 1]));
        }
        lemma_insert_sorted(k, s.drop_last(), e);
        lemma_insert_shape(k, s.drop_last(), e);
        let inner = spec_insert(k, s.drop_last(), e);
        let r = inner.push(s.last());
        assert forall|i: int| 0 <= i < r.len() - 1 implies #[trigger] key_le(k, r[i], r[i + 1]) by {
            if i < inner.len() - 1 {
                assert(key_le(k, inner[i], inner[i + 1]));
            } else {
                // the seam between the inserted prefix and the old last
                assert(r[i] == inner.last());
                if s.len() >= 2 && !key_le(k, s.drop_last().last(), e) {
                    assert(inner.last() == s.drop_last().last());
                    let m = s.len() - 2;
                    assert(key_le(k, s[m], s[m + 1]));
                } else {
                    assert(inner.last() == e);
                    lemma_key_le_total(k, s.last(), e);
                }
            }
        }
    }
}

/// Insertion adds exactly the inserted entry to the multiset of entries.
proof fn lemma_insert_multiset(k: SortKey, s: Seq<CatalogEntry>, e: CatalogEntry)
    ensures
        spec_insert(k, s, e).to_multiset() == s.to_multiset().insert(e),
    decreases s.len(),
{
    broadcast use vstd::seq_lib::group_to_multiset_ensures;

    if s.len() == 0 {
        assert(seq![e] =~= Seq::<CatalogEntry>::empty().push(e));
        assert(Seq::<CatalogEntry>::empty().push(e).to_multiset() =~= Seq::<
            CatalogEntry,
        >::empty().to_multiset().insert(e));
    } else if key_le(k, s.last(), e) {
        assert(s.push(e).to_multiset() =~= s.to_multiset().insert(e));
    } else {
        lemma_insert_multiset(k, s.drop_last(), e);
        let inner = spec_insert(k, s.drop_last(), e);
        assert(inner.push(s.last()).to_multiset() =~= inner.to_multiset().insert(s.last()));
        assert(s =~= s.drop_last().push(s.last()));
        assert(s.to_multiset() =~= s.drop_last().to_multiset().insert(s.last()));
        assert(inner.to_multiset().insert(s.last()) =~= s.drop_last().to_multiset().insert(
            e,
        ).insert(s.last()));
        assert(s.drop_last().to_multiset().insert(e).insert(s.last())
            =~= s.drop_last().to_multiset().insert(s.last()).insert(e));
    }
}

/// Sorting yields a sorted permutation: the entries are exactly those of the
/// input, each exactly as often, in `key_le` order.
pub proof fn lemma_sort_is_sorted_permutation(k: SortKey, s: Seq<CatalogEntry>)
    ensures
        sorted_under(k, spec_sort(k, s)),
        spec_sort(k, s).to_multiset() == s.to_multiset(),
        spec_sort(k, s).len() == s.len(),
    decreases s.len(),
{
    broadcast use vstd::seq_lib::group_to_multiset_ensures;

    if s.len() == 0 {
    } else {
        lemma_sort_is_sorted_permutation(k, s.drop_last());
        lemma_insert_sorted(k, spec_sort(k, s.drop_last()), s.last());
        lemma_insert_multiset(k, spec_sort(k, s.drop_last()), s.last());
        lemma_insert_shape(k, spec_sort(k, s.drop_last()), s.last());
        assert(s =~= s.drop_last().push(s.last()));
        assert(s.to_multiset() =~= s.drop_last().to_multiset().insert(s.last()));
    }
}

/// Pagination boundaries: the page one past the last entry is empty, and
/// page zero sized to the whole result returns the whole result.
pub proof fn lemma_pagination(s: Seq<CatalogEntry>, size: int)
    ensures
        size > 0 ==> spec_page(s, (s.len() + size - 1) / size, size) == Seq::<
            CatalogEntry,
        >::empty(),
        spec_page(s, 0, s.len() as int) == s,
{
    if size > 0 {
        let pages = (s.len() + size - 1) / size;
        assert(pages * size >= s.len()) by (nonlinear_arith)
            requires
                size > 0,
                pages == (s.len() + size - 1) / size,
                s.len() >= 0,
        ;
    }
    if s.len() > 0 {
        assert(s.subrange(0, s.len() as int) =~= s);
    } else {
        assert(spec_page(s, 0, 0) == Seq::<CatalogEntry>::empty());
    }
}

/// Every query paginates its sorted, filtered result: asking for the page
/// past the end returns the empty sequence, and asking for page zero with
/// the filtered count as page size returns every filtered entry exactly
/// once, in the declared sort order.
pub proof fn lemma_query_pagination(
    entries: Seq<CatalogEntry>,
    search: Seq<char>,
    k: SortKey,
    size: int,
)
    ensures
        size > 0 ==> spec_query(
            entries,
            search,
            Some(k),
            (spec_filter(entries, search).len() + size - 1) / size,
            size,
        ) == Seq::<CatalogEntry>::empty(),
        spec_query(entries, search, Some(k), 0, spec_filter(entries, search).len() as int)
            == spec_sort(k, spec_filter(entries, search)),
        spec_sort(k, spec_filter(entries, search)).to_multiset() == spec_filter(
            entries,
            search,
        ).to_multiset(),
        sorted_under(k, spec_sort(k, spec_filter(entries, search))),
{
    let filtered = spec_filter(entries, search);
    lemma_sort_is_sorted_permutation(k, filtered);
    lemma_pagination(spec_sort(k, filtered), size);
}

/// The first entry from position `i` on whose lowercase qualified name is
/// `target`, scanning forward.
pub open spec fn spec_find_ci(
    entries: Seq<CatalogEntry>,
    target: Seq<char>,
    i: int,
) -> Option<CatalogEntry>
    decreases entries.len() - i,
{
    if i < 0 || i >= entries.len() {
        None
    } else if lower_of(entries[i].full_name@) == target {
        Some(entries[i])
    } else {
        spec_find_ci(entries, target, i + 1)
    }
}

/// The first entry whose qualified name case-insensitively equals
/// `target_lower` (already lowercased).
pub fn find_by_full_name_ci(entries: &Vec<CatalogEntry>, target_lower: &str) -> (r: Option<
    CatalogEntry,
>)
    ensures
        r == spec_find_ci(entries@, target_lower@, 0),
{
    let mut i: usize = 0;
    while i < entries.len()
        invariant
            0 <= i <= entries@.len(),
            spec_find_ci(entries@, target_lower@, 0) == spec_find_ci(
                entries@,
                target_lower@,
                i as int,
            ),
        decreases entries@.len() - i,
    {
        let lowered = to_lowercase(entries[i].full_name.as_str());
        if str_eq(lowered.as_str(), target_lower) {
            return Some(entries[i].clone());
        }
        i += 1;
    }
    None
}

/// What the catalog resolves a single externally-supplied name to: its
/// version suffix is stripped and the remainder is matched case-insensitively
/// against qualified names.
pub open spec fn spec_resolve(entries: Seq<CatalogEntry>, name: Seq<char>) -> Option<
    CatalogEntry,
> {
    spec_find_ci(entries, lower_of(crate::text::spec_strip_version(name)), 0)
}

/// Resolves one name against a catalog snapshot.
pub fn resolve_name(entries: &Vec<CatalogEntry>, name: &str) -> (r: Option<CatalogEntry>)
    ensures
        r == spec_resolve(entries@, name@),
{
    let cleaned = crate::text::strip_version_suffix(name);
    let target = to_lowercase(cleaned.as_str());
    find_by_full_name_ci(entries, target.as_str())
}

/// The entries that a list of names resolves to, in request order.
pub open spec fn spec_lookup_found(
    entries: Seq<CatalogEntry>,
    names: Seq<Seq<char>>,
) -> Seq<CatalogEntry>
    decreases names.len(),
{
    if names.len() == 0 {
        Seq::empty()
    } else {
        let rest = spec_lookup_found(entries, names.drop_last());
        match spec_resolve(entries, names.last()) {
            Some(e) => rest.push(e),
            None => rest,
        }
    }
}

/// The names that resolve to nothing, in request order.
pub open spec fn spec_lookup_unknown(
    entries: Seq<CatalogEntry>,
    names: Seq<Seq<char>>,
) -> Seq<Seq<char>>
    decreases names.len(),
{
    if names.len() == 0 {
        Seq::empty()
    } else {
        let rest = spec_lookup_unknown(entries, names.drop_last());
        match spec_resolve(entries, names.last()) {
            Some(_) => rest,
            None => rest.push(names.last()),
        }
    }
}

/// Resolves a list of externally-supplied mod identifiers against the cached
/// catalog for `game_id`: each name is version-stripped and matched
/// case-insensitively; the result pairs the matched entries with the names
/// that stayed unresolved.
pub fn lookup_packages_by_names(store: &CatalogStore, game_id: &str, names: &Vec<String>) -> (r: (
    Vec<CatalogEntry>,
    Vec<String>,
))
    requires
        store.wf(),
    ensures
        r.0@ == spec_lookup_found(
            store.spec_entries_of(game_id@),
            crate::text::seq_views(names@),
        ),
        crate::text::seq_views(r.1@) == spec_lookup_unknown(
            store.spec_entries_of(game_id@),
            crate::text::seq_views(names@),
        ),
{
    let entries = match store.get(game_id) {
        Some(v) => v,
        None => Vec::new(),
    };
    let ghost evs = store.spec_entries_of(game_id@);
    let mut found: Vec<CatalogEntry> = Vec::new();
    let mut unknown: Vec<String> = Vec::new();
    let mut i: usize = 0;
    while i < names.len()
        invariant
            0 <= i <= names@.len(),
            entries@ == evs,
            found@ == spec_lookup_found(evs, crate::text::seq_views(names@.subrange(0, i as int))),
            crate::text::seq_views(unknown@) == spec_lookup_unknown(
                evs,
                crate::text::seq_views(names@.subrange(0, i as int)),
            ),
        decreases names@.len() - i,
    {
        let name = &names[i];
        match resolve_name(&entries, name.as_str()) {
            Some(e) => {
                found.push(e);
            },
            None => {
                unknown.push(name.clone());
            },
        }
        proof {
            let prev = crate::text::seq_views(names@.subrange(0, i as int));
            let cur = crate::text::seq_views(names@.subrange(0, i + 1));
            assert(cur.drop_last() =~= prev);
            assert(cur.last() == names@[i as int]@);
            if spec_resolve(evs, names@[i as int]@) is None {
                assert(crate::text::seq_views(unknown@) =~= spec_lookup_unknown(evs, cur));
            }
        }
        i += 1;
    }
    proof {
        assert(names@.subrange(0, names@.len() as int) =~= names@);
    }
    (found, unknown)
}

} // verus!
