use vstd::prelude::*;

use crate::query::{madison_render, lemma_madison_render_format, filter_view, split_words,
    split_packages, table_cells, structure_spec};
use crate::render::line_format_ok;
use crate::store::{MappingStore, query_store};

verus! {

/// One memoized response: the raw requested package string, the group key
/// filter it came with, and the rendered table that answered it.
pub struct CacheEntry {
    pub packages: String,
    pub filter: Option<String>,
    pub response: String,
}

/// The web-serving response cache. It remembers rendered answers per
/// (package string, filter) key and the store generation they were
/// computed against; a generation change empties it wholesale.
pub struct RequestCache {
    pub entries: Vec<CacheEntry>,
    pub generation: u64,
}

/// Whether a cached entry answers the given key.
pub open spec fn key_match(e: CacheEntry, packages: Seq<char>, filter: Option<Seq<char>>) -> bool {
    e.packages@ == packages && filter_view(e.filter) == filter
}

/// Every entry of a cache at the store's generation is the answer the
/// store itself would render for its key.
pub open spec fn cache_consistent(cache: &RequestCache, store: &MappingStore) -> bool {
    cache.generation == store.generation ==> forall|i: int|
        0 <= i < cache.entries@.len() ==> (#[trigger] cache.entries@[i]).response@
            == madison_render(
            store.entries_view(),
            split_words(cache.entries@[i].packages@),
            filter_view(cache.entries@[i].filter),
        )
}

impl RequestCache {
    pub fn new() -> (r: Self)
        ensures
            r.generation == 0,
            r.entries@.len() == 0,
    {
        RequestCache { entries: Vec::new(), generation: 0 }
    }

    /// Brings the cache to the store's generation: a changed snapshot
    /// invalidates every cached response; an unchanged one leaves every
    /// entry exactly as it was.
    pub fn sync_generation(&mut self, g: u64)
        ensures
            final(self).generation == g,
            g == old(self).generation ==> *final(self) == *old(self),
            g != old(self).generation ==> final(self).entries@.len() == 0,
    {
        if g != self.generation {
            self.entries.clear();
            self.generation = g;
        }
    }

    /// Looks a request up; the answer of the latest matching entry wins.
    pub fn lookup(&self, packages: &String, filter: &Option<String>) -> (r: Option<String>)
        ensures
            match r {
                Option::Some(resp) => exists|i: int|
                    0 <= i < self.entries@.len() && key_match(
                        #[trigger] self.entries@[i],
                        packages@,
                        filter_view(*filter),
                    ) && self.entries@[i].response@ == resp@,
                Option::None => forall|i: int|
                    0 <= i < self.entries@.len() ==> !key_match(
                        #[trigger] self.entries@[i],
                        packages@,
                        filter_view(*filter),
                    ),
            },
    {
        let mut i: usize = self.entries.len();
        while i > 0
            invariant
                0 <= i <= self.entries@.len(),
                forall|j: int|
                    i <= j < self.entries@.len() ==> !key_match(
                        #[trigger] self.entries@[j],
                        packages@,
                        filter_view(*filter),
                    ),
            decreases i,
        {
            let e = &self.entries[i - 1];
            let pkg_eq = e.packages.eq(packages);
            let filter_eq = match (&e.filter, filter) {
                (Option::Some(a), Option::Some(b)) => a.eq(b),
                (Option::None, Option::None) => true,
                _ => false,
            };
            if pkg_eq && filter_eq {
                proof {
                    assert(key_match(self.entries@[i - 1], packages@, filter_view(*filter)));
                }
                return Option::Some(e.response.clone());
            }
            i = i - 1;
        }
        Option::None
    }

    /// Memoizes one computed answer under its request key.
    pub fn insert(&mut self, packages: String, filter: Option<String>, response: String)
        ensures
            final(self).generation == old(self).generation,
            final(self).entries@ == old(self).entries@.push(
                (CacheEntry { packages, filter, response }),
            ),
    {
        self.entries.push(CacheEntry { packages, filter, response });
    }
}

/// Serves one request through the cache: the cache is first brought to the
/// store's generation (emptying it if the snapshot changed), then a hit is
/// answered from memory and a miss is computed against the snapshot and
/// remembered. Either way the answer is exactly what the store renders for
/// the request now.
pub fn cached_query(
    cache: &mut RequestCache,
    store: &MappingStore,
    package_str: &String,
    suite: &Option<String>,
) -> (r: String)
    requires
        store.inv(),
        cache_consistent(old(cache), store),
    ensures
        r@ == madison_render(
            store.entries_view(),
            split_words(package_str@),
            filter_view(*suite),
        ),
        line_format_ok(r@),
        table_cells(
            structure_spec(store.entries_view(), split_words(package_str@), filter_view(*suite)),
        ).len() == 0 ==> r@ == seq!['\n'],
        final(cache).generation == store.generation,
        cache_consistent(final(cache), store),
{
    proof {
        lemma_madison_render_format(
            store.entries_view(),
            split_words(package_str@),
            filter_view(*suite),
        );
    }
    cache.sync_generation(store.generation);
    let cached = cache.lookup(package_str, suite);
    match cached {
        Option::Some(resp) => resp,
        Option::None => {
            let packages = split_packages(package_str);
            let resp = query_store(store, packages, suite_copy(suite));
            let ghost pre = cache.entries@;
            cache.insert(package_str.clone(), suite_copy(suite), resp.clone());
            proof {
                assert(forall|i: int| 0 <= i < pre.len() ==> cache.entries@[i] == pre[i]);
            }
            resp
        },
    }
}

/// A copy of the optional filter with the same view.
fn suite_copy(suite: &Option<String>) -> (r: Option<String>)
    ensures
        filter_view(r) == filter_view(*suite),
{
    match suite {
        Option::Some(f) => Option::Some(f.clone()),
        Option::None => Option::None,
    }
}

} // verus!
