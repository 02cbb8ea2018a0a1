//! The icon resolver: an in-memory LRU cache (the `lru` crate) in front of
//! the disk cache and the full `.desktop` resolution.
//!
//! A lookup goes: memory cache, then the disk cache entry (read by the
//! caller), then full resolution; whatever the disk or the resolution
//! yields is remembered in memory, and a fresh resolution is also written
//! to disk by the caller.

use vstd::prelude::*;
use vstd::utf8::*;
use lru::LruCache;
use std::num::NonZeroUsize;
use std::collections::hash_map::RandomState;
use crate::icon::{
    IconResult, IconModel, DesktopEntry, index_view, find_icon, find_icon_name, resolve_found, named_icon_ok,
    decode_disk_cache, cache_entry_ok, cache_content, cache_text, opt_icon, simple_hash, fnv1a, hex_n, join,
};
use crate::text::{lowercase, to_lowercase, chars_of, string_of, starts_with_chars, push_str_chars};

verus! {

/// Entries the memory cache holds at most.
pub const LRU_CAPACITY: usize = 256;

/// The `lru` crate's cache, carried opaquely.
#[verifier::external_type_specification]
#[verifier::external_body]
#[verifier::reject_recursive_types(K)]
#[verifier::reject_recursive_types(V)]
#[verifier::reject_recursive_types(S)]
pub struct ExLruCache<K, V, S>(LruCache<K, V, S>);

/// Name for what an icon cache holds: key characters to cached result.
pub uninterp spec fn lru_entries(c: LruCache<String, IconResult, RandomState>) -> Map<Seq<char>, IconModel>;

/// Name for the capacity an icon cache was made with.
pub uninterp spec fn lru_cap(c: LruCache<String, IconResult, RandomState>) -> nat;

/// Name for the order of use of an icon cache's keys: least recently used
/// first, most recently used last.
pub uninterp spec fn lru_order(c: LruCache<String, IconResult, RandomState>) -> Seq<Seq<char>>;

/// The cache's standing facts: finitely many entries, no more than its
/// capacity, and each key once in the order of use.
pub open spec fn lru_ok(c: LruCache<String, IconResult, RandomState>) -> bool {
    &&& lru_entries(c).dom().finite()
    &&& lru_entries(c).dom().len() <= lru_cap(c)
    &&& lru_order(c).no_duplicates()
    &&& forall|k: Seq<char>| #[trigger] lru_entries(c).contains_key(k) <==> lru_order(c).contains(k)
}

/// The order of use with `k` taken out.
pub open spec fn without(o: Seq<Seq<char>>, k: Seq<char>) -> Seq<Seq<char>> {
    o.filter(|x: Seq<char>| x != k)
}

/// The order of use after using `k`: it moves to the most recent end, if
/// it is there at all.
pub open spec fn touch(o: Seq<Seq<char>>, k: Seq<char>) -> Seq<Seq<char>> {
    if o.contains(k) {
        without(o, k).push(k)
    } else {
        o
    }
}

/// What `put` does to the entries: the key maps to the value; when the key
/// was absent and the cache full, the least recently used entry (the first
/// of the order of use) is dropped first.
pub open spec fn put_effect(old: Map<Seq<char>, IconModel>, order: Seq<Seq<char>>, cap: nat, k: Seq<char>, v: IconModel,
    new: Map<Seq<char>, IconModel>) -> bool {
    if old.contains_key(k) || old.dom().len() < cap {
        new == old.insert(k, v)
    } else {
        new == old.remove(order[0]).insert(k, v)
    }
}

/// What `put` does to the order of use: the key becomes the most recently
/// used; a dropped entry leaves the order.
pub open spec fn put_order(old: Map<Seq<char>, IconModel>, order: Seq<Seq<char>>, cap: nat, k: Seq<char>) -> Seq<Seq<char>> {
    if old.contains_key(k) {
        touch(order, k)
    } else if old.dom().len() < cap {
        order.push(k)
    } else {
        order.drop_first().push(k)
    }
}

/// A cache with nothing in it.
pub open spec fn no_entries() -> Map<Seq<char>, IconModel> {
    Map::empty()
}

/// Wrapper for `LruCache::with_hasher` (std's hasher): an empty cache of capacity `cap`.
#[verifier::external_body]
fn lru_new(cap: usize) -> (cache: LruCache<String, IconResult, RandomState>)
    requires
        cap > 0,
    ensures
        lru_entries(cache) == no_entries(),
        lru_order(cache) == Seq::<Seq<char>>::empty(),
        lru_cap(cache) == cap,
        lru_ok(cache),
{
    LruCache::with_hasher(NonZeroUsize::new(cap).unwrap(), RandomState::new())
}

/// Wrapper for `LruCache::promote`: marks the key most recently used, if it
/// is cached; the entries stay as they are.
#[verifier::external_body]
fn lru_promote(c: &mut LruCache<String, IconResult, RandomState>, k: &String)
    ensures
        lru_entries(*final(c)) == lru_entries(*old(c)),
        lru_order(*final(c)) == touch(lru_order(*old(c)), k@),
        lru_cap(*final(c)) == lru_cap(*old(c)),
        lru_ok(*old(c)) ==> lru_ok(*final(c)),
{
    c.promote(k)
}

/// Wrapper for `LruCache::peek`: the value cached for the key, if any.
#[verifier::external_body]
fn lru_peek<'a>(c: &'a LruCache<String, IconResult, RandomState>, k: &String) -> (r: Option<&'a IconResult>)
    ensures
        (match r {
            Some(v) => lru_entries(*c).contains_key(k@) && lru_entries(*c)[k@] == v@,
            None => !lru_entries(*c).contains_key(k@),
        }),
{
    c.peek(k)
}

/// Wrapper for `LruCache::put`: stores the value under the key, dropping
/// the least recently used entry when a new key finds the cache full.
#[verifier::external_body]
fn lru_put(c: &mut LruCache<String, IconResult, RandomState>, k: String, v: IconResult)
    ensures
        put_effect(lru_entries(*old(c)), lru_order(*old(c)), lru_cap(*old(c)), k@, v@, lru_entries(*final(c))),
        lru_order(*final(c)) == put_order(lru_entries(*old(c)), lru_order(*old(c)), lru_cap(*old(c)), k@),
        lru_cap(*final(c)) == lru_cap(*old(c)),
        lru_ok(*old(c)) ==> lru_ok(*final(c)),
{
    c.put(k, v);
}

/// Resolves window classes to icons, with a memory cache.
pub struct IconResolver {
    /// The memory cache.
    pub mem_cache: LruCache<String, IconResult, RandomState>,
    /// Directory of the disk cache.
    pub disk_cache_dir: String,
    /// The `.desktop` files found.
    pub desktop_files: Vec<String>,
    /// Their parsed entries.
    pub desktop_index: Vec<DesktopEntry>,
}

impl IconResolver {
    /// What the memory cache holds.
    pub closed spec fn cached_entries(&self) -> Map<Seq<char>, IconModel> {
        lru_entries(self.mem_cache)
    }

    /// The keys of the memory cache, least recently used first.
    pub closed spec fn cached_order(&self) -> Seq<Seq<char>> {
        lru_order(self.mem_cache)
    }

    /// The memory cache's invariant.
    pub closed spec fn wf(&self) -> bool {
        lru_ok(self.mem_cache) && lru_cap(self.mem_cache) == LRU_CAPACITY
    }

    /// A resolver over the given desktop entries with an empty memory cache.
    pub fn new(disk_cache_dir: String, desktop_files: Vec<String>, desktop_index: Vec<DesktopEntry>) -> (r: Self)
        ensures
            r.wf(),
            r.cached_entries() == Map::<Seq<char>, IconModel>::empty(),
            r.cached_order() == Seq::<Seq<char>>::empty(),
            r.disk_cache_dir == disk_cache_dir,
            r.desktop_files == desktop_files,
            r.desktop_index == desktop_index,
    {
        IconResolver { mem_cache: lru_new(LRU_CAPACITY), disk_cache_dir, desktop_files, desktop_index }
    }

    /// Replaces the desktop index (after new applications were installed).
    pub fn refresh_desktop_index(&mut self, desktop_files: Vec<String>, desktop_index: Vec<DesktopEntry>)
        ensures
            final(self).cached_entries() == old(self).cached_entries(),
            final(self).cached_order() == old(self).cached_order(),
            old(self).wf() ==> final(self).wf(),
            final(self).desktop_files == desktop_files,
            final(self).desktop_index == desktop_index,
            final(self).disk_cache_dir == old(self).disk_cache_dir,
    {
        self.desktop_files = desktop_files;
        self.desktop_index = desktop_index;
    }

    /// The cache key of a class (its lowercase form) and the result the
    /// memory cache holds for it, if any.
    pub fn lookup(&mut self, wm_class: &str) -> (r: (String, Option<IconResult>))
        ensures
            r.0@ == lowercase(wm_class@),
            (match r.1 {
                Some(v) => old(self).cached_entries().contains_key(r.0@) && v@ == old(self).cached_entries()[r.0@],
                None => !old(self).cached_entries().contains_key(r.0@),
            }),
            final(self).cached_entries() == old(self).cached_entries(),
            final(self).cached_order() == touch(old(self).cached_order(), r.0@),
            old(self).wf() ==> final(self).wf(),
            final(self).desktop_index == old(self).desktop_index,
            final(self).disk_cache_dir == old(self).disk_cache_dir,
            final(self).desktop_files == old(self).desktop_files,
    {
        let key = to_lowercase(wm_class);
        lru_promote(&mut self.mem_cache, &key);
        let hit = match lru_peek(&self.mem_cache, &key) {
            Some(v) => Some(v.clone()),
            None => None,
        };
        (key, hit)
    }

    fn remember(&mut self, key: String, result: &IconResult)
        requires
            old(self).wf(),
        ensures
            put_effect(old(self).cached_entries(), old(self).cached_order(), LRU_CAPACITY as nat, key@, result@, final(self).cached_entries()),
            final(self).cached_order() == put_order(old(self).cached_entries(), old(self).cached_order(), LRU_CAPACITY as nat, key@),
            old(self).wf() ==> final(self).wf(),
            final(self).desktop_index == old(self).desktop_index,
            final(self).disk_cache_dir == old(self).disk_cache_dir,
            final(self).desktop_files == old(self).desktop_files,
    {
        lru_put(&mut self.mem_cache, key, result.clone());
    }

    /// The disk cache file of a key: the directory joined with the key's
    /// hash.
    pub fn disk_cache_path(&self, key: &str) -> (r: String)
        ensures
            r@ == join(self.disk_cache_dir@, hex_n(fnv1a(encode_utf8(key@)) as nat, 16)),
    {
        let h = simple_hash(key);
        let c = chars_of(h.as_str());
        let slash = chars_of("/");
        if starts_with_chars(c.as_slice(), slash.as_slice()) {
            return h;
        }
        let mut s = String::new();
        push_str_chars(&mut s, self.disk_cache_dir.as_str());
        push_str_chars(&mut s, "/");
        push_str_chars(&mut s, h.as_str());
        s
    }

    /// Takes a disk cache entry (`content`, read by the caller) for `key`:
    /// a usable entry is remembered and returned; `None` when there is
    /// none, with `true` when the entry names a file that is gone (the
    /// caller removes it).
    pub fn from_disk<F: Fn(&str) -> bool>(&mut self, key: String, content: Option<String>, present: &F)
        -> (r: (Option<IconResult>, bool))
        requires
            old(self).wf(),
            forall|s: &str| #[trigger] present.requires((s,)),
        ensures
            (match content {
                None => r.0 is None && !r.1 && final(self).cached_entries() == old(self).cached_entries()
                    && final(self).cached_order() == old(self).cached_order(),
                Some(t) => cache_entry_ok(*present, t@, opt_icon(r.0)) && r.1 == (r.0 is None) && match r.0 {
                    Some(v) => put_effect(old(self).cached_entries(), old(self).cached_order(), LRU_CAPACITY as nat, key@, v@,
                        final(self).cached_entries())
                        && final(self).cached_order() == put_order(old(self).cached_entries(), old(self).cached_order(),
                            LRU_CAPACITY as nat, key@),
                    None => final(self).cached_entries() == old(self).cached_entries()
                        && final(self).cached_order() == old(self).cached_order(),
                },
            }),
            old(self).wf() ==> final(self).wf(),
            final(self).desktop_index == old(self).desktop_index,
            final(self).disk_cache_dir == old(self).disk_cache_dir,
            final(self).desktop_files == old(self).desktop_files,
    {
        match content {
            None => (None, false),
            Some(t) => match decode_disk_cache(t.as_str(), present) {
                Some(res) => {
                    self.remember(key, &res);
                    (Some(res), false)
                },
                None => (None, true),
            },
        }
    }

    /// Resolves `key` from the desktop entries and icon themes, remembers
    /// the result, and returns it with the text to write to the disk cache.
    pub fn resolve_full<F: Fn(&str) -> bool>(&mut self, key: String, present: &F) -> (r: (IconResult, String))
        requires
            old(self).wf(),
            forall|s: &str| #[trigger] present.requires((s,)),
        ensures
            (match find_icon(index_view(old(self).desktop_index@), key@) {
                None => r.0@ == IconModel::NotFound,
                Some(n) => named_icon_ok(*present, n, r.0@),
            }),
            r.1@ == cache_text(r.0@),
            put_effect(old(self).cached_entries(), old(self).cached_order(), LRU_CAPACITY as nat, key@, r.0@, final(self).cached_entries()),
            final(self).cached_order() == put_order(old(self).cached_entries(), old(self).cached_order(), LRU_CAPACITY as nat, key@),
            old(self).wf() ==> final(self).wf(),
            final(self).desktop_index == old(self).desktop_index,
            final(self).disk_cache_dir == old(self).disk_cache_dir,
            final(self).desktop_files == old(self).desktop_files,
    {
        let name = find_icon_name(&self.desktop_index, key.as_str());
        let res = resolve_found(name, present);
        let text = cache_content(&res);
        self.remember(key, &res);
        (res, text)
    }
}

/// What was just remembered is found again: a lookup of the same key right
/// after storing it gives the stored result, and the key is the most
/// recently used.
pub proof fn lemma_remember_then_lookup(old: Map<Seq<char>, IconModel>, order: Seq<Seq<char>>, k: Seq<char>, v: IconModel,
    new: Map<Seq<char>, IconModel>)
    requires
        forall|e: Seq<char>| #[trigger] old.contains_key(e) <==> order.contains(e),
        put_effect(old, order, LRU_CAPACITY as nat, k, v, new),
    ensures
        new.contains_key(k),
        new[k] == v,
        put_order(old, order, LRU_CAPACITY as nat, k).last() == k,
{
}

/// A key that was looked up and found becomes the most recently used, and
/// the others keep their order.
pub proof fn lemma_touch_last(o: Seq<Seq<char>>, k: Seq<char>)
    requires
        o.contains(k),
    ensures
        touch(o, k).last() == k,
        touch(o, k).drop_last() == without(o, k),
{
    assert(without(o, k).push(k).drop_last() =~= without(o, k));
}

/// Storing never pushes the cache beyond its capacity, and when a new key
/// finds the cache full, the entry dropped is the least recently used one.
pub proof fn lemma_put_bounded(old: Map<Seq<char>, IconModel>, order: Seq<Seq<char>>, k: Seq<char>, v: IconModel,
    new: Map<Seq<char>, IconModel>)
    requires
        old.dom().finite(),
        old.dom().len() <= LRU_CAPACITY,
        forall|e: Seq<char>| #[trigger] old.contains_key(e) <==> order.contains(e),
        put_effect(old, order, LRU_CAPACITY as nat, k, v, new),
    ensures
        new.dom().finite(),
        new.dom().len() <= LRU_CAPACITY,
        !old.contains_key(k) && old.dom().len() == LRU_CAPACITY ==>
            order.len() > 0 && old.contains_key(order[0]) && !new.contains_key(order[0]),
{
    if old.contains_key(k) {
        assert(new.dom() =~= old.dom().insert(k));
        assert(old.dom().insert(k) =~= old.dom());
    } else if old.dom().len() < LRU_CAPACITY {
        assert(new.dom() =~= old.dom().insert(k));
    } else {
        assert(old.dom().len() > 0);
        let e = old.dom().choose();
        assert(old.contains_key(e));
        assert(order.contains(e));
        assert(order.len() > 0);
        assert(order.contains(order[0]));
        assert(old.contains_key(order[0]));
        assert(new.dom() =~= old.dom().remove(order[0]).insert(k));
        assert(k != order[0]);
    }
}

} // verus!
