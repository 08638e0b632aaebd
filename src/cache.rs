use crate::geometry::Rect;
use lru::LruCache;
use std::collections::hash_map::RandomState;
use vstd::prelude::*;

verus! {

/// Where a glyph bitmap sits relative to its pen position, and its size, as
/// the rasteriser reports them.
#[derive(Clone, Copy, Debug, PartialEq, Eq, Structural)]
pub struct GlyphPlacement {
    pub left: i32,
    pub top: i32,
    pub width: u32,
    pub height: u32,
}

/// A glyph packed into the surface: its allocation, its placement, and
/// whether it is a coverage mask that may be tinted.
#[derive(Clone, Copy, Debug, PartialEq, Eq, Structural)]
pub struct GlyphState {
    pub alloc_id: u32,
    pub rect: Rect,
    pub placement: GlyphPlacement,
    pub colorable: bool,
}

/// A cache entry: a packed glyph, or `None` for a glyph known to be empty.
pub type Entry = Option<GlyphState>;

pub type GlyphCache = LruCache<u64, Entry, RandomState>;

#[verifier::external_type_specification]
#[verifier::external_body]
#[verifier::reject_recursive_types(K)]
#[verifier::reject_recursive_types(V)]
#[verifier::reject_recursive_types(S)]
pub struct ExLruCache<K, V, S>(LruCache<K, V, S>);

/// The entries of the cache, least recently used first.
pub uninterp spec fn cache_entries(c: GlyphCache) -> Seq<(u64, Entry)>;

/// `s` without the entry under key `k`.
pub open spec fn remove_key(s: Seq<(u64, Entry)>, k: u64) -> Seq<(u64, Entry)>
    decreases s.len(),
{
    if s.len() == 0 {
        s
    } else if s[0].0 == k {
        remove_key(s.drop_first(), k)
    } else {
        seq![s[0]] + remove_key(s.drop_first(), k)
    }
}

/// The value under key `k`, if any.
pub open spec fn lookup(s: Seq<(u64, Entry)>, k: u64) -> Option<Entry>
    decreases s.len(),
{
    if s.len() == 0 {
        None
    } else if s[0].0 == k {
        Some(s[0].1)
    } else {
        lookup(s.drop_first(), k)
    }
}

/// `s` after storing `v` under `k` as the most recently used entry.
pub open spec fn after_put(s: Seq<(u64, Entry)>, k: u64, v: Entry) -> Seq<(u64, Entry)> {
    remove_key(s, k).push((k, v))
}

/// `s` after marking the entry under `k`, if any, as the most recently used.
pub open spec fn after_promote(s: Seq<(u64, Entry)>, k: u64) -> Seq<(u64, Entry)> {
    match lookup(s, k) {
        Some(v) => after_put(s, k, v),
        None => s,
    }
}

pub open spec fn keys_unique(s: Seq<(u64, Entry)>) -> bool {
    forall|i: int, j: int| 0 <= i < j < s.len() ==> #[trigger] s[i].0 != #[trigger] s[j].0
}

/// Relies on `LruCache::unbounded_with_hasher`: an empty cache with no entry limit.
#[verifier::external_body]
pub(crate) fn cache_new() -> (r: GlyphCache)
    ensures
        cache_entries(r).len() == 0,
{
    LruCache::unbounded_with_hasher(RandomState::new())
}

/// Relies on `LruCache::peek`: the value under `k`, order unchanged.
#[verifier::external_body]
pub(crate) fn cache_peek(c: &GlyphCache, k: u64) -> (r: Option<Entry>)
    ensures
        r == lookup(cache_entries(*c), k),
{
    c.peek(&k).copied()
}

/// Relies on `LruCache::peek_lru`: the least recently used entry, order unchanged.
#[verifier::external_body]
pub(crate) fn cache_peek_lru(c: &GlyphCache) -> (r: Option<(u64, Entry)>)
    ensures
        r == (if cache_entries(*c).len() == 0 {
            None
        } else {
            Some(cache_entries(*c)[0])
        }),
{
    c.peek_lru().map(|(k, v): (&u64, &Entry)| (*k, *v))
}

/// Relies on `LruCache::pop_lru`: removes and returns the least recently used entry.
#[verifier::external_body]
pub(crate) fn cache_pop_lru(c: &mut GlyphCache) -> (r: Option<(u64, Entry)>)
    ensures
        cache_entries(*old(c)).len() == 0 ==> r.is_none() && cache_entries(*final(c))
            == cache_entries(*old(c)),
        cache_entries(*old(c)).len() > 0 ==> r == Some(cache_entries(*old(c))[0])
            && cache_entries(*final(c)) == cache_entries(*old(c)).drop_first(),
{
    c.pop_lru()
}

/// Relies on `LruCache::put` on an unbounded cache: stores `v` under `k`,
/// replacing any earlier value, as the most recently used entry.
#[verifier::external_body]
pub(crate) fn cache_put(c: &mut GlyphCache, k: u64, v: Entry)
    ensures
        cache_entries(*final(c)) == after_put(cache_entries(*old(c)), k, v),
{
    c.put(k, v);
}

/// Relies on `LruCache::promote`: marks the entry under `k`, if any, as the most
/// recently used.
#[verifier::external_body]
pub(crate) fn cache_promote(c: &mut GlyphCache, k: u64)
    ensures
        cache_entries(*final(c)) == after_promote(cache_entries(*old(c)), k),
{
    c.promote(&k);
}

/// Relies on `LruCache::iter`, walked from its back: all entries, least
/// recently used first.
#[verifier::external_body]
pub(crate) fn cache_to_vec(c: &GlyphCache) -> (r: Vec<(u64, Entry)>)
    ensures
        r@ == cache_entries(*c),
{
    c.iter().rev().map(|(k, v): (&u64, &Entry)| (*k, *v)).collect()
}

pub proof fn lemma_remove_key(s: Seq<(u64, Entry)>, k: u64)
    ensures
        lookup(remove_key(s, k), k).is_none(),
        forall|j: u64| j != k ==> lookup(remove_key(s, k), j) == lookup(s, j),
        keys_unique(s) ==> keys_unique(remove_key(s, k)),
        forall|e: (u64, Entry)| remove_key(s, k).contains(e) ==> s.contains(e),
        remove_key(s, k).len() <= s.len(),
    decreases s.len(),
{
    if s.len() > 0 {
        let t = s.drop_first();
        lemma_remove_key(t, k);
        let rt = remove_key(t, k);
        if s[0].0 != k {
            let r = seq![s[0]] + rt;
            assert(r.drop_first() =~= rt);
            assert(r[0] == s[0]);
            assert forall|j: u64| j != k implies lookup(r, j) == lookup(s, j) by {
                assert(lookup(rt, j) == lookup(t, j));
            }
            assert forall|e: (u64, Entry)| r.contains(e) implies s.contains(e) by {
                let i = choose|i: int| 0 <= i < r.len() && r[i] == e;
                if i > 0 {
                    assert(rt.contains(e));
                    assert(rt[i - 1] == e);
                    assert(t.contains(e));
                    let m = choose|m: int| 0 <= m < t.len() && t[m] == e;
                    assert(s[m + 1] == e);
                } else {
                    assert(s[0] == e);
                }
            }
            if keys_unique(s) {
                assert forall|i: int, j: int| 0 <= i < j < r.len() implies #[trigger] r[i].0
                    != #[trigger] r[j].0 by {
                    if i == 0 {
                        assert(rt.contains(r[j]));
                        assert(t.contains(r[j]));
                        let m = choose|m: int| 0 <= m < t.len() && t[m] == r[j];
                        assert(s[m + 1] == r[j]);
                    } else {
                        assert(r[i] == rt[i - 1] && r[j] == rt[j - 1]);
                    }
                }
            }
        } else {
            assert forall|j: u64| j != k implies lookup(rt, j) == lookup(s, j) by {
                assert(lookup(rt, j) == lookup(t, j));
            }
            assert forall|e: (u64, Entry)| rt.contains(e) implies s.contains(e) by {
                assert(t.contains(e));
                let m = choose|m: int| 0 <= m < t.len() && t[m] == e;
                assert(s[m + 1] == e);
            }
        }
        assert(keys_unique(s) ==> keys_unique(t)) by {
            if keys_unique(s) {
                assert forall|i: int, j: int| 0 <= i < j < t.len() implies #[trigger] t[i].0
                    != #[trigger] t[j].0 by {
                    assert(t[i] == s[i + 1] && t[j] == s[j + 1]);
                }
            }
        }
    }
}

pub proof fn lemma_lookup(s: Seq<(u64, Entry)>, k: u64)
    ensures
        lookup(s, k).is_none() <==> (forall|i: int| 0 <= i < s.len() ==> #[trigger] s[i].0 != k),
        lookup(s, k).is_some() ==> s.contains((k, lookup(s, k).unwrap())),
        keys_unique(s) ==> forall|i: int|
            0 <= i < s.len() && #[trigger] s[i].0 == k ==> lookup(s, k) == Some(s[i].1),
    decreases s.len(),
{
    if s.len() > 0 {
        let t = s.drop_first();
        lemma_lookup(t, k);
        if s[0].0 != k {
            assert forall|i: int| 0 <= i < t.len() implies #[trigger] t[i] == s[i + 1] by {}
            if lookup(t, k).is_some() {
                let m = choose|m: int| 0 <= m < t.len() && t[m] == (k, lookup(t, k).unwrap());
                assert(s[m + 1] == t[m]);
            }
            if lookup(t, k).is_none() {
                assert forall|i: int| 0 <= i < s.len() implies #[trigger] s[i].0 != k by {
                    if i > 0 {
                        assert(s[i] == t[i - 1]);
                    }
                }
            }
            if keys_unique(s) {
                assert(keys_unique(t)) by {
                    assert forall|i: int, j: int| 0 <= i < j < t.len() implies #[trigger] t[i].0
                        != #[trigger] t[j].0 by {
                        assert(t[i] == s[i + 1] && t[j] == s[j + 1]);
                    }
                }
                assert forall|i: int| 0 <= i < s.len() && #[trigger] s[i].0 == k implies lookup(
                    s,
                    k,
                ) == Some(s[i].1) by {
                    assert(s[i] == t[i - 1]);
                }
            }
        } else {
            assert(s.contains(s[0]));
            if keys_unique(s) {
                assert forall|i: int| 0 <= i < s.len() && #[trigger] s[i].0 == k implies lookup(
                    s,
                    k,
                ) == Some(s[i].1) by {
                    if i > 0 {
                        assert(s[0].0 != s[i].0);
                    }
                }
            }
        }
    }
}

/// After storing `v` under `k`, looking `k` up gives `v`, and every other key
/// keeps its value.
pub proof fn lemma_after_put(s: Seq<(u64, Entry)>, k: u64, v: Entry)
    ensures
        lookup(after_put(s, k, v), k) == Some(v),
        forall|j: u64| j != k ==> lookup(after_put(s, k, v), j) == lookup(s, j),
        keys_unique(s) ==> keys_unique(after_put(s, k, v)),
        forall|e: (u64, Entry)| #[trigger]
            after_put(s, k, v).contains(e) ==> e == (k, v) || s.contains(e),
{
    let r = remove_key(s, k);
    lemma_remove_key(s, k);
    lemma_lookup(r, k);
    lemma_lookup_push(r, k, v);
    let a = after_put(s, k, v);
    assert forall|e: (u64, Entry)| #[trigger] a.contains(e) implies e == (k, v) || s.contains(e) by {
        let i = choose|i: int| 0 <= i < a.len() && a[i] == e;
        if i < r.len() {
            assert(r.contains(e));
        }
    }
    if keys_unique(s) {
        assert forall|i: int, j: int| 0 <= i < j < a.len() implies #[trigger] a[i].0
            != #[trigger] a[j].0 by {
            if j == r.len() {
                assert(r[i].0 != k);
            } else {
                assert(a[i] == r[i] && a[j] == r[j]);
            }
        }
    }
}

proof fn lemma_lookup_push(r: Seq<(u64, Entry)>, k: u64, v: Entry)
    requires
        lookup(r, k).is_none(),
    ensures
        lookup(r.push((k, v)), k) == Some(v),
        forall|j: u64| j != k ==> lookup(r.push((k, v)), j) == lookup(r, j),
    decreases r.len(),
{
    if r.len() > 0 {
        let p = r.push((k, v));
        assert(p.drop_first() =~= r.drop_first().push((k, v)));
        assert(p[0] == r[0]);
        lemma_lookup_push(r.drop_first(), k, v);
        assert forall|j: u64| j != k implies lookup(p, j) == lookup(r, j) by {
            assert(lookup(p.drop_first(), j) == lookup(r.drop_first(), j));
        }
    } else {
        let p = r.push((k, v));
        assert(p.drop_first().len() == 0);
        assert(p[0] == (k, v));
        assert forall|j: u64| j != k implies lookup(p, j) == lookup(r, j) by {
            assert(lookup(p.drop_first(), j) == None::<Entry>);
        }
    }
}

/// `s` after storing each of `items` in turn.
pub open spec fn put_all(s: Seq<(u64, Entry)>, items: Seq<(u64, Entry)>) -> Seq<(u64, Entry)>
    decreases items.len(),
{
    if items.len() == 0 {
        s
    } else {
        after_put(put_all(s, items.drop_last()), items.last().0, items.last().1)
    }
}

/// Storing or promoting any key other than that of the oldest entry leaves
/// that entry the oldest.
pub proof fn lemma_oldest_kept(s: Seq<(u64, Entry)>, k: u64, v: Entry)
    requires
        s.len() > 0,
        s[0].0 != k,
    ensures
        after_put(s, k, v).len() > 0,
        after_put(s, k, v)[0] == s[0],
        after_promote(s, k).len() > 0,
        after_promote(s, k)[0] == s[0],
{
    let r = remove_key(s, k);
    assert(r == seq![s[0]] + remove_key(s.drop_first(), k));
    assert(r[0] == s[0]);
    assert(after_put(s, k, v)[0] == r[0]);
    match lookup(s, k) {
        Some(w) => {
            assert(after_put(s, k, w)[0] == r[0]);
        },
        None => {},
    }
}

/// Keys stored in turn into an empty cache, none of them again, leave the
/// first of them the least recently used entry.
pub proof fn lemma_first_put_is_oldest(items: Seq<(u64, Entry)>)
    requires
        items.len() > 0,
        keys_unique(items),
    ensures
        put_all(Seq::empty(), items).len() > 0,
        put_all(Seq::empty(), items)[0] == items[0],
    decreases items.len(),
{
    let init = items.drop_last();
    let last = items.last();
    if init.len() == 0 {
        let e: Seq<(u64, Entry)> = Seq::empty();
        assert(put_all(e, init) == e);
        assert(remove_key(e, last.0) == e);
        assert(after_put(e, last.0, last.1) == seq![last]);
    } else {
        assert(keys_unique(init)) by {
            assert forall|i: int, j: int| 0 <= i < j < init.len() implies #[trigger] init[i].0
                != #[trigger] init[j].0 by {
                assert(init[i] == items[i] && init[j] == items[j]);
            }
        }
        lemma_first_put_is_oldest(init);
        assert(items[0] != last || items.len() == 1);
        assert(items[0].0 != items[items.len() - 1].0);
        lemma_oldest_kept(put_all(Seq::empty(), init), last.0, last.1);
    }
}

} // verus!
