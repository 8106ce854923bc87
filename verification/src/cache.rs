//! A small first-in-first-out cache of decoded covers, keyed by picture URL.
use vstd::prelude::*;
use crate::graphics::ImageMatrix;

verus! {

/// Whether two covers hold the same size, theme color and pixels.
pub open spec fn same_image(a: ImageMatrix, b: ImageMatrix) -> bool {
    a.width == b.width && a.height == b.height && a.theme_color == b.theme_color && a.rgb_data@
        == b.rgb_data@
}

/// Whether a key is among the keys of `entries`.
pub open spec fn has_key(entries: Seq<(String, ImageMatrix)>, key: Seq<char>) -> bool {
    exists|i: int| 0 <= i < entries.len() && #[trigger] entries[i].0@ == key
}

/// Cached covers in the order they were inserted, oldest first; no key twice.
///
/// The entries live in one list of (URL, cover) pairs rather than a queue of
/// keys beside a hash map: vstd's specifications of `HashMap` hold only for key
/// types known to obey its key model, and `String` is not among them (only an
/// `assume` could add it), so lookups by URL would prove nothing.
pub struct CoverCache {
    entries: Vec<(String, ImageMatrix)>,
    max_capacity: usize,
}

/// The entries after inserting `key`: a key already present changes nothing; a
/// new key goes last, after the oldest entry is dropped if the cache is full.
pub open spec fn inserted(entries: Seq<(String, ImageMatrix)>, capacity: nat, key: String, value: ImageMatrix) -> Seq<(String, ImageMatrix)> {
    if has_key(entries, key@) {
        entries
    } else if entries.len() >= capacity && entries.len() > 0 {
        entries.drop_first().push((key, value))
    } else {
        entries.push((key, value))
    }
}

impl CoverCache {
    /// The cached entries, oldest first.
    pub closed spec fn entries(&self) -> Seq<(String, ImageMatrix)> {
        self.entries@
    }

    /// The number of entries the cache keeps (at least one is always kept).
    pub closed spec fn capacity(&self) -> nat {
        self.max_capacity as nat
    }

    /// No key occurs twice.
    pub closed spec fn wf(&self) -> bool {
        forall|i: int, j: int|
            0 <= i < j < self.entries@.len() ==> #[trigger] self.entries@[i].0@ != #[trigger] self.entries@[j].0@
    }

    /// An empty cache that keeps up to `capacity` covers.
    pub fn new(capacity: usize) -> (cache: CoverCache)
        ensures
            cache.wf(),
            cache.entries() == Seq::<(String, ImageMatrix)>::empty(),
            cache.capacity() == capacity,
    {
        CoverCache { entries: Vec::new(), max_capacity: capacity }
    }

    fn find(&self, key: &String) -> (r: Option<usize>)
        ensures
            r matches Some(i) ==> i < self.entries@.len() && self.entries@[i as int].0@ == key@,
            r is None ==> !has_key(self.entries@, key@),
    {
        let mut i: usize = 0;
        while i < self.entries.len()
            invariant
                i <= self.entries@.len(),
                forall|j: int| 0 <= j < i ==> #[trigger] self.entries@[j].0@ != key@,
            decreases self.entries@.len() - i,
        {
            if self.entries[i].0 == *key {
                return Some(i);
            }
            i = i + 1;
        }
        None
    }

    /// A copy of the cover cached under `key`, if any.
    pub fn get(&self, key: &str) -> (found: Option<ImageMatrix>)
        requires
            self.wf(),
        ensures
            found is None <==> !has_key(self.entries(), key@),
            found matches Some(m) ==> exists|i: int|
                0 <= i < self.entries().len() && self.entries()[i].0@ == key@ && same_image(
                    m,
                    #[trigger] self.entries()[i].1,
                ),
    {
        let k = String::from_str(key);
        match self.find(&k) {
            Some(i) => {
                let m = self.entries[i].1.clone();
                assert(same_image(m, self.entries()[i as int].1));
                Some(m)
            },
            None => None,
        }
    }

    /// Caches a cover under `key`, unless the key is already cached; when the
    /// cache is full, the oldest cover is dropped first.
    pub fn insert(&mut self, key: String, value: ImageMatrix)
        requires
            old(self).wf(),
        ensures
            final(self).wf(),
            final(self).capacity() == old(self).capacity(),
            final(self).entries() == inserted(old(self).entries(), old(self).capacity(), key, value),
    {
        if self.find(&key).is_some() {
            return;
        }
        let ghost e0 = self.entries@;
        if self.entries.len() >= self.max_capacity && self.entries.len() > 0 {
            self.entries.remove(0);
            assert(self.entries@ =~= e0.drop_first());
        }
        self.entries.push((key, value));
        proof {
            assert forall|i: int, j: int|
                0 <= i < j < self.entries@.len() implies #[trigger] self.entries@[i].0@ != #[trigger] self.entries@[j].0@ by {
                if j == self.entries@.len() - 1 {
                    if e0.len() >= self.max_capacity && e0.len() > 0 {
                        assert(self.entries@[i] == e0[i + 1]);
                    } else {
                        assert(self.entries@[i] == e0[i]);
                    }
                } else {
                    if e0.len() >= self.max_capacity && e0.len() > 0 {
                        assert(self.entries@[i] == e0[i + 1]);
                        assert(self.entries@[j] == e0[j + 1]);
                    }
                }
            }
        }
    }
}

/// After a new key is inserted, the cache finds the inserted cover under it.
pub proof fn insert_then_find(entries: Seq<(String, ImageMatrix)>, capacity: nat, key: String, value: ImageMatrix)
    requires
        !has_key(entries, key@),
    ensures
        has_key(inserted(entries, capacity, key, value), key@),
        inserted(entries, capacity, key, value).last() == (key, value),
{
    let r = inserted(entries, capacity, key, value);
    assert(r[r.len() - 1].0@ == key@);
}

/// The cache never holds more covers than its capacity, nor fewer than one once
/// something was inserted.
pub proof fn insert_keeps_size(entries: Seq<(String, ImageMatrix)>, capacity: nat, key: String, value: ImageMatrix)
    requires
        entries.len() <= if capacity == 0 { 1 } else { capacity },
    ensures
        inserted(entries, capacity, key, value).len() <= if capacity == 0 { 1 } else { capacity },
        inserted(entries, capacity, key, value).len() >= 1,
{
    if has_key(entries, key@) {
        let i = choose|i: int| 0 <= i < entries.len() && #[trigger] entries[i].0@ == key@;
    }
}

/// Inserting a key that is already cached changes nothing.
pub proof fn insert_existing_is_noop(entries: Seq<(String, ImageMatrix)>, capacity: nat, key: String, value: ImageMatrix)
    requires
        has_key(entries, key@),
    ensures
        inserted(entries, capacity, key, value) == entries,
{
}


/// Inserting a new key into a full cache drops exactly the oldest entry: every
/// other entry stays, in order, the new one comes last, the size stays the
/// same, and the oldest key is no longer cached. Into a cache with room, the new
/// entry is added last and every entry stays.
pub proof fn full_cache_drops_the_oldest(entries: Seq<(String, ImageMatrix)>, capacity: nat, key: String, value: ImageMatrix)
    requires
        !has_key(entries, key@),
        forall|i: int, j: int|
            0 <= i < j < entries.len() ==> #[trigger] entries[i].0@ != #[trigger] entries[j].0@,
    ensures
        ({
            let r = inserted(entries, capacity, key, value);
            &&& r.last() == (key, value)
            &&& entries.len() >= capacity && entries.len() > 0 ==> {
                &&& r.len() == entries.len()
                &&& forall|i: int| 1 <= i < entries.len() ==> #[trigger] r[i - 1] == entries[i]
                &&& !has_key(r, entries[0].0@)
            }
            &&& !(entries.len() >= capacity && entries.len() > 0) ==> {
                &&& r.len() == entries.len() + 1
                &&& forall|i: int| 0 <= i < entries.len() ==> #[trigger] r[i] == entries[i]
            }
        }),
{
    let r = inserted(entries, capacity, key, value);
    if entries.len() >= capacity && entries.len() > 0 {
        assert forall|i: int| 1 <= i < entries.len() implies #[trigger] r[i - 1] == entries[i] by {
            assert(r[i - 1] == entries.drop_first()[i - 1]);
        }
        if has_key(r, entries[0].0@) {
            let k = choose|k: int| 0 <= k < r.len() && #[trigger] r[k].0@ == entries[0].0@;
            if k < r.len() - 1 {
                assert(r[k] == entries[k + 1]);
                assert(entries[0].0@ != entries[k + 1].0@);
            } else {
                assert(r[k] == (key, value));
                assert(entries[0].0@ == key@);
                assert(has_key(entries, key@));
            }
        }
    }
}

} // verus!
