//! Bounded in-process mirror of recently touched items.
//!
//! Capacity is fixed at 100 entries, held most-recently-written-first.
//! Writes re-promote an entry; reads never do.

use vstd::prelude::*;
use crate::item::{ClipboardItem, ItemModel};
use crate::strutil::str_eq;

verus! {

/// Most entries the cache ever holds.
pub const CACHE_CAPACITY: usize = 100;

/// Whether some entry of `s` carries `id`.
pub open spec fn contains_id(s: Seq<ItemModel>, id: Seq<char>) -> bool {
    exists|k: int| 0 <= k < s.len() && s[k].id == id
}

/// No two entries of `s` share an id.
pub open spec fn unique_ids(s: Seq<ItemModel>) -> bool {
    forall|i: int, j: int| 0 <= i < j < s.len() ==> s[i].id != s[j].id
}

/// `s` with every entry carrying `id` removed, order preserved.
pub open spec fn remove_id(s: Seq<ItemModel>, id: Seq<char>) -> Seq<ItemModel>
    decreases s.len(),
{
    if s.len() == 0 {
        s
    } else if s[0].id == id {
        remove_id(s.drop_first(), id)
    } else {
        seq![s[0]] + remove_id(s.drop_first(), id)
    }
}

/// What the cache holds after an upsert of `item` into `s`: the duplicate
/// (if any) goes, the back entry goes when the cache is full, and `item`
/// arrives at the front.
pub open spec fn spec_upsert(s: Seq<ItemModel>, item: ItemModel) -> Seq<ItemModel> {
    let w = remove_id(s, item.id);
    let t = if w.len() >= CACHE_CAPACITY as int {
        w.take(CACHE_CAPACITY as int - 1)
    } else {
        w
    };
    seq![item] + t
}

proof fn lemma_remove_id_absent(s: Seq<ItemModel>, id: Seq<char>)
    requires
        !contains_id(s, id),
    ensures
        remove_id(s, id) == s,
    decreases s.len(),
{
    if s.len() > 0 {
        assert(!contains_id(s.drop_first(), id)) by {
            if contains_id(s.drop_first(), id) {
                let k = choose|k: int|
                    0 <= k < s.drop_first().len() && s.drop_first()[k].id == id;
                assert(s[k + 1].id == id);
            }
        }
        lemma_remove_id_absent(s.drop_first(), id);
        assert(remove_id(s, id) =~= s);
    }
}

proof fn lemma_remove_id_present(s: Seq<ItemModel>, id: Seq<char>, k: int)
    requires
        unique_ids(s),
        0 <= k < s.len(),
        s[k].id == id,
    ensures
        remove_id(s, id) == s.remove(k),
    decreases s.len(),
{
    if k == 0 {
        assert(!contains_id(s.drop_first(), id)) by {
            if contains_id(s.drop_first(), id) {
                let j = choose|j: int|
                    0 <= j < s.drop_first().len() && s.drop_first()[j].id == id;
                assert(s[0].id == s[j + 1].id);
            }
        }
        lemma_remove_id_absent(s.drop_first(), id);
        assert(remove_id(s, id) =~= s.remove(0));
    } else {
        assert(s[0].id != id);
        lemma_remove_id_present(s.drop_first(), id, k - 1);
        assert(remove_id(s, id) =~= s.remove(k)) by {
            assert(s.drop_first().remove(k - 1) =~= s.remove(k).drop_first());
        }
    }
}

proof fn lemma_remove_id_unique(s: Seq<ItemModel>, id: Seq<char>)
    requires
        unique_ids(s),
    ensures
        unique_ids(remove_id(s, id)),
        !contains_id(remove_id(s, id), id),
        remove_id(s, id).len() == if contains_id(s, id) {
            s.len() - 1
        } else {
            s.len() as int
        },
        forall|k: int|
            0 <= k < remove_id(s, id).len() ==> contains_id(s, #[trigger] remove_id(s, id)[k].id),
{
    if contains_id(s, id) {
        let k = choose|k: int| 0 <= k < s.len() && s[k].id == id;
        lemma_remove_id_present(s, id, k);
        let r = s.remove(k);
        assert forall|j: int| 0 <= j < r.len() implies r[j].id != id && contains_id(
            s,
            #[trigger] r[j].id,
        ) by {
            if j < k {
                assert(r[j] == s[j]);
            } else {
                assert(r[j] == s[j + 1]);
            }
        }
        assert forall|i: int, j: int| 0 <= i < j < r.len() implies r[i].id != r[j].id by {
            let si = if i < k { i } else { i + 1 };
            let sj = if j < k { j } else { j + 1 };
            assert(r[i] == s[si] && r[j] == s[sj]);
        }
    } else {
        lemma_remove_id_absent(s, id);
    }
}

/// Bounded cache of clipboard items, front entry touched most recently.
pub struct Cache {
    entries: Vec<ClipboardItem>,
}

impl View for Cache {
    type V = Seq<ItemModel>;

    closed spec fn view(&self) -> Seq<ItemModel> {
        self.entries@.map(|k: int, e: ClipboardItem| e@)
    }
}

impl Cache {
    /// The cache never exceeds its capacity and never holds an id twice.
    pub open spec fn wf(&self) -> bool {
        self@.len() <= CACHE_CAPACITY as int && unique_ids(self@)
    }

    /// An empty cache.
    pub fn new() -> (cache: Cache)
        ensures
            cache@ == Seq::<ItemModel>::empty(),
            cache.wf(),
    {
        let cache = Cache { entries: Vec::new() };
        proof {
            assert(cache@ =~= Seq::<ItemModel>::empty());
        }
        cache
    }

    /// How many entries the cache holds.
    pub fn len(&self) -> (n: usize)
        ensures
            n == self@.len(),
    {
        self.entries.len()
    }

    /// Index of the entry carrying `id`, if one is present.
    fn find_index(&self, id: &str) -> (r: Option<usize>)
        ensures
            match r {
                Some(k) => k < self@.len() && self@[k as int].id == id@,
                None => !contains_id(self@, id@),
            },
    {
        let n = self.entries.len();
        let mut i: usize = 0;
        while i < n
            invariant
                n == self@.len(),
                i <= n,
                forall|k: int| 0 <= k < i ==> self@[k].id != id@,
            decreases n - i,
        {
            if str_eq(self.entries[i].id.as_str(), id) {
                return Some(i);
            }
            i = i + 1;
        }
        None
    }

    /// Remove any entry sharing the id, evict the back entry when full,
    /// then put `item` at the front. Re-upserting an id already present
    /// never changes the length.
    pub fn upsert(&mut self, item: ClipboardItem)
        requires
            old(self).wf(),
        ensures
            final(self).wf(),
            final(self)@ == spec_upsert(old(self)@, item@),
            final(self)@.len() <= CACHE_CAPACITY as int,
            contains_id(old(self)@, item@.id) ==> final(self)@.len() == old(self)@.len(),
    {
        let ghost s0 = self@;
        let ghost idv = item@.id;
        match self.find_index(item.id.as_str()) {
            Some(k) => {
                proof {
                    lemma_remove_id_present(s0, idv, k as int);
                    lemma_remove_id_unique(s0, idv);
                }
                self.entries.remove(k);
                proof {
                    assert(self@ =~= s0.remove(k as int));
                }
            },
            None => {
                proof {
                    lemma_remove_id_absent(s0, idv);
                }
                if self.entries.len() >= CACHE_CAPACITY {
                    self.entries.pop();
                    proof {
                        assert(self@ =~= s0.take(s0.len() - 1));
                        assert(s0.take(s0.len() - 1) =~= s0.take(CACHE_CAPACITY as int - 1));
                    }
                }
            },
        }
        let ghost w = self@;
        self.entries.insert(0, item);
        proof {
            assert(self@ =~= seq![item@] + w);
            lemma_remove_id_unique(s0, idv);
            assert(final(self)@ == spec_upsert(s0, item@)) by {
                if contains_id(s0, idv) {
                    assert(w == remove_id(s0, idv));
                } else {
                    if s0.len() >= CACHE_CAPACITY as int {
                        assert(w =~= remove_id(s0, idv).take(CACHE_CAPACITY as int - 1));
                    }
                }
                assert(self@ =~= spec_upsert(s0, item@));
            }
            assert(unique_ids(self@)) by {
                assert forall|i: int, j: int| 0 <= i < j < self@.len() implies self@[i].id
                    != self@[j].id by {
                    if contains_id(s0, idv) {
                        assert(w == remove_id(s0, idv));
                    } else {
                        if s0.len() >= CACHE_CAPACITY as int {
                            assert(forall|k: int|
                                0 <= k < w.len() ==> w[k] == remove_id(s0, idv)[k]);
                        }
                    }
                    assert(self@[j] == w[j - 1]);
                    if i > 0 {
                        assert(self@[i] == w[i - 1]);
                    }
                }
            }
        }
    }

    /// The entry carrying `id`, if one is present; reads never re-promote.
    pub fn get(&self, id: &str) -> (r: Option<&ClipboardItem>)
        ensures
            match r {
                Some(e) => contains_id(self@, id@) && e@.id == id@ && exists|k: int|
                    0 <= k < self@.len() && self@[k] == e@,
                None => !contains_id(self@, id@),
            },
    {
        match self.find_index(id) {
            Some(k) => Some(&self.entries[k]),
            None => None,
        }
    }

    /// Evict the entry carrying `id`, if any.
    pub fn remove(&mut self, id: &str)
        requires
            old(self).wf(),
        ensures
            final(self).wf(),
            final(self)@ == remove_id(old(self)@, id@),
    {
        let ghost s0 = self@;
        proof {
            lemma_remove_id_unique(s0, id@);
        }
        match self.find_index(id) {
            Some(k) => {
                proof {
                    lemma_remove_id_present(s0, id@, k as int);
                }
                self.entries.remove(k);
                proof {
                    assert(self@ =~= s0.remove(k as int));
                }
            },
            None => {
                proof {
                    lemma_remove_id_absent(s0, id@);
                }
            },
        }
    }

    /// Copies of all entries, front (most recent) first.
    pub fn all(&self) -> (r: Vec<ClipboardItem>)
        ensures
            r@.len() == self@.len(),
            forall|k: int| 0 <= k < r@.len() ==> (#[trigger] r@[k])@ == self@[k],
    {
        let n = self.entries.len();
        let mut r: Vec<ClipboardItem> = Vec::new();
        let mut i: usize = 0;
        while i < n
            invariant
                n == self@.len(),
                i <= n,
                r@.len() == i,
                forall|k: int| 0 <= k < i ==> (#[trigger] r@[k])@ == self@[k],
            decreases n - i,
        {
            r.push(self.entries[i].duplicate());
            i = i + 1;
        }
        r
    }

    /// Drop every entry.
    pub fn clear(&mut self)
        ensures
            final(self)@ == Seq::<ItemModel>::empty(),
            final(self).wf(),
    {
        self.entries.clear();
        proof {
            assert(self@ =~= Seq::<ItemModel>::empty());
        }
    }
}

} // verus!
