//! In-memory model of the persistent store: clipboard rows with their
//! sync status, the last-sync timestamp, and the bound-device list.
//!
//! Reconciliation is strict last-write-wins on `updated_at`: an incoming
//! remote item replaces the local row only when strictly newer; `id` and
//! `created_at` never change. Wall clocks order the writes, so clock skew
//! between devices can make an objectively later edit lose; that is a
//! known limitation of the policy, not of this implementation.

use vstd::prelude::*;
use crate::item::{ClipboardItem, ItemModel};
use crate::devices::{
    DeviceInfo, DeviceModel, MAX_BOUND_DEVICES, contains_device_id, unique_device_ids,
    remove_device_id,
};
use crate::error::SyncError;
use crate::strutil::str_eq;

verus! {

/// Mathematical model of one stored row with its sync status.
#[verifier::ext_equal]
pub ghost struct RowModel {
    pub item: ItemModel,
    pub is_synced: bool,
    pub last_sync_attempt: int,
}

/// Mathematical model of the whole store.
#[verifier::ext_equal]
pub ghost struct StoreModel {
    pub rows: Seq<RowModel>,
    pub last_sync: Option<int>,
    pub devices: Seq<DeviceModel>,
}

/// One clipboard row together with its sync status; the status row is
/// created with the item and goes away with it.
pub struct StoredRow {
    pub item: ClipboardItem,
    pub is_synced: bool,
    pub last_sync_attempt: i64,
}

impl View for StoredRow {
    type V = RowModel;

    open spec fn view(&self) -> RowModel {
        RowModel {
            item: self.item@,
            is_synced: self.is_synced,
            last_sync_attempt: self.last_sync_attempt as int,
        }
    }
}

/// Whether some row of `s` carries an item with `id`.
pub open spec fn contains_row_id(s: Seq<RowModel>, id: Seq<char>) -> bool {
    exists|k: int| 0 <= k < s.len() && s[k].item.id == id
}

/// No two rows of `s` share an item id.
pub open spec fn unique_row_ids(s: Seq<RowModel>) -> bool {
    forall|i: int, j: int| 0 <= i < j < s.len() ==> s[i].item.id != s[j].item.id
}

/// The index of the row carrying `id`.
pub open spec fn row_index(s: Seq<RowModel>, id: Seq<char>) -> int {
    choose|k: int| 0 <= k < s.len() && s[k].item.id == id
}

/// `s` with every row carrying `id` removed, order preserved.
pub open spec fn remove_row_id(s: Seq<RowModel>, id: Seq<char>) -> Seq<RowModel>
    decreases s.len(),
{
    if s.len() == 0 {
        s
    } else if s[0].item.id == id {
        remove_row_id(s.drop_first(), id)
    } else {
        seq![s[0]] + remove_row_id(s.drop_first(), id)
    }
}

/// A row freshly inserted from a remote item: the item verbatim, already
/// marked synced at `now`.
pub open spec fn new_remote_row(r: ItemModel, now: int) -> RowModel {
    RowModel { item: r, is_synced: true, last_sync_attempt: now }
}

/// A local row overwritten by a strictly newer remote item: the remote
/// mutable fields, the local `id` and `created_at`, marked synced at `now`.
pub open spec fn merged_row(local: RowModel, r: ItemModel, now: int) -> RowModel {
    RowModel {
        item: ItemModel {
            id: local.item.id,
            created_at: local.item.created_at,
            content: r.content,
            title: r.title,
            updated_at: r.updated_at,
            is_pinned: r.is_pinned,
        },
        is_synced: true,
        last_sync_attempt: now,
    }
}

/// Whether the conflict resolver accepts a remote item against the rows:
/// yes when the id is new, or when the remote copy is strictly newer.
pub open spec fn spec_accepts(rows: Seq<RowModel>, r: ItemModel) -> bool {
    if !contains_row_id(rows, r.id) {
        true
    } else {
        r.updated_at > rows[row_index(rows, r.id)].item.updated_at
    }
}

/// Last-write-wins reconciliation of one remote item against the rows.
pub open spec fn spec_reconcile(rows: Seq<RowModel>, r: ItemModel, now: int) -> Seq<RowModel> {
    if !contains_row_id(rows, r.id) {
        rows.push(new_remote_row(r, now))
    } else {
        let k = row_index(rows, r.id);
        if r.updated_at > rows[k].item.updated_at {
            rows.update(k, merged_row(rows[k], r, now))
        } else {
            rows
        }
    }
}

proof fn lemma_row_index_is(s: Seq<RowModel>, id: Seq<char>, k: int)
    requires
        unique_row_ids(s),
        0 <= k < s.len(),
        s[k].item.id == id,
    ensures
        row_index(s, id) == k,
{
    let kc = row_index(s, id);
    assert(0 <= kc < s.len() && s[kc].item.id == id);
    if kc < k {
        assert(s[kc].item.id != s[k].item.id);
    } else if k < kc {
        assert(s[k].item.id != s[kc].item.id);
    }
}

/// The store: rows, settings, and the bound-device list.
pub struct LocalStore {
    rows: Vec<StoredRow>,
    last_sync: Option<i64>,
    devices: Vec<DeviceInfo>,
}

impl View for LocalStore {
    type V = StoreModel;

    closed spec fn view(&self) -> StoreModel {
        StoreModel {
            rows: self.rows@.map(|k: int, r: StoredRow| r@),
            last_sync: match self.last_sync {
                Some(t) => Some(t as int),
                None => None,
            },
            devices: self.devices@.map(|k: int, d: DeviceInfo| d@),
        }
    }
}

impl LocalStore {
    /// Row ids are unique, device ids are unique, and the device list
    /// never exceeds its quota.
    pub open spec fn wf(&self) -> bool {
        &&& unique_row_ids(self@.rows)
        &&& unique_device_ids(self@.devices)
        &&& self@.devices.len() <= MAX_BOUND_DEVICES as int
    }

    /// An empty store: no rows, no settings entry, no bound devices.
    pub fn new() -> (store: LocalStore)
        ensures
            store@.rows == Seq::<RowModel>::empty(),
            store@.last_sync is None,
            store@.devices == Seq::<DeviceModel>::empty(),
            store.wf(),
    {
        let store = LocalStore { rows: Vec::new(), last_sync: None, devices: Vec::new() };
        proof {
            assert(store@.rows =~= Seq::<RowModel>::empty());
            assert(store@.devices =~= Seq::<DeviceModel>::empty());
        }
        store
    }

    /// Index of the row carrying `id`, if one is present.
    fn find_row(&self, id: &str) -> (r: Option<usize>)
        ensures
            match r {
                Some(k) => k < self@.rows.len() && self@.rows[k as int].item.id == id@,
                None => !contains_row_id(self@.rows, id@),
            },
    {
        let n = self.rows.len();
        let mut i: usize = 0;
        while i < n
            invariant
                n == self@.rows.len(),
                i <= n,
                forall|k: int| 0 <= k < i ==> self@.rows[k].item.id != id@,
            decreases n - i,
        {
            if str_eq(self.rows[i].item.id.as_str(), id) {
                return Some(i);
            }
            i = i + 1;
        }
        None
    }

    /// The stored row carrying `id`, if any, as a copy.
    pub fn find_item(&self, id: &str) -> (r: Option<ClipboardItem>)
        ensures
            match r {
                Some(item) => contains_row_id(self@.rows, id@) && exists|k: int|
                    0 <= k < self@.rows.len() && self@.rows[k].item == item@ && item@.id == id@,
                None => !contains_row_id(self@.rows, id@),
            },
    {
        match self.find_row(id) {
            Some(k) => Some(self.rows[k].item.duplicate()),
            None => None,
        }
    }

    /// The conflict resolver's decision for a remote item: accept when its
    /// id is unknown or its `updated_at` is strictly newer than the local
    /// row's; otherwise local state wins.
    pub fn reconcile_accepts(&self, item: &ClipboardItem) -> (accepted: bool)
        requires
            self.wf(),
        ensures
            accepted == spec_accepts(self@.rows, item@),
    {
        match self.find_row(item.id.as_str()) {
            None => true,
            Some(k) => {
                proof {
                    lemma_row_index_is(self@.rows, item@.id, k as int);
                }
                item.updated_at > self.rows[k].item.updated_at
            },
        }
    }

    /// Reconcile one remote item against the store, last-write-wins.
    ///
    /// An absent id is inserted verbatim and marked synced; a present row
    /// is overwritten only when the remote `updated_at` is strictly
    /// greater, keeping the local `id` and `created_at`; otherwise the
    /// call changes nothing and the local state wins.
    pub fn sync_item_from_remote(&mut self, item: &ClipboardItem, now: i64)
        requires
            old(self).wf(),
        ensures
            final(self).wf(),
            final(self)@.rows == spec_reconcile(old(self)@.rows, item@, now as int),
            final(self)@.last_sync == old(self)@.last_sync,
            final(self)@.devices == old(self)@.devices,
            !contains_row_id(old(self)@.rows, item@.id) ==> final(self)@.rows == old(self)@.rows.push(new_remote_row(item@, now as int)),
            forall|k: int|
                0 <= k < old(self)@.rows.len() && (#[trigger] old(self)@.rows[k]).item.id
                    == item@.id && item@.updated_at <= old(self)@.rows[k].item.updated_at ==> final(self)@.rows == old(self)@.rows,
            forall|k: int|
                0 <= k < old(self)@.rows.len() && (#[trigger] old(self)@.rows[k]).item.id
                    == item@.id && item@.updated_at > old(self)@.rows[k].item.updated_at ==> final(self)@.rows == old(self)@.rows.update(
                    k,
                    merged_row(old(self)@.rows[k], item@, now as int),
                ),
    {
        let ghost s0 = self@.rows;
        match self.find_row(item.id.as_str()) {
            None => {
                let row = StoredRow {
                    item: item.duplicate(),
                    is_synced: true,
                    last_sync_attempt: now,
                };
                self.rows.push(row);
                proof {
                    assert(self@.rows =~= s0.push(new_remote_row(item@, now as int)));
                    assert forall|i: int, j: int|
                        0 <= i < j < self@.rows.len() implies self@.rows[i].item.id
                        != self@.rows[j].item.id by {
                        if j < s0.len() {
                        } else {
                            assert(self@.rows[i].item.id != item@.id);
                        }
                    }
                }
            },
            Some(k) => {
                proof {
                    lemma_row_index_is(s0, item@.id, k as int);
                }
                if item.updated_at > self.rows[k].item.updated_at {
                    let local = &self.rows[k];
                    let merged = StoredRow {
                        item: ClipboardItem {
                            id: local.item.id.clone(),
                            content: item.content.clone(),
                            title: match &item.title {
                                Some(t) => Some(t.clone()),
                                None => None,
                            },
                            created_at: local.item.created_at,
                            updated_at: item.updated_at,
                            is_pinned: item.is_pinned,
                        },
                        is_synced: true,
                        last_sync_attempt: now,
                    };
                    proof {
                        assert(merged@ == merged_row(s0[k as int], item@, now as int));
                    }
                    self.rows.remove(k);
                    self.rows.insert(k, merged);
                    proof {
                        assert(self@.rows =~= s0.update(
                            k as int,
                            merged_row(s0[k as int], item@, now as int),
                        ));
                        assert forall|i: int, j: int|
                            0 <= i < j < self@.rows.len() implies self@.rows[i].item.id
                            != self@.rows[j].item.id by {
                            assert(s0[i].item.id != s0[j].item.id);
                            assert(self@.rows[i].item.id == s0[i].item.id);
                            assert(self@.rows[j].item.id == s0[j].item.id);
                        }
                    }
                } else {
                    proof {
                        assert(self@.rows == spec_reconcile(s0, item@, now as int));
                    }
                }
                proof {
                    assert forall|j: int|
                        0 <= j < s0.len() && (#[trigger] s0[j]).item.id == item@.id implies j
                        == k as int by {
                        lemma_row_index_is(s0, item@.id, j);
                    }
                }
            },
        }
    }

    /// Store a local add or edit: a new id is appended, a present one has
    /// its row replaced. Either way the row is flagged unsynced, so a
    /// later push can find it.
    pub fn upsert_local_item(&mut self, item: &ClipboardItem)
        requires
            old(self).wf(),
        ensures
            final(self).wf(),
            final(self)@.last_sync == old(self)@.last_sync,
            final(self)@.devices == old(self)@.devices,
            !contains_row_id(old(self)@.rows, item@.id) ==> final(self)@.rows == old(
                self,
            )@.rows.push(RowModel { item: item@, is_synced: false, last_sync_attempt: 0 }),
            forall|k: int|
                0 <= k < old(self)@.rows.len() && (#[trigger] old(self)@.rows[k]).item.id
                    == item@.id ==> final(self)@.rows == old(self)@.rows.update(
                    k,
                    RowModel {
                        item: item@,
                        is_synced: false,
                        last_sync_attempt: old(self)@.rows[k].last_sync_attempt,
                    },
                ),
    {
        let ghost s0 = self@.rows;
        match self.find_row(item.id.as_str()) {
            None => {
                self.rows.push(
                    StoredRow { item: item.duplicate(), is_synced: false, last_sync_attempt: 0 },
                );
                proof {
                    assert(self@.rows =~= s0.push(
                        RowModel { item: item@, is_synced: false, last_sync_attempt: 0 },
                    ));
                    assert forall|i: int, j: int|
                        0 <= i < j < self@.rows.len() implies self@.rows[i].item.id
                        != self@.rows[j].item.id by {
                        if j < s0.len() {
                        } else {
                            assert(self@.rows[i].item.id != item@.id);
                        }
                    }
                }
            },
            Some(k) => {
                let attempt = self.rows[k].last_sync_attempt;
                let replaced = StoredRow {
                    item: item.duplicate(),
                    is_synced: false,
                    last_sync_attempt: attempt,
                };
                self.rows.remove(k);
                self.rows.insert(k, replaced);
                proof {
                    let m = RowModel {
                        item: item@,
                        is_synced: false,
                        last_sync_attempt: s0[k as int].last_sync_attempt,
                    };
                    assert(self@.rows =~= s0.update(k as int, m));
                    assert forall|i: int, j: int|
                        0 <= i < j < self@.rows.len() implies self@.rows[i].item.id
                        != self@.rows[j].item.id by {
                        assert(s0[i].item.id != s0[j].item.id);
                        assert(self@.rows[i].item.id == s0[i].item.id || self@.rows[i].item.id
                            == item@.id);
                        assert(self@.rows[j].item.id == s0[j].item.id || self@.rows[j].item.id
                            == item@.id);
                        assert(s0[k as int].item.id == item@.id);
                    }
                    assert forall|j: int|
                        0 <= j < s0.len() && (#[trigger] s0[j]).item.id == item@.id implies j
                        == k as int by {
                        lemma_row_index_is(s0, item@.id, j);
                        lemma_row_index_is(s0, item@.id, k as int);
                    }
                }
            },
        }
    }

    /// Delete the row carrying `id`; its status goes with it. Absence is
    /// not an error and leaves the store unchanged.
    pub fn delete_synced_item(&mut self, id: &str)
        requires
            old(self).wf(),
        ensures
            final(self).wf(),
            final(self)@.rows == remove_row_id(old(self)@.rows, id@),
            final(self)@.last_sync == old(self)@.last_sync,
            final(self)@.devices == old(self)@.devices,
            !contains_row_id(old(self)@.rows, id@) ==> final(self)@.rows == old(self)@.rows,
    {
        let ghost s0 = self@.rows;
        match self.find_row(id) {
            Some(k) => {
                proof {
                    lemma_remove_row_id_present(s0, id@, k as int);
                }
                self.rows.remove(k);
                proof {
                    assert(self@.rows =~= s0.remove(k as int));
                    assert forall|i: int, j: int|
                        0 <= i < j < self@.rows.len() implies self@.rows[i].item.id
                        != self@.rows[j].item.id by {
                        let si = if i < k as int { i } else { i + 1 };
                        let sj = if j < k as int { j } else { j + 1 };
                        assert(self@.rows[i] == s0[si] && self@.rows[j] == s0[sj]);
                    }
                }
            },
            None => {
                proof {
                    lemma_remove_row_id_absent(s0, id@);
                }
            },
        }
    }

    /// Mark the row carrying `id` as synced at `now`; a missing row is a
    /// no-op.
    pub fn mark_item_synced(&mut self, id: &str, now: i64)
        requires
            old(self).wf(),
        ensures
            final(self).wf(),
            final(self)@.last_sync == old(self)@.last_sync,
            final(self)@.devices == old(self)@.devices,
            !contains_row_id(old(self)@.rows, id@) ==> final(self)@.rows == old(self)@.rows,
            forall|k: int|
                0 <= k < old(self)@.rows.len() && (#[trigger] old(self)@.rows[k]).item.id == id@
                    ==> final(self)@.rows == old(self)@.rows.update(
                    k,
                    RowModel {
                        item: old(self)@.rows[k].item,
                        is_synced: true,
                        last_sync_attempt: now as int,
                    },
                ),
    {
        let ghost s0 = self@.rows;
        match self.find_row(id) {
            Some(k) => {
                let row = &self.rows[k];
                let updated = StoredRow {
                    item: row.item.duplicate(),
                    is_synced: true,
                    last_sync_attempt: now,
                };
                self.rows.remove(k);
                self.rows.insert(k, updated);
                proof {
                    let m = RowModel {
                        item: s0[k as int].item,
                        is_synced: true,
                        last_sync_attempt: now as int,
                    };
                    assert(self@.rows =~= s0.update(k as int, m));
                    assert forall|i: int, j: int|
                        0 <= i < j < self@.rows.len() implies self@.rows[i].item.id
                        != self@.rows[j].item.id by {
                        assert(s0[i].item.id != s0[j].item.id);
                        assert(self@.rows[i].item.id == s0[i].item.id);
                        assert(self@.rows[j].item.id == s0[j].item.id);
                    }
                    assert forall|j: int|
                        0 <= j < s0.len() && (#[trigger] s0[j]).item.id == id@ implies j
                        == k as int by {
                        lemma_row_index_is(s0, id@, j);
                        lemma_row_index_is(s0, id@, k as int);
                    }
                }
            },
            None => {},
        }
    }

    /// The last persisted sync timestamp; zero when none was stored yet.
    pub fn get_last_sync_timestamp(&self) -> (t: i64)
        ensures
            t as int == match self@.last_sync {
                Some(v) => v,
                None => 0,
            },
    {
        match self.last_sync {
            Some(t) => t,
            None => 0,
        }
    }

    /// Persist `timestamp` as the last sync time.
    pub fn update_last_sync_timestamp(&mut self, timestamp: i64)
        ensures
            final(self)@.last_sync == Some(timestamp as int),
            final(self)@.rows == old(self)@.rows,
            final(self)@.devices == old(self)@.devices,
            old(self).wf() ==> final(self).wf(),
    {
        self.last_sync = Some(timestamp);
    }

    /// Up to `limit` rows not yet synced, in stored order; `limit` falls
    /// back to 50 when absent, and a negative `limit` means no bound.
    pub fn get_unsynced_items(&self, limit: Option<i64>) -> (r: Vec<ClipboardItem>)
        ensures
            items_of(r@) == spec_unsynced(self@.rows, unsynced_cap(limit, self@.rows.len() as int)),
    {
        let l: i64 = match limit {
            Some(l) => l,
            None => 50,
        };
        let n = self.rows.len();
        let cap: usize = if l < 0 {
            n
        } else if l as u64 >= n as u64 {
            n
        } else {
            l as usize
        };
        let mut r: Vec<ClipboardItem> = Vec::new();
        let mut i: usize = 0;
        let ghost cap0 = unsynced_cap(limit, self@.rows.len() as int);
        proof {
            lemma_unsynced_clamp(self@.rows, cap0);
            assert(spec_unsynced(self@.rows, cap0) == spec_unsynced(self@.rows, cap as int));
            assert(self@.rows.skip(0) =~= self@.rows);
            assert(items_of(r@) =~= Seq::<ItemModel>::empty());
            assert(items_of(r@) + spec_unsynced(self@.rows, cap as int) =~= spec_unsynced(
                self@.rows,
                cap as int,
            ));
        }
        while i < n && r.len() < cap
            invariant
                n == self@.rows.len(),
                i <= n,
                r@.len() <= cap,
                spec_unsynced(self@.rows, cap0) == spec_unsynced(self@.rows, cap as int),
                spec_unsynced(self@.rows, cap as int) == items_of(r@) + spec_unsynced(
                    self@.rows.skip(i as int),
                    cap - r@.len(),
                ),
            decreases n - i,
        {
            let ghost before = r@;
            proof {
                assert(self@.rows.skip(i as int).len() > 0);
                assert(self@.rows.skip(i as int)[0] == self@.rows[i as int]);
                assert(self@.rows.skip(i as int).drop_first() =~= self@.rows.skip(i as int + 1));
            }
            if !self.rows[i].is_synced {
                r.push(self.rows[i].item.duplicate());
                proof {
                    assert(items_of(r@) =~= items_of(before).push(self@.rows[i as int].item));
                    assert(items_of(before) + spec_unsynced(
                        self@.rows.skip(i as int),
                        cap - before.len(),
                    ) =~= items_of(r@) + spec_unsynced(
                        self@.rows.skip(i as int + 1),
                        cap - r@.len(),
                    ));
                }
            } else {
                proof {
                    assert(items_of(before) + spec_unsynced(
                        self@.rows.skip(i as int),
                        cap - before.len(),
                    ) == items_of(r@) + spec_unsynced(
                        self@.rows.skip(i as int + 1),
                        cap - r@.len(),
                    ));
                }
            }
            i = i + 1;
        }
        proof {
            if r@.len() >= cap as int {
                lemma_unsynced_zero(self@.rows.skip(i as int), cap - r@.len());
            } else {
                assert(i == n);
                assert(self@.rows.skip(n as int) =~= Seq::<RowModel>::empty());
                lemma_unsynced_zero(self@.rows.skip(n as int), cap - r@.len());
            }
            assert(items_of(r@) + Seq::<ItemModel>::empty() =~= items_of(r@));
        }
        r
    }

    /// Copies of every stored row with its sync status, in stored order.
    pub fn snapshot_rows(&self) -> (r: Vec<StoredRow>)
        ensures
            r@.len() == self@.rows.len(),
            forall|k: int| 0 <= k < r@.len() ==> (#[trigger] r@[k])@ == self@.rows[k],
    {
        let n = self.rows.len();
        let mut r: Vec<StoredRow> = Vec::new();
        let mut i: usize = 0;
        while i < n
            invariant
                n == self@.rows.len(),
                i <= n,
                r@.len() == i,
                forall|k: int| 0 <= k < i ==> (#[trigger] r@[k])@ == self@.rows[k],
            decreases n - i,
        {
            let row = &self.rows[i];
            r.push(
                StoredRow {
                    item: row.item.duplicate(),
                    is_synced: row.is_synced,
                    last_sync_attempt: row.last_sync_attempt,
                },
            );
            i = i + 1;
        }
        r
    }

    /// The bound-device list, as copies, in stored order.
    pub fn get_bound_devices(&self) -> (r: Vec<DeviceInfo>)
        ensures
            r@.len() == self@.devices.len(),
            forall|k: int| 0 <= k < r@.len() ==> (#[trigger] r@[k])@ == self@.devices[k],
    {
        let n = self.devices.len();
        let mut r: Vec<DeviceInfo> = Vec::new();
        let mut i: usize = 0;
        while i < n
            invariant
                n == self@.devices.len(),
                i <= n,
                r@.len() == i,
                forall|k: int| 0 <= k < i ==> (#[trigger] r@[k])@ == self@.devices[k],
            decreases n - i,
        {
            r.push(self.devices[i].duplicate());
            i = i + 1;
        }
        r
    }

    /// Index of the bound device carrying `device_id`, if present.
    fn find_device(&self, device_id: &str) -> (r: Option<usize>)
        ensures
            match r {
                Some(k) => k < self@.devices.len() && self@.devices[k as int].device_id
                    == device_id@,
                None => !contains_device_id(self@.devices, device_id@),
            },
    {
        let n = self.devices.len();
        let mut i: usize = 0;
        while i < n
            invariant
                n == self@.devices.len(),
                i <= n,
                forall|k: int| 0 <= k < i ==> self@.devices[k].device_id != device_id@,
            decreases n - i,
        {
            if str_eq(self.devices[i].device_id.as_str(), device_id) {
                return Some(i);
            }
            i = i + 1;
        }
        None
    }

    /// Bind `device`, upserting by id. A device id already bound is
    /// replaced in place and always succeeds; a new id is appended only
    /// while fewer than five devices are bound, and otherwise the call
    /// fails with the capacity condition and mutates nothing.
    pub fn add_bound_device(&mut self, device: DeviceInfo) -> (r: Result<(), SyncError>)
        requires
            old(self).wf(),
        ensures
            final(self).wf(),
            final(self)@.rows == old(self)@.rows,
            final(self)@.last_sync == old(self)@.last_sync,
            match r {
                Ok(()) => (contains_device_id(old(self)@.devices, device@.device_id)
                    || old(self)@.devices.len() < MAX_BOUND_DEVICES as int),
                Err(e) => e is Capacity && !contains_device_id(
                    old(self)@.devices,
                    device@.device_id,
                ) && old(self)@.devices.len() >= MAX_BOUND_DEVICES as int && final(self)@.devices
                    == old(self)@.devices,
            },
            r is Ok && !contains_device_id(old(self)@.devices, device@.device_id) ==> final(self)@.devices == old(self)@.devices.push(device@),
            forall|k: int|
                r is Ok && 0 <= k < old(self)@.devices.len() && (#[trigger] old(self)@.devices[k]).device_id == device@.device_id ==> final(self)@.devices == old(self)@.devices.update(k, device@),
    {
        let ghost d0 = self@.devices;
        match self.find_device(device.device_id.as_str()) {
            Some(k) => {
                self.devices.remove(k);
                self.devices.insert(k, device);
                proof {
                    let dv = final(self)@.devices[k as int];
                    assert(self@.devices =~= d0.update(k as int, dv));
                    assert forall|i: int, j: int|
                        0 <= i < j < self@.devices.len() implies self@.devices[i].device_id
                        != self@.devices[j].device_id by {
                        assert(d0[i].device_id != d0[j].device_id);
                        assert(self@.devices[i].device_id == d0[i].device_id);
                        assert(self@.devices[j].device_id == d0[j].device_id);
                    }
                    assert forall|j: int|
                        0 <= j < d0.len() && (#[trigger] d0[j]).device_id
                            == dv.device_id implies j == k as int by {
                        if j < k as int {
                            assert(d0[j].device_id != d0[k as int].device_id);
                        } else if (k as int) < j {
                            assert(d0[k as int].device_id != d0[j].device_id);
                        }
                    }
                }
                Ok(())
            },
            None => {
                if self.devices.len() >= MAX_BOUND_DEVICES {
                    return Err(SyncError::Capacity);
                }
                self.devices.push(device);
                proof {
                    assert(self@.devices =~= d0.push(final(self)@.devices[d0.len() as int]));
                    assert forall|i: int, j: int|
                        0 <= i < j < self@.devices.len() implies self@.devices[i].device_id
                        != self@.devices[j].device_id by {
                        if j < d0.len() {
                        } else {
                            assert(self@.devices[i].device_id == d0[i].device_id);
                        }
                    }
                }
                Ok(())
            },
        }
    }

    /// Unbind the device carrying `device_id`; absence is not an error.
    pub fn remove_bound_device(&mut self, device_id: &str)
        requires
            old(self).wf(),
        ensures
            final(self).wf(),
            final(self)@.rows == old(self)@.rows,
            final(self)@.last_sync == old(self)@.last_sync,
            final(self)@.devices == remove_device_id(old(self)@.devices, device_id@),
    {
        let ghost d0 = self@.devices;
        match self.find_device(device_id) {
            Some(k) => {
                proof {
                    lemma_remove_device_id_present(d0, device_id@, k as int);
                }
                self.devices.remove(k);
                proof {
                    assert(self@.devices =~= d0.remove(k as int));
                    assert forall|i: int, j: int|
                        0 <= i < j < self@.devices.len() implies self@.devices[i].device_id
                        != self@.devices[j].device_id by {
                        let si = if i < k as int { i } else { i + 1 };
                        let sj = if j < k as int { j } else { j + 1 };
                        assert(self@.devices[i] == d0[si] && self@.devices[j] == d0[sj]);
                    }
                }
            },
            None => {
                proof {
                    lemma_remove_device_id_absent(d0, device_id@);
                }
            },
        }
    }
}

/// The views of a vector of items.
pub open spec fn items_of(v: Seq<ClipboardItem>) -> Seq<ItemModel> {
    v.map(|k: int, e: ClipboardItem| e@)
}

/// The effective bound that `limit` puts on an unsynced scan over `n`
/// rows: 50 when absent, every row when negative.
pub open spec fn unsynced_cap(limit: Option<i64>, n: int) -> int {
    match limit {
        Some(l) => if l < 0 {
            n
        } else {
            l as int
        },
        None => 50,
    }
}

/// The first `cap` items among the rows not yet synced, in order.
pub open spec fn spec_unsynced(rows: Seq<RowModel>, cap: int) -> Seq<ItemModel>
    decreases rows.len(),
{
    if rows.len() == 0 || cap <= 0 {
        Seq::<ItemModel>::empty()
    } else if !rows[0].is_synced {
        seq![rows[0].item] + spec_unsynced(rows.drop_first(), cap - 1)
    } else {
        spec_unsynced(rows.drop_first(), cap)
    }
}

proof fn lemma_unsynced_zero(rows: Seq<RowModel>, cap: int)
    requires
        cap <= 0 || rows.len() == 0,
    ensures
        spec_unsynced(rows, cap) == Seq::<ItemModel>::empty(),
{
}

proof fn lemma_unsynced_clamp(rows: Seq<RowModel>, cap: int)
    ensures
        cap >= rows.len() ==> spec_unsynced(rows, cap) == spec_unsynced(rows, rows.len() as int),
    decreases rows.len(),
{
    if rows.len() > 0 && cap >= rows.len() {
        lemma_unsynced_clamp(rows.drop_first(), cap - 1);
        lemma_unsynced_clamp(rows.drop_first(), cap);
        lemma_unsynced_clamp(rows.drop_first(), rows.len() as int - 1);
        lemma_unsynced_clamp(rows.drop_first(), rows.len() as int);
    }
}

proof fn lemma_remove_row_id_absent(s: Seq<RowModel>, id: Seq<char>)
    requires
        !contains_row_id(s, id),
    ensures
        remove_row_id(s, id) == s,
    decreases s.len(),
{
    if s.len() > 0 {
        assert(!contains_row_id(s.drop_first(), id)) by {
            if contains_row_id(s.drop_first(), id) {
                let k = choose|k: int|
                    0 <= k < s.drop_first().len() && s.drop_first()[k].item.id == id;
                assert(s[k + 1].item.id == id);
            }
        }
        lemma_remove_row_id_absent(s.drop_first(), id);
        assert(remove_row_id(s, id) =~= s);
    }
}

proof fn lemma_remove_row_id_present(s: Seq<RowModel>, id: Seq<char>, k: int)
    requires
        unique_row_ids(s),
        0 <= k < s.len(),
        s[k].item.id == id,
    ensures
        remove_row_id(s, id) == s.remove(k),
    decreases s.len(),
{
    if k == 0 {
        assert(!contains_row_id(s.drop_first(), id)) by {
            if contains_row_id(s.drop_first(), id) {
                let j = choose|j: int|
                    0 <= j < s.drop_first().len() && s.drop_first()[j].item.id == id;
                assert(s[0].item.id == s[j + 1].item.id);
            }
        }
        lemma_remove_row_id_absent(s.drop_first(), id);
        assert(remove_row_id(s, id) =~= s.remove(0));
    } else {
        assert(s[0].item.id != id);
        lemma_remove_row_id_present(s.drop_first(), id, k - 1);
        assert(remove_row_id(s, id) =~= s.remove(k)) by {
            assert(s.drop_first().remove(k - 1) =~= s.remove(k).drop_first());
        }
    }
}

proof fn lemma_remove_device_id_absent(s: Seq<DeviceModel>, id: Seq<char>)
    requires
        !contains_device_id(s, id),
    ensures
        remove_device_id(s, id) == s,
    decreases s.len(),
{
    if s.len() > 0 {
        assert(!contains_device_id(s.drop_first(), id)) by {
            if contains_device_id(s.drop_first(), id) {
                let k = choose|k: int|
                    0 <= k < s.drop_first().len() && s.drop_first()[k].device_id == id;
                assert(s[k + 1].device_id == id);
            }
        }
        lemma_remove_device_id_absent(s.drop_first(), id);
        assert(remove_device_id(s, id) =~= s);
    }
}

proof fn lemma_remove_device_id_present(s: Seq<DeviceModel>, id: Seq<char>, k: int)
    requires
        unique_device_ids(s),
        0 <= k < s.len(),
        s[k].device_id == id,
    ensures
        remove_device_id(s, id) == s.remove(k),
    decreases s.len(),
{
    if k == 0 {
        assert(!contains_device_id(s.drop_first(), id)) by {
            if contains_device_id(s.drop_first(), id) {
                let j = choose|j: int|
                    0 <= j < s.drop_first().len() && s.drop_first()[j].device_id == id;
                assert(s[0].device_id == s[j + 1].device_id);
            }
        }
        lemma_remove_device_id_absent(s.drop_first(), id);
        assert(remove_device_id(s, id) =~= s.remove(0));
    } else {
        assert(s[0].device_id != id);
        lemma_remove_device_id_present(s.drop_first(), id, k - 1);
        assert(remove_device_id(s, id) =~= s.remove(k)) by {
            assert(s.drop_first().remove(k - 1) =~= s.remove(k).drop_first());
        }
    }
}

} // verus!
