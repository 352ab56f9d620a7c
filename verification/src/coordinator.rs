//! Message dispatch: one inbound message at a time is applied to the
//! store and the cache, and notifications are raised toward the UI layer.
//!
//! Inbound messages pass through the conflict resolver before touching
//! anything; only accepted items reach the cache. Frames are handled
//! strictly one per loop iteration, in arrival order.

use vstd::prelude::*;
use crate::cache::{Cache, spec_upsert, remove_id};
use crate::item::{ClipboardItem, ItemModel};
use crate::protocol::{MessageModel, SyncMessage};
use crate::store::{
    LocalStore, RowModel, remove_row_id, spec_accepts, spec_reconcile,
};

verus! {

/// Mathematical model of a notification.
#[verifier::ext_equal]
pub ghost enum NoteModel {
    RemoteItemUpdate(ItemModel),
    RemoteItemDelete(Seq<char>),
    SyncCompleted,
    SyncError(Seq<char>),
}

/// One notification raised toward the UI layer.
pub enum Notification {
    /// A remote update was accepted and stored.
    RemoteItemUpdate(ClipboardItem),
    /// A remote delete was applied.
    RemoteItemDelete(String),
    /// A sync batch finished.
    SyncCompleted,
    /// The server reported an error, formatted `code: message`.
    SyncError(String),
}

impl View for Notification {
    type V = NoteModel;

    open spec fn view(&self) -> NoteModel {
        match self {
            Notification::RemoteItemUpdate(item) => NoteModel::RemoteItemUpdate(item@),
            Notification::RemoteItemDelete(id) => NoteModel::RemoteItemDelete(id@),
            Notification::SyncCompleted => NoteModel::SyncCompleted,
            Notification::SyncError(text) => NoteModel::SyncError(text@),
        }
    }
}

/// The views of a vector of notifications.
pub open spec fn notes_of(v: Seq<Notification>) -> Seq<NoteModel> {
    v.map(|k: int, n: Notification| n@)
}

/// The store rows and cache after a batch of remote items is applied in
/// order: each item is reconciled last-write-wins, and each accepted item
/// is upserted into the cache.
pub open spec fn spec_apply_batch(
    rows: Seq<RowModel>,
    cache: Seq<ItemModel>,
    items: Seq<ItemModel>,
    now: int,
) -> (Seq<RowModel>, Seq<ItemModel>)
    decreases items.len(),
{
    if items.len() == 0 {
        (rows, cache)
    } else {
        let rows1 = spec_reconcile(rows, items[0], now);
        let cache1 = if spec_accepts(rows, items[0]) {
            spec_upsert(cache, items[0])
        } else {
            cache
        };
        spec_apply_batch(rows1, cache1, items.drop_first(), now)
    }
}

/// What the periodic timer does: when connected, emit a `SyncRequest`
/// carrying the last persisted sync timestamp; when disconnected, nothing
/// (the loop falls through to the reconnect path instead).
pub fn sync_request_on_timer(
    conn: &crate::connection::ConnectionState,
    store: &LocalStore,
) -> (r: Option<SyncMessage>)
    ensures
        conn.connected ==> (r matches Some(m) && m@ == (MessageModel::SyncRequest {
            since_timestamp: match store@.last_sync {
                Some(v) => v,
                None => 0,
            },
        })),
        !conn.connected ==> r is None,
{
    if conn.connected {
        Some(SyncMessage::SyncRequest { since_timestamp: store.get_last_sync_timestamp() })
    } else {
        None
    }
}

/// The text of a `sync_error` notification: `code: message`.
pub fn format_sync_error(code: &str, message: &str) -> (text: String)
    ensures
        text@ == code@ + ": "@ + message@,
{
    let mut text = code.to_owned();
    text.append(": ");
    text.append(message);
    text
}

/// Apply one inbound message to the store and the cache.
///
/// Dispatch rules: an `ItemUpdate` goes through the conflict resolver
/// and, when accepted, reaches the cache and raises `remote_item_update`;
/// an `ItemDelete` deletes if present (absence is not an error), evicts
/// from the cache and raises `remote_item_delete`; a `SyncResponse`
/// reconciles every item in received order, persists `now` as the new
/// last-sync timestamp and raises a single `sync_completed`; an `Error`
/// raises `sync_error` and alters nothing; inbound `Connect` and
/// `SyncRequest` frames are unexpected and ignored.
pub fn handle_message(
    store: &mut LocalStore,
    cache: &mut Cache,
    msg: SyncMessage,
    now: i64,
) -> (notes: Vec<Notification>)
    requires
        old(store).wf(),
        old(cache).wf(),
    ensures
        final(store).wf(),
        final(cache).wf(),
        final(store)@.devices == old(store)@.devices,
        (msg@ is Connect || msg@ is SyncRequest) ==> final(store)@ == old(store)@ && final(cache)@
            == old(cache)@ && notes@.len() == 0,
        (msg@ matches MessageModel::ItemUpdate(it) ==> {
            &&& final(store)@.rows == spec_reconcile(old(store)@.rows, it, now as int)
            &&& final(store)@.last_sync == old(store)@.last_sync
            &&& spec_accepts(old(store)@.rows, it) ==> final(cache)@ == spec_upsert(
                old(cache)@,
                it,
            ) && notes_of(notes@) == seq![NoteModel::RemoteItemUpdate(it)]
            &&& !spec_accepts(old(store)@.rows, it) ==> final(cache)@ == old(cache)@
                && notes@.len() == 0
        }),
        (msg@ matches MessageModel::ItemDelete { id } ==> {
            &&& final(store)@.rows == remove_row_id(old(store)@.rows, id)
            &&& final(store)@.last_sync == old(store)@.last_sync
            &&& final(cache)@ == remove_id(old(cache)@, id)
            &&& notes_of(notes@) == seq![NoteModel::RemoteItemDelete(id)]
        }),
        (msg@ matches MessageModel::SyncResponse { items } ==> {
            &&& (final(store)@.rows, final(cache)@) == spec_apply_batch(
                old(store)@.rows,
                old(cache)@,
                items,
                now as int,
            )
            &&& final(store)@.last_sync == Some(now as int)
            &&& notes_of(notes@) == seq![NoteModel::SyncCompleted]
        }),
        (msg@ matches MessageModel::Error { code, message } ==> {
            &&& final(store)@ == old(store)@
            &&& final(cache)@ == old(cache)@
            &&& notes_of(notes@) == seq![NoteModel::SyncError(code + ": "@ + message)]
        }),
{
    let mut notes: Vec<Notification> = Vec::new();
    match msg {
        SyncMessage::ItemUpdate(item) => {
            let accepted = store.reconcile_accepts(&item);
            store.sync_item_from_remote(&item, now);
            if accepted {
                cache.upsert(item.duplicate());
                notes.push(Notification::RemoteItemUpdate(item));
                proof {
                    assert(notes_of(notes@) =~= seq![NoteModel::RemoteItemUpdate(item@)]);
                }
            }
        },
        SyncMessage::ItemDelete { id } => {
            store.delete_synced_item(id.as_str());
            cache.remove(id.as_str());
            notes.push(Notification::RemoteItemDelete(id));
            proof {
                let idv = notes@[0]->RemoteItemDelete_0@;
                assert(notes_of(notes@) =~= seq![NoteModel::RemoteItemDelete(idv)]);
            }
        },
        SyncMessage::SyncResponse { items } => {
            let ghost s0 = store@.rows;
            let ghost c0 = cache@;
            let ghost itemsv = crate::store::items_of(items@);
            let n = items.len();
            let mut i: usize = 0;
            proof {
                assert(itemsv.skip(0) =~= itemsv);
            }
            while i < n
                invariant
                    store.wf(),
                    cache.wf(),
                    n == items@.len(),
                    i <= n,
                    itemsv == crate::store::items_of(items@),
                    store@.devices == old(store)@.devices,
                    store@.last_sync == old(store)@.last_sync,
                    spec_apply_batch(s0, c0, itemsv, now as int) == spec_apply_batch(
                        store@.rows,
                        cache@,
                        itemsv.skip(i as int),
                        now as int,
                    ),
                decreases n - i,
            {
                proof {
                    assert(itemsv.skip(i as int).len() > 0);
                    assert(itemsv.skip(i as int)[0] == itemsv[i as int]);
                    assert(itemsv.skip(i as int).drop_first() =~= itemsv.skip(i as int + 1));
                }
                let item = &items[i];
                let accepted = store.reconcile_accepts(item);
                store.sync_item_from_remote(item, now);
                if accepted {
                    cache.upsert(item.duplicate());
                }
                i = i + 1;
            }
            proof {
                assert(itemsv.skip(n as int) =~= Seq::<ItemModel>::empty());
            }
            store.update_last_sync_timestamp(now);
            notes.push(Notification::SyncCompleted);
            proof {
                assert(notes_of(notes@) =~= seq![NoteModel::SyncCompleted]);
            }
        },
        SyncMessage::Error { code, message } => {
            let text = format_sync_error(code.as_str(), message.as_str());
            notes.push(Notification::SyncError(text));
            proof {
                let tv = notes@[0]->SyncError_0@;
                assert(notes_of(notes@) =~= seq![NoteModel::SyncError(tv)]);
            }
        },
        SyncMessage::Connect { .. } => {},
        SyncMessage::SyncRequest { .. } => {},
    }
    notes
}

} // verus!
