//! The wire protocol's message model: a closed sum type, one variant per
//! frame kind. Messages are transient and never persisted.

use vstd::prelude::*;
use crate::item::{ClipboardItem, ItemModel};
use crate::store::items_of;

verus! {

/// Mathematical model of a protocol message.
#[verifier::ext_equal]
pub ghost enum MessageModel {
    Connect { device_id: Seq<char>, device_name: Seq<char> },
    ItemUpdate(ItemModel),
    ItemDelete { id: Seq<char> },
    SyncRequest { since_timestamp: int },
    SyncResponse { items: Seq<ItemModel> },
    Error { code: Seq<char>, message: Seq<char> },
}

/// One protocol frame. `Connect` introduces a device after a successful
/// connect; `SyncRequest` asks for everything since a timestamp;
/// `SyncResponse` delivers a batch; `ItemUpdate` and `ItemDelete` are
/// individual notices; `Error` reports a server-side condition.
pub enum SyncMessage {
    Connect { device_id: String, device_name: String },
    ItemUpdate(ClipboardItem),
    ItemDelete { id: String },
    SyncRequest { since_timestamp: i64 },
    SyncResponse { items: Vec<ClipboardItem> },
    Error { code: String, message: String },
}

/// The item's timestamps fit a 64-bit signed integer, as every stored or
/// shipped item's do.
pub open spec fn item_wf(it: ItemModel) -> bool {
    &&& i64::MIN <= it.created_at <= i64::MAX
    &&& i64::MIN <= it.updated_at <= i64::MAX
}

/// Every integer the message carries fits a 64-bit signed integer.
pub open spec fn msg_wf(m: MessageModel) -> bool {
    match m {
        MessageModel::Connect { .. } => true,
        MessageModel::ItemUpdate(it) => item_wf(it),
        MessageModel::ItemDelete { .. } => true,
        MessageModel::SyncRequest { since_timestamp } => i64::MIN <= since_timestamp <= i64::MAX,
        MessageModel::SyncResponse { items } => forall|k: int|
            0 <= k < items.len() ==> item_wf(#[trigger] items[k]),
        MessageModel::Error { .. } => true,
    }
}

/// The view of a real message is always well formed: its integers are
/// 64-bit values by construction.
pub proof fn lemma_message_view_wf(m: &SyncMessage)
    ensures
        msg_wf(m@),
{
    match m {
        SyncMessage::SyncResponse { items } => {
            assert forall|k: int| 0 <= k < items_of(items@).len() implies item_wf(
                #[trigger] items_of(items@)[k],
            ) by {
                assert(items_of(items@)[k] == items@[k]@);
            }
        },
        _ => {},
    }
}

impl View for SyncMessage {
    type V = MessageModel;

    open spec fn view(&self) -> MessageModel {
        match self {
            SyncMessage::Connect { device_id, device_name } => MessageModel::Connect {
                device_id: device_id@,
                device_name: device_name@,
            },
            SyncMessage::ItemUpdate(item) => MessageModel::ItemUpdate(item@),
            SyncMessage::ItemDelete { id } => MessageModel::ItemDelete { id: id@ },
            SyncMessage::SyncRequest { since_timestamp } => MessageModel::SyncRequest {
                since_timestamp: *since_timestamp as int,
            },
            SyncMessage::SyncResponse { items } => MessageModel::SyncResponse {
                items: items_of(items@),
            },
            SyncMessage::Error { code, message } => MessageModel::Error {
                code: code@,
                message: message@,
            },
        }
    }
}

} // verus!
