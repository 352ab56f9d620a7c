//! The clipboard item record that the synchronizer stores and ships.

use vstd::prelude::*;
use crate::ids::new_uuid_string;

verus! {

/// Mathematical model of a clipboard item.
#[verifier::ext_equal]
pub ghost struct ItemModel {
    pub id: Seq<char>,
    pub content: Seq<char>,
    pub title: Option<Seq<char>>,
    pub created_at: int,
    pub updated_at: int,
    pub is_pinned: bool,
}

/// One clipboard entry. `id` and `created_at` never change after creation;
/// `updated_at` is the sole ordering signal for conflict resolution.
pub struct ClipboardItem {
    pub id: String,
    pub content: String,
    pub title: Option<String>,
    pub created_at: i64,
    pub updated_at: i64,
    pub is_pinned: bool,
}

impl View for ClipboardItem {
    type V = ItemModel;

    open spec fn view(&self) -> ItemModel {
        ItemModel {
            id: self.id@,
            content: self.content@,
            title: match self.title {
                Some(t) => Some(t@),
                None => None,
            },
            created_at: self.created_at as int,
            updated_at: self.updated_at as int,
            is_pinned: self.is_pinned,
        }
    }
}

impl ClipboardItem {
    /// A fresh locally created item: new opaque id, both timestamps at `now`,
    /// not pinned.
    pub fn new(content: String, title: Option<String>, now: i64) -> (item: ClipboardItem)
        ensures
            item@.content == content@,
            item@.title == (match title {
                Some(t) => Some(t@),
                None => None::<Seq<char>>,
            }),
            item@.created_at == now as int,
            item@.updated_at == now as int,
            !item@.is_pinned,
    {
        ClipboardItem {
            id: new_uuid_string(),
            content,
            title,
            created_at: now,
            updated_at: now,
            is_pinned: false,
        }
    }

    /// An independent copy with the same fields.
    pub fn duplicate(&self) -> (copy: ClipboardItem)
        ensures
            copy@ == self@,
    {
        ClipboardItem {
            id: self.id.clone(),
            content: self.content.clone(),
            title: match &self.title {
                Some(t) => Some(t.clone()),
                None => None,
            },
            created_at: self.created_at,
            updated_at: self.updated_at,
            is_pinned: self.is_pinned,
        }
    }
}

} // verus!
