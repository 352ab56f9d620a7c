use clipsync::cache::Cache;
use clipsync::connection::{backoff_delay_secs, ConnectionState};
use clipsync::coordinator::{handle_message, sync_request_on_timer, Notification};
use clipsync::devices::DeviceInfo;
use clipsync::error::SyncError;
use clipsync::item::ClipboardItem;
use clipsync::protocol::SyncMessage;
use clipsync::store::LocalStore;

fn item(id: &str, content: &str, updated_at: i64) -> ClipboardItem {
    ClipboardItem {
        id: id.to_string(),
        content: content.to_string(),
        title: None,
        created_at: 1,
        updated_at,
        is_pinned: false,
    }
}

#[test]
fn new_id_in_sync_response_is_stored_verbatim() {
    let mut store = LocalStore::new();
    let mut cache = Cache::new();
    let incoming = ClipboardItem {
        id: "n1".to_string(),
        content: "fresh".to_string(),
        title: Some("t".to_string()),
        created_at: 7,
        updated_at: 9,
        is_pinned: true,
    };
    let notes = handle_message(
        &mut store,
        &mut cache,
        SyncMessage::SyncResponse { items: vec![incoming] },
        100,
    );
    let row = store.find_item("n1").expect("row must exist after the batch");
    assert_eq!(row.content, "fresh");
    assert_eq!(row.title, Some("t".to_string()));
    assert_eq!(row.created_at, 7);
    assert_eq!(row.updated_at, 9);
    assert!(row.is_pinned);
    assert_eq!(store.get_last_sync_timestamp(), 100);
    assert!(matches!(notes.as_slice(), [Notification::SyncCompleted]));
}

#[test]
fn stale_remote_update_changes_nothing_and_newer_wins() {
    let mut store = LocalStore::new();
    let mut cache = Cache::new();
    store.sync_item_from_remote(&item("a", "local", 100), 1);

    // Inbound batch with updated_at 50: the stored row stays at 100.
    let notes = handle_message(
        &mut store,
        &mut cache,
        SyncMessage::SyncResponse { items: vec![item("a", "old", 50)] },
        2,
    );
    let row = store.find_item("a").unwrap();
    assert_eq!(row.updated_at, 100);
    assert_eq!(row.content, "local");
    assert!(matches!(notes.as_slice(), [Notification::SyncCompleted]));

    // A later batch with updated_at 200 replaces the mutable fields.
    handle_message(
        &mut store,
        &mut cache,
        SyncMessage::SyncResponse { items: vec![item("a", "new", 200)] },
        3,
    );
    let row = store.find_item("a").unwrap();
    assert_eq!(row.content, "new");
    assert_eq!(row.updated_at, 200);
    assert_eq!(row.created_at, 1, "created_at never changes");
}

#[test]
fn remote_update_keeps_local_id_and_created_at() {
    let mut store = LocalStore::new();
    store.sync_item_from_remote(
        &ClipboardItem {
            id: "k".to_string(),
            content: "first".to_string(),
            title: None,
            created_at: 11,
            updated_at: 20,
            is_pinned: false,
        },
        1,
    );
    store.sync_item_from_remote(
        &ClipboardItem {
            id: "k".to_string(),
            content: "second".to_string(),
            title: Some("named".to_string()),
            created_at: 999,
            updated_at: 30,
            is_pinned: true,
        },
        2,
    );
    let row = store.find_item("k").unwrap();
    assert_eq!(row.created_at, 11, "created_at is immutable");
    assert_eq!(row.content, "second");
    assert_eq!(row.title, Some("named".to_string()));
    assert!(row.is_pinned);
}

#[test]
fn delete_of_unknown_id_completes_and_creates_no_row() {
    let mut store = LocalStore::new();
    let mut cache = Cache::new();
    let notes = handle_message(
        &mut store,
        &mut cache,
        SyncMessage::ItemDelete { id: "b".to_string() },
        5,
    );
    assert!(store.find_item("b").is_none());
    assert!(matches!(notes.as_slice(), [Notification::RemoteItemDelete(id)] if id == "b"));
}

#[test]
fn delete_removes_row_and_cache_entry() {
    let mut store = LocalStore::new();
    let mut cache = Cache::new();
    handle_message(
        &mut store,
        &mut cache,
        SyncMessage::ItemUpdate(item("z", "bye", 10)),
        1,
    );
    assert!(store.find_item("z").is_some());
    assert!(cache.get("z").is_some());
    handle_message(
        &mut store,
        &mut cache,
        SyncMessage::ItemDelete { id: "z".to_string() },
        2,
    );
    assert!(store.find_item("z").is_none());
    assert!(cache.get("z").is_none());
}

#[test]
fn accepted_item_update_touches_cache_and_notifies() {
    let mut store = LocalStore::new();
    let mut cache = Cache::new();
    let notes = handle_message(
        &mut store,
        &mut cache,
        SyncMessage::ItemUpdate(item("u", "hello", 10)),
        1,
    );
    assert!(matches!(notes.as_slice(), [Notification::RemoteItemUpdate(it)] if it.id == "u"));
    assert_eq!(cache.get("u").unwrap().content, "hello");

    // A stale update is silently ignored: no note, cache untouched.
    let notes = handle_message(
        &mut store,
        &mut cache,
        SyncMessage::ItemUpdate(item("u", "stale", 5)),
        2,
    );
    assert!(notes.is_empty());
    assert_eq!(cache.get("u").unwrap().content, "hello");
}

#[test]
fn error_frame_raises_formatted_notification_only() {
    let mut store = LocalStore::new();
    let mut cache = Cache::new();
    let notes = handle_message(
        &mut store,
        &mut cache,
        SyncMessage::Error { code: "E42".to_string(), message: "server on fire".to_string() },
        1,
    );
    assert!(matches!(notes.as_slice(), [Notification::SyncError(text)] if text == "E42: server on fire"));
    assert_eq!(store.get_last_sync_timestamp(), 0);
}

#[test]
fn inbound_connect_is_ignored() {
    let mut store = LocalStore::new();
    let mut cache = Cache::new();
    let notes = handle_message(
        &mut store,
        &mut cache,
        SyncMessage::Connect { device_id: "d".to_string(), device_name: "n".to_string() },
        1,
    );
    assert!(notes.is_empty());
    assert_eq!(cache.len(), 0);
}

#[test]
fn backoff_schedule_doubles_and_caps_at_sixty() {
    assert_eq!(backoff_delay_secs(0), 1);
    assert_eq!(backoff_delay_secs(1), 2);
    assert_eq!(backoff_delay_secs(2), 4);
    assert_eq!(backoff_delay_secs(3), 8);
    assert_eq!(backoff_delay_secs(4), 16);
    assert_eq!(backoff_delay_secs(5), 32);
    assert_eq!(backoff_delay_secs(6), 60, "capped, not 64");
    assert_eq!(backoff_delay_secs(100), 60);
}

#[test]
fn connection_state_machine_counts_and_resets_attempts() {
    let mut conn = ConnectionState::new(
        "dev-1".to_string(),
        "laptop".to_string(),
        "ws://example.invalid/sync".to_string(),
    );
    assert!(!conn.connected);
    assert!(conn.check_send().is_err());
    conn.on_connect_failure();
    conn.on_connect_failure();
    assert_eq!(conn.reconnect_attempts, 2);
    assert_eq!(conn.current_backoff_secs(), 4);
    let frame = conn.on_connect_success();
    assert!(conn.connected);
    assert_eq!(conn.reconnect_attempts, 0);
    assert!(
        matches!(frame, SyncMessage::Connect { device_id, device_name }
            if device_id == "dev-1" && device_name == "laptop")
    );
    assert!(conn.check_send().is_ok());
    conn.disconnect();
    assert!(!conn.connected);
    conn.disconnect();
    assert!(!conn.connected, "disconnect is idempotent");
}

#[test]
fn timer_emits_sync_request_with_last_timestamp_only_when_connected() {
    let mut store = LocalStore::new();
    let mut conn = ConnectionState::new(
        "d".to_string(),
        "n".to_string(),
        "ws://example.invalid".to_string(),
    );
    assert!(sync_request_on_timer(&conn, &store).is_none());
    conn.on_connect_success();
    store.update_last_sync_timestamp(4242);
    let frame = sync_request_on_timer(&conn, &store);
    assert!(matches!(frame, Some(SyncMessage::SyncRequest { since_timestamp: 4242 })));
}

#[test]
fn cache_capacity_and_recency_order() {
    let mut cache = Cache::new();
    for i in 0..101 {
        cache.upsert(item(&format!("id{}", i), "c", i as i64));
    }
    assert_eq!(cache.len(), 100, "the cache never exceeds 100 entries");
    assert!(cache.get("id0").is_none(), "the first inserted id was evicted");
    for i in 1..101 {
        assert!(cache.get(&format!("id{}", i)).is_some());
    }
    let all = cache.all();
    assert_eq!(all[0].id, "id100", "most recent at the front");
    assert_eq!(all[99].id, "id1");
}

#[test]
fn cache_reupsert_keeps_length_and_promotes() {
    let mut cache = Cache::new();
    cache.upsert(item("a", "1", 1));
    cache.upsert(item("b", "2", 2));
    cache.upsert(item("a", "3", 3));
    assert_eq!(cache.len(), 2, "re-upserting an id does not change the length");
    let all = cache.all();
    assert_eq!(all[0].id, "a", "writes re-promote to the front");
    assert_eq!(all[0].content, "3");
    assert_eq!(all[1].id, "b");
    cache.remove("a");
    assert_eq!(cache.len(), 1);
    cache.clear();
    assert_eq!(cache.len(), 0);
}

fn device(id: &str, name: &str) -> DeviceInfo {
    DeviceInfo { device_id: id.to_string(), device_name: name.to_string(), last_sync: 0 }
}

#[test]
fn sixth_distinct_device_fails_without_mutation_but_rebinding_succeeds() {
    let mut store = LocalStore::new();
    for i in 0..5 {
        assert!(store.add_bound_device(device(&format!("d{}", i), "n")).is_ok());
    }
    let before: Vec<String> =
        store.get_bound_devices().iter().map(|d| d.device_id.clone()).collect();
    let result = store.add_bound_device(device("d5", "sixth"));
    assert!(matches!(result, Err(SyncError::Capacity)));
    let after: Vec<String> =
        store.get_bound_devices().iter().map(|d| d.device_id.clone()).collect();
    assert_eq!(before, after, "a failed add mutates nothing");

    // Re-adding an already-bound id succeeds irrespective of count.
    let rebind = store.add_bound_device(device("d2", "renamed"));
    assert!(rebind.is_ok());
    let devices = store.get_bound_devices();
    assert_eq!(devices.len(), 5);
    assert_eq!(devices[2].device_name, "renamed", "upsert replaces in place");
}

#[test]
fn remove_bound_device_tolerates_absence() {
    let mut store = LocalStore::new();
    store.add_bound_device(device("d1", "one")).unwrap();
    store.remove_bound_device("ghost");
    assert_eq!(store.get_bound_devices().len(), 1);
    store.remove_bound_device("d1");
    assert_eq!(store.get_bound_devices().len(), 0);
}

#[test]
fn unsynced_items_respect_order_and_limit() {
    let mut store = LocalStore::new();
    // Rows arriving from remote are already synced.
    store.sync_item_from_remote(&item("r1", "a", 1), 1);
    assert_eq!(store.get_unsynced_items(None).len(), 0);

    // Local edits are flagged unsynced, in stored order, up to the limit.
    store.upsert_local_item(&item("l1", "x", 2));
    store.upsert_local_item(&item("l2", "y", 3));
    store.upsert_local_item(&item("l3", "z", 4));
    let unsynced = store.get_unsynced_items(None);
    assert_eq!(unsynced.len(), 3);
    assert_eq!(unsynced[0].id, "l1");
    assert_eq!(unsynced[2].id, "l3");
    assert_eq!(store.get_unsynced_items(Some(2)).len(), 2);
    assert_eq!(store.get_unsynced_items(Some(-1)).len(), 3);
    assert_eq!(store.get_unsynced_items(Some(0)).len(), 0);

    // Marking one synced takes it out of the scan; absence is a no-op.
    store.mark_item_synced("l2", 9);
    store.mark_item_synced("ghost", 9);
    let unsynced = store.get_unsynced_items(None);
    assert_eq!(unsynced.len(), 2);
    assert_eq!(unsynced[1].id, "l3");

    // A local edit of an existing id replaces the row and flags it again.
    store.upsert_local_item(&item("l2", "edited", 10));
    assert_eq!(store.get_unsynced_items(None).len(), 3);
    assert_eq!(store.find_item("l2").unwrap().content, "edited");
}
