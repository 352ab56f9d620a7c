use clipsync::devices::DeviceInfo;
use clipsync::item::ClipboardItem;
use clipsync::jsondec::{decode_device_list, decode_frame};
use clipsync::jsonenc::{encode_device_list, encode_frame};
use clipsync::protocol::SyncMessage;

fn item(id: &str, content: &str, updated_at: i64) -> ClipboardItem {
    ClipboardItem {
        id: id.to_string(),
        content: content.to_string(),
        title: Some("note".to_string()),
        created_at: -3,
        updated_at,
        is_pinned: true,
    }
}

#[test]
fn connect_frame_wire_text_is_exact() {
    let frame = encode_frame(&SyncMessage::Connect {
        device_id: "dev-1".to_string(),
        device_name: "laptop".to_string(),
    });
    assert_eq!(
        String::from_utf8(frame).unwrap(),
        r#"{"Connect":{"device_id":"dev-1","device_name":"laptop"}}"#
    );
}

#[test]
fn sync_request_frame_wire_text_is_exact() {
    let frame = encode_frame(&SyncMessage::SyncRequest { since_timestamp: -12345 });
    assert_eq!(
        String::from_utf8(frame).unwrap(),
        r#"{"SyncRequest":{"since_timestamp":-12345}}"#
    );
}

#[test]
fn item_update_frame_wire_text_is_exact() {
    let frame = encode_frame(&SyncMessage::ItemUpdate(ClipboardItem {
        id: "a".to_string(),
        content: "x\"y\\z\n".to_string(),
        title: None,
        created_at: 0,
        updated_at: 42,
        is_pinned: false,
    }));
    assert_eq!(
        String::from_utf8(frame).unwrap(),
        r#"{"ItemUpdate":{"id":"a","content":"x\"y\\z\u000a","title":null,"created_at":0,"updated_at":42,"is_pinned":false}}"#
    );
}

#[test]
fn every_frame_kind_round_trips() {
    let messages = vec![
        SyncMessage::Connect { device_id: "d".to_string(), device_name: "n".to_string() },
        SyncMessage::ItemUpdate(item("id-1", "hello world", 77)),
        SyncMessage::ItemDelete { id: "gone".to_string() },
        SyncMessage::SyncRequest { since_timestamp: i64::MIN },
        SyncMessage::SyncRequest { since_timestamp: i64::MAX },
        SyncMessage::SyncResponse { items: vec![] },
        SyncMessage::SyncResponse {
            items: vec![item("a", "one", 1), item("b", "two", 2), item("c", "three", 3)],
        },
        SyncMessage::Error { code: "E1".to_string(), message: "boom".to_string() },
    ];
    for msg in messages {
        let encoded = encode_frame(&msg);
        let decoded = decode_frame(encoded.as_slice()).expect("own frames must decode");
        let reencoded = encode_frame(&decoded);
        assert_eq!(encoded, reencoded);
    }
}

#[test]
fn round_trip_preserves_tricky_content() {
    let tricky = "quotes \" backslash \\ tab \t newline \n nul \u{0} emoji \u{1F4CB} accents éü";
    let msg = SyncMessage::ItemUpdate(item("t", tricky, 5));
    let encoded = encode_frame(&msg);
    match decode_frame(encoded.as_slice()).unwrap() {
        SyncMessage::ItemUpdate(it) => {
            assert_eq!(it.content, tricky);
            assert_eq!(it.id, "t");
            assert_eq!(it.created_at, -3);
        },
        other => panic!("wrong variant decoded: {:?}", variant_name(&other)),
    }
}

fn variant_name(m: &SyncMessage) -> &'static str {
    match m {
        SyncMessage::Connect { .. } => "Connect",
        SyncMessage::ItemUpdate(_) => "ItemUpdate",
        SyncMessage::ItemDelete { .. } => "ItemDelete",
        SyncMessage::SyncRequest { .. } => "SyncRequest",
        SyncMessage::SyncResponse { .. } => "SyncResponse",
        SyncMessage::Error { .. } => "Error",
    }
}

#[test]
fn malformed_frames_are_protocol_errors() {
    for bad in [
        &b""[..],
        &b"{"[..],
        &b"not json at all"[..],
        &br#"{"Unknown":{}}"#[..],
        &br#"{"SyncRequest":{"since_timestamp":12"#[..],
        &br#"{"SyncRequest":{"since_timestamp":99999999999999999999999}}"#[..],
        &br#"{"ItemDelete":{"id":"x"}} trailing"#[..],
    ] {
        assert!(decode_frame(bad).is_err(), "must refuse {:?}", String::from_utf8_lossy(bad));
    }
}

#[test]
fn device_list_blob_round_trips() {
    let devices = vec![
        DeviceInfo { device_id: "d1".to_string(), device_name: "alpha".to_string(), last_sync: 5 },
        DeviceInfo { device_id: "d2".to_string(), device_name: "β-unit".to_string(), last_sync: -1 },
    ];
    let blob = encode_device_list(&devices);
    assert_eq!(
        String::from_utf8(blob.clone()).unwrap(),
        r#"[{"device_id":"d1","device_name":"alpha","last_sync":5},{"device_id":"d2","device_name":"β-unit","last_sync":-1}]"#
    );
    let decoded = decode_device_list(blob.as_slice()).expect("own blobs must decode");
    assert_eq!(decoded.len(), 2);
    assert_eq!(decoded[0].device_id, "d1");
    assert_eq!(decoded[1].device_name, "β-unit");
    assert_eq!(decoded[1].last_sync, -1);

    let empty = encode_device_list(&vec![]);
    assert_eq!(String::from_utf8(empty.clone()).unwrap(), "[]");
    assert_eq!(decode_device_list(empty.as_slice()).unwrap().len(), 0);

    assert!(decode_device_list(b"junk").is_none());
    assert!(decode_device_list(b"[").is_none());
    assert!(decode_device_list(b"[] trailing").is_none());
}
