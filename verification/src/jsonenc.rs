//! The wire text of protocol frames and of the bound-device settings
//! blob: JSON-tagged objects in a fixed field order, built byte by byte.
//!
//! Strings are escaped with `\"` and `\\`, and control bytes as
//! `\u00XX`; every other byte of the UTF-8 encoding passes through
//! unchanged. Integers are decimal with no leading zeros and a leading
//! `-` when negative.

use vstd::prelude::*;
use crate::devices::{DeviceInfo, DeviceModel};
use crate::item::{ClipboardItem, ItemModel};
use crate::protocol::{MessageModel, SyncMessage};
use vstd::utf8::encode_utf8;

verus! {

/// The bytes of `{"Connect":`.
pub open spec fn bytes_tag_connect() -> Seq<u8> {
    seq![123u8, 34u8, 67u8, 111u8, 110u8, 110u8, 101u8, 99u8, 116u8, 34u8, 58u8]
}

/// The bytes of `{"ItemUpdate":`.
pub open spec fn bytes_tag_item_update() -> Seq<u8> {
    seq![123u8, 34u8, 73u8, 116u8, 101u8, 109u8, 85u8, 112u8, 100u8, 97u8, 116u8, 101u8, 34u8, 58u8]
}

/// The bytes of `{"ItemDelete":`.
pub open spec fn bytes_tag_item_delete() -> Seq<u8> {
    seq![123u8, 34u8, 73u8, 116u8, 101u8, 109u8, 68u8, 101u8, 108u8, 101u8, 116u8, 101u8, 34u8, 58u8]
}

/// The bytes of `{"SyncRequest":`.
pub open spec fn bytes_tag_sync_request() -> Seq<u8> {
    seq![123u8, 34u8, 83u8, 121u8, 110u8, 99u8, 82u8, 101u8, 113u8, 117u8, 101u8, 115u8, 116u8, 34u8, 58u8]
}

/// The bytes of `{"SyncResponse":`.
pub open spec fn bytes_tag_sync_response() -> Seq<u8> {
    seq![123u8, 34u8, 83u8, 121u8, 110u8, 99u8, 82u8, 101u8, 115u8, 112u8, 111u8, 110u8, 115u8, 101u8, 34u8, 58u8]
}

/// The bytes of `{"Error":`.
pub open spec fn bytes_tag_error() -> Seq<u8> {
    seq![123u8, 34u8, 69u8, 114u8, 114u8, 111u8, 114u8, 34u8, 58u8]
}

/// The bytes of `{"id":`.
pub open spec fn bytes_key_id() -> Seq<u8> {
    seq![123u8, 34u8, 105u8, 100u8, 34u8, 58u8]
}

/// The bytes of `,"content":`.
pub open spec fn bytes_key_content() -> Seq<u8> {
    seq![44u8, 34u8, 99u8, 111u8, 110u8, 116u8, 101u8, 110u8, 116u8, 34u8, 58u8]
}

/// The bytes of `,"title":`.
pub open spec fn bytes_key_title() -> Seq<u8> {
    seq![44u8, 34u8, 116u8, 105u8, 116u8, 108u8, 101u8, 34u8, 58u8]
}

/// The bytes of `,"created_at":`.
pub open spec fn bytes_key_created_at() -> Seq<u8> {
    seq![44u8, 34u8, 99u8, 114u8, 101u8, 97u8, 116u8, 101u8, 100u8, 95u8, 97u8, 116u8, 34u8, 58u8]
}

/// The bytes of `,"updated_at":`.
pub open spec fn bytes_key_updated_at() -> Seq<u8> {
    seq![44u8, 34u8, 117u8, 112u8, 100u8, 97u8, 116u8, 101u8, 100u8, 95u8, 97u8, 116u8, 34u8, 58u8]
}

/// The bytes of `,"is_pinned":`.
pub open spec fn bytes_key_is_pinned() -> Seq<u8> {
    seq![44u8, 34u8, 105u8, 115u8, 95u8, 112u8, 105u8, 110u8, 110u8, 101u8, 100u8, 34u8, 58u8]
}

/// The bytes of `{"device_id":`.
pub open spec fn bytes_key_device_id() -> Seq<u8> {
    seq![123u8, 34u8, 100u8, 101u8, 118u8, 105u8, 99u8, 101u8, 95u8, 105u8, 100u8, 34u8, 58u8]
}

/// The bytes of `,"device_name":`.
pub open spec fn bytes_key_device_name() -> Seq<u8> {
    seq![44u8, 34u8, 100u8, 101u8, 118u8, 105u8, 99u8, 101u8, 95u8, 110u8, 97u8, 109u8, 101u8, 34u8, 58u8]
}

/// The bytes of `,"last_sync":`.
pub open spec fn bytes_key_last_sync() -> Seq<u8> {
    seq![44u8, 34u8, 108u8, 97u8, 115u8, 116u8, 95u8, 115u8, 121u8, 110u8, 99u8, 34u8, 58u8]
}

/// The bytes of `{"since_timestamp":`.
pub open spec fn bytes_key_since() -> Seq<u8> {
    seq![123u8, 34u8, 115u8, 105u8, 110u8, 99u8, 101u8, 95u8, 116u8, 105u8, 109u8, 101u8, 115u8, 116u8, 97u8, 109u8, 112u8, 34u8, 58u8]
}

/// The bytes of `{"items":[`.
pub open spec fn bytes_key_items() -> Seq<u8> {
    seq![123u8, 34u8, 105u8, 116u8, 101u8, 109u8, 115u8, 34u8, 58u8, 91u8]
}

/// The bytes of `{"code":`.
pub open spec fn bytes_key_code() -> Seq<u8> {
    seq![123u8, 34u8, 99u8, 111u8, 100u8, 101u8, 34u8, 58u8]
}

/// The bytes of `,"message":`.
pub open spec fn bytes_key_message() -> Seq<u8> {
    seq![44u8, 34u8, 109u8, 101u8, 115u8, 115u8, 97u8, 103u8, 101u8, 34u8, 58u8]
}

/// The bytes of `true`.
pub open spec fn bytes_lit_true() -> Seq<u8> {
    seq![116u8, 114u8, 117u8, 101u8]
}

/// The bytes of `false`.
pub open spec fn bytes_lit_false() -> Seq<u8> {
    seq![102u8, 97u8, 108u8, 115u8, 101u8]
}

/// The bytes of `null`.
pub open spec fn bytes_lit_null() -> Seq<u8> {
    seq![110u8, 117u8, 108u8, 108u8]
}

/// Lower-case hex digit for a value below 16.
pub open spec fn spec_hex_digit(n: u8) -> u8 {
    if n < 10 {
        (48 + n) as u8
    } else {
        (87 + n) as u8
    }
}

/// How one byte of string content is written: `\"`, `\\`, `\u00XX` for
/// control bytes, and itself otherwise.
pub open spec fn esc_byte(b: u8) -> Seq<u8> {
    if b == 34 {
        seq![92u8, 34u8]
    } else if b == 92 {
        seq![92u8, 92u8]
    } else if b < 32 {
        seq![92u8, 117u8, 48u8, 48u8, spec_hex_digit(b / 16), spec_hex_digit(b % 16)]
    } else {
        seq![b]
    }
}

/// String content, escaped byte by byte.
pub open spec fn esc_bytes(bs: Seq<u8>) -> Seq<u8>
    decreases bs.len(),
{
    if bs.len() == 0 {
        Seq::<u8>::empty()
    } else {
        esc_byte(bs[0]) + esc_bytes(bs.drop_first())
    }
}

/// A JSON string: quote, escaped UTF-8 content, quote.
pub open spec fn json_str(s: Seq<char>) -> Seq<u8> {
    seq![34u8] + esc_bytes(encode_utf8(s)) + seq![34u8]
}

/// Decimal digits of `n`, no leading zeros.
pub open spec fn dec_digits(n: nat) -> Seq<u8>
    decreases n,
{
    if n < 10 {
        seq![(48 + n) as u8]
    } else {
        dec_digits(n / 10) + seq![(48 + n % 10) as u8]
    }
}

/// A JSON integer, `-` then digits when negative.
pub open spec fn json_int(v: int) -> Seq<u8> {
    if v < 0 {
        seq![45u8] + dec_digits((-v) as nat)
    } else {
        dec_digits(v as nat)
    }
}

/// A JSON boolean.
pub open spec fn json_bool(b: bool) -> Seq<u8> {
    if b {
        bytes_lit_true()
    } else {
        bytes_lit_false()
    }
}

/// An optional title: `null` or a JSON string.
pub open spec fn json_title(t: Option<Seq<char>>) -> Seq<u8> {
    match t {
        Some(s) => json_str(s),
        None => bytes_lit_null(),
    }
}

/// One item object, fields in declaration order.
pub open spec fn json_item(it: ItemModel) -> Seq<u8> {
    bytes_key_id() + json_str(it.id) + bytes_key_content() + json_str(it.content)
        + bytes_key_title() + json_title(it.title) + bytes_key_created_at() + json_int(
        it.created_at,
    ) + bytes_key_updated_at() + json_int(it.updated_at) + bytes_key_is_pinned() + json_bool(
        it.is_pinned,
    ) + seq![125u8]
}

/// The items of a batch after the first, each preceded by a comma.
pub open spec fn json_items_tail(items: Seq<ItemModel>) -> Seq<u8>
    decreases items.len(),
{
    if items.len() == 0 {
        Seq::<u8>::empty()
    } else {
        seq![44u8] + json_item(items[0]) + json_items_tail(items.drop_first())
    }
}

/// A comma-separated batch of item objects.
pub open spec fn json_items(items: Seq<ItemModel>) -> Seq<u8> {
    if items.len() == 0 {
        Seq::<u8>::empty()
    } else {
        json_item(items[0]) + json_items_tail(items.drop_first())
    }
}

/// One bound-device object, fields in declaration order.
pub open spec fn json_device(d: DeviceModel) -> Seq<u8> {
    bytes_key_device_id() + json_str(d.device_id) + bytes_key_device_name() + json_str(
        d.device_name,
    ) + bytes_key_last_sync() + json_int(d.last_sync) + seq![125u8]
}

/// The devices after the first, each preceded by a comma.
pub open spec fn json_devices_tail(ds: Seq<DeviceModel>) -> Seq<u8>
    decreases ds.len(),
{
    if ds.len() == 0 {
        Seq::<u8>::empty()
    } else {
        seq![44u8] + json_device(ds[0]) + json_devices_tail(ds.drop_first())
    }
}

/// The settings blob that holds the bound-device list: a JSON array of
/// device objects.
pub open spec fn json_device_list(ds: Seq<DeviceModel>) -> Seq<u8> {
    if ds.len() == 0 {
        seq![91u8, 93u8]
    } else {
        seq![91u8] + json_device(ds[0]) + json_devices_tail(ds.drop_first()) + seq![93u8]
    }
}

/// One whole frame: the variant tag, its payload object, and the closing
/// brace.
pub open spec fn spec_frame(m: MessageModel) -> Seq<u8> {
    match m {
        MessageModel::Connect { device_id, device_name } => bytes_tag_connect()
            + bytes_key_device_id() + json_str(device_id) + bytes_key_device_name() + json_str(
            device_name,
        ) + seq![125u8, 125u8],
        MessageModel::ItemUpdate(it) => bytes_tag_item_update() + json_item(it) + seq![125u8],
        MessageModel::ItemDelete { id } => bytes_tag_item_delete() + bytes_key_id() + json_str(id)
            + seq![125u8, 125u8],
        MessageModel::SyncRequest { since_timestamp } => bytes_tag_sync_request()
            + bytes_key_since() + json_int(since_timestamp) + seq![125u8, 125u8],
        MessageModel::SyncResponse { items } => bytes_tag_sync_response() + bytes_key_items()
            + json_items(items) + seq![93u8, 125u8, 125u8],
        MessageModel::Error { code, message } => bytes_tag_error() + bytes_key_code() + json_str(
            code,
        ) + bytes_key_message() + json_str(message) + seq![125u8, 125u8],
    }
}

/// Append a fixed run of bytes.
fn push_bytes(out: &mut Vec<u8>, bs: &[u8])
    ensures
        final(out)@ == old(out)@ + bs@,
{
    let n = bs.len();
    let mut i: usize = 0;
    while i < n
        invariant
            n == bs@.len(),
            i <= n,
            out@ == old(out)@ + bs@.take(i as int),
        decreases n - i,
    {
        out.push(bs[i]);
        proof {
            assert(old(out)@ + bs@.take(i as int) + seq![bs@[i as int]] =~= old(out)@ + bs@.take(
                i as int + 1,
            ));
        }
        i = i + 1;
    }
    proof {
        assert(old(out)@ + bs@.take(n as int) =~= old(out)@ + bs@);
    }
}

fn hex_digit(n: u8) -> (d: u8)
    requires
        n < 16,
    ensures
        d == spec_hex_digit(n),
{
    if n < 10 {
        48 + n
    } else {
        87 + n
    }
}

proof fn lemma_esc_bytes_snoc(bs: Seq<u8>, b: u8)
    ensures
        esc_bytes(bs.push(b)) == esc_bytes(bs) + esc_byte(b),
    decreases bs.len(),
{
    let p = bs.push(b);
    if bs.len() == 0 {
        assert(p[0] == b);
        assert(p.drop_first() =~= Seq::<u8>::empty());
        assert(esc_bytes(p) == esc_byte(b) + esc_bytes(Seq::<u8>::empty()));
        assert(esc_byte(b) + Seq::<u8>::empty() =~= esc_byte(b));
        assert(Seq::<u8>::empty() + esc_byte(b) =~= esc_byte(b));
    } else {
        assert(p[0] == bs[0]);
        assert(p.drop_first() =~= bs.drop_first().push(b));
        lemma_esc_bytes_snoc(bs.drop_first(), b);
        assert(esc_bytes(p) == esc_byte(bs[0]) + (esc_bytes(bs.drop_first()) + esc_byte(b)));
        assert(esc_byte(bs[0]) + (esc_bytes(bs.drop_first()) + esc_byte(b)) =~= (esc_byte(bs[0])
            + esc_bytes(bs.drop_first())) + esc_byte(b));
    }
}

/// Append a JSON string holding `s`.
fn push_json_str(out: &mut Vec<u8>, s: &str)
    ensures
        final(out)@ == old(out)@ + json_str(s@),
{
    out.push(34);
    let ghost start = out@;
    let bs = s.as_bytes();
    let n = bs.len();
    let mut i: usize = 0;
    while i < n
        invariant
            n == bs@.len(),
            i <= n,
            out@ == start + esc_bytes(bs@.take(i as int)),
        decreases n - i,
    {
        let ghost before = out@;
        let b = bs[i];
        if b == 34 {
            out.push(92);
            out.push(34);
        } else if b == 92 {
            out.push(92);
            out.push(92);
        } else if b < 32 {
            out.push(92);
            out.push(117);
            out.push(48);
            out.push(48);
            out.push(hex_digit(b / 16));
            out.push(hex_digit(b % 16));
        } else {
            out.push(b);
        }
        proof {
            assert(out@ =~= before + esc_byte(bs@[i as int]));
            lemma_esc_bytes_snoc(bs@.take(i as int), bs@[i as int]);
            assert(bs@.take(i as int).push(bs@[i as int]) =~= bs@.take(i as int + 1));
            assert(out@ =~= start + esc_bytes(bs@.take(i as int + 1)));
        }
        i = i + 1;
    }
    out.push(34);
    proof {
        assert(bs@.take(n as int) =~= bs@);
        assert(out@ =~= old(out)@ + json_str(s@));
    }
}

/// Append the decimal digits of `m`.
fn push_dec(out: &mut Vec<u8>, m: u64)
    ensures
        final(out)@ == old(out)@ + dec_digits(m as nat),
{
    let mut tmp: Vec<u8> = Vec::new();
    let mut n: u64 = m;
    if n == 0 {
        out.push(48);
        proof {
            assert(out@ =~= old(out)@ + dec_digits(0));
        }
        return ;
    }
    while n > 0
        invariant
            n > 0 ==> dec_digits(m as nat) == dec_digits(n as nat) + tmp@.reverse(),
            n == 0 ==> dec_digits(m as nat) == tmp@.reverse(),
        decreases n,
    {
        let ghost tprev = tmp@;
        let d: u8 = 48 + (n % 10) as u8;
        tmp.push(d);
        proof {
            assert(tmp@.reverse() =~= seq![d] + tprev.reverse());
            if n >= 10 {
                assert(dec_digits(n as nat) == dec_digits((n as nat) / 10) + seq![d]);
                assert(dec_digits((n as nat) / 10) + seq![d] + tprev.reverse() =~= dec_digits(
                    (n as nat) / 10,
                ) + (seq![d] + tprev.reverse()));
                assert((n / 10) as nat == (n as nat) / 10);
            } else {
                assert(dec_digits(n as nat) == seq![d]);
                assert(seq![d] + tprev.reverse() =~= dec_digits(n as nat) + tprev.reverse());
            }
        }
        n = n / 10;
    }
    let ghost digits = tmp@.reverse();
    let k = tmp.len();
    let mut j: usize = 0;
    while j < k
        invariant
            k == tmp@.len(),
            j <= k,
            digits == tmp@.reverse(),
            dec_digits(m as nat) == digits,
            out@ == old(out)@ + digits.take(j as int),
        decreases k - j,
    {
        out.push(tmp[k - 1 - j]);
        proof {
            assert(digits[j as int] == tmp@[k - 1 - j as int]);
            assert(old(out)@ + digits.take(j as int) + seq![digits[j as int]] =~= old(out)@
                + digits.take(j as int + 1));
        }
        j = j + 1;
    }
    proof {
        assert(digits.take(k as int) =~= digits);
    }
}

/// Append a JSON integer.
fn push_json_int(out: &mut Vec<u8>, v: i64)
    ensures
        final(out)@ == old(out)@ + json_int(v as int),
{
    if v < 0 {
        out.push(45);
        let m: u64 = ((-(v + 1)) as u64) + 1;
        proof {
            assert(m as nat == (-(v as int)) as nat);
        }
        let ghost mid = out@;
        push_dec(out, m);
        proof {
            assert(out@ =~= old(out)@ + json_int(v as int));
        }
    } else {
        push_dec(out, v as u64);
    }
}

/// Append a JSON boolean.
fn push_json_bool(out: &mut Vec<u8>, b: bool)
    ensures
        final(out)@ == old(out)@ + json_bool(b),
{
    if b {
        push_bytes(out, &[116, 114, 117, 101]);
        proof {
            assert(out@ =~= old(out)@ + json_bool(b));
        }
    } else {
        push_bytes(out, &[102, 97, 108, 115, 101]);
        proof {
            assert(out@ =~= old(out)@ + json_bool(b));
        }
    }
}

/// Append one item object.
#[verifier::rlimit(100)]
fn push_item(out: &mut Vec<u8>, item: &ClipboardItem)
    ensures
        final(out)@ == old(out)@ + json_item(item@),
{
    push_bytes(out, &[123, 34, 105, 100, 34, 58]);
    push_json_str(out, item.id.as_str());
    push_bytes(out, &[44, 34, 99, 111, 110, 116, 101, 110, 116, 34, 58]);
    push_json_str(out, item.content.as_str());
    push_bytes(out, &[44, 34, 116, 105, 116, 108, 101, 34, 58]);
    match &item.title {
        Some(t) => {
            push_json_str(out, t.as_str());
        },
        None => {
            push_bytes(out, &[110, 117, 108, 108]);
        },
    }
    push_bytes(out, &[44, 34, 99, 114, 101, 97, 116, 101, 100, 95, 97, 116, 34, 58]);
    push_json_int(out, item.created_at);
    push_bytes(out, &[44, 34, 117, 112, 100, 97, 116, 101, 100, 95, 97, 116, 34, 58]);
    push_json_int(out, item.updated_at);
    push_bytes(out, &[44, 34, 105, 115, 95, 112, 105, 110, 110, 101, 100, 34, 58]);
    push_json_bool(out, item.is_pinned);
    out.push(125);
    proof {
        assert(out@ =~= old(out)@ + json_item(item@));
    }
}

/// Encode one protocol frame as its wire bytes; `decode_frame` returns
/// exactly the encoded message (the codec round trip).
pub fn encode_frame(msg: &SyncMessage) -> (out: Vec<u8>)
    ensures
        out@ == spec_frame(msg@),
{
    let mut out: Vec<u8> = Vec::new();
    proof {
        assert(out@ =~= Seq::<u8>::empty());
    }
    match msg {
        SyncMessage::Connect { device_id, device_name } => {
            push_bytes(&mut out, &[123, 34, 67, 111, 110, 110, 101, 99, 116, 34, 58]);
            push_bytes(
                &mut out,
                &[123, 34, 100, 101, 118, 105, 99, 101, 95, 105, 100, 34, 58],
            );
            push_json_str(&mut out, device_id.as_str());
            push_bytes(
                &mut out,
                &[44, 34, 100, 101, 118, 105, 99, 101, 95, 110, 97, 109, 101, 34, 58],
            );
            push_json_str(&mut out, device_name.as_str());
            push_bytes(&mut out, &[125, 125]);
            proof {
                assert(out@ =~= spec_frame(msg@));
            }
        },
        SyncMessage::ItemUpdate(item) => {
            push_bytes(
                &mut out,
                &[123, 34, 73, 116, 101, 109, 85, 112, 100, 97, 116, 101, 34, 58],
            );
            push_item(&mut out, item);
            out.push(125);
            proof {
                assert(out@ =~= spec_frame(msg@));
            }
        },
        SyncMessage::ItemDelete { id } => {
            push_bytes(
                &mut out,
                &[123, 34, 73, 116, 101, 109, 68, 101, 108, 101, 116, 101, 34, 58],
            );
            push_bytes(&mut out, &[123, 34, 105, 100, 34, 58]);
            push_json_str(&mut out, id.as_str());
            push_bytes(&mut out, &[125, 125]);
            proof {
                assert(out@ =~= spec_frame(msg@));
            }
        },
        SyncMessage::SyncRequest { since_timestamp } => {
            push_bytes(
                &mut out,
                &[123, 34, 83, 121, 110, 99, 82, 101, 113, 117, 101, 115, 116, 34, 58],
            );
            push_bytes(
                &mut out,
                &[
                    123,
                    34,
                    115,
                    105,
                    110,
                    99,
                    101,
                    95,
                    116,
                    105,
                    109,
                    101,
                    115,
                    116,
                    97,
                    109,
                    112,
                    34,
                    58,
                ],
            );
            push_json_int(&mut out, *since_timestamp);
            push_bytes(&mut out, &[125, 125]);
            proof {
                assert(out@ =~= spec_frame(msg@));
            }
        },
        SyncMessage::SyncResponse { items } => {
            push_bytes(
                &mut out,
                &[123, 34, 83, 121, 110, 99, 82, 101, 115, 112, 111, 110, 115, 101, 34, 58],
            );
            push_bytes(&mut out, &[123, 34, 105, 116, 101, 109, 115, 34, 58, 91]);
            let ghost views = crate::store::items_of(items@);
            let n = items.len();
            let mut i: usize = 0;
            let ghost head = out@;
            while i < n
                invariant
                    n == items@.len(),
                    i <= n,
                    views == crate::store::items_of(items@),
                    out@ == head + json_items(views.take(i as int)),
                decreases n - i,
            {
                let ghost before = out@;
                if i > 0 {
                    out.push(44);
                }
                push_item(&mut out, &items[i]);
                proof {
                    if i == 0 {
                        assert(views.take(0) =~= Seq::<ItemModel>::empty());
                        assert(before =~= head);
                        assert(views.take(1)[0] == views[0]);
                        assert(views.take(1).drop_first() =~= Seq::<ItemModel>::empty());
                        assert(out@ =~= head + json_items(views.take(1)));
                    } else {
                        lemma_json_items_snoc(views.take(i as int), views[i as int]);
                        assert(views.take(i as int).push(views[i as int]) =~= views.take(
                            i as int + 1,
                        ));
                        assert(out@ =~= head + json_items(views.take(i as int + 1)));
                    }
                }
                i = i + 1;
            }
            proof {
                assert(views.take(n as int) =~= views);
            }
            push_bytes(&mut out, &[93, 125, 125]);
            proof {
                assert(out@ =~= spec_frame(msg@));
            }
        },
        SyncMessage::Error { code, message } => {
            push_bytes(&mut out, &[123, 34, 69, 114, 114, 111, 114, 34, 58]);
            push_bytes(&mut out, &[123, 34, 99, 111, 100, 101, 34, 58]);
            push_json_str(&mut out, code.as_str());
            push_bytes(&mut out, &[44, 34, 109, 101, 115, 115, 97, 103, 101, 34, 58]);
            push_json_str(&mut out, message.as_str());
            push_bytes(&mut out, &[125, 125]);
            proof {
                assert(out@ =~= spec_frame(msg@));
            }
        },
    }
    out
}

/// A nonempty list grows at the back by a comma and one more object.
proof fn lemma_json_items_snoc(items: Seq<ItemModel>, x: ItemModel)
    requires
        items.len() > 0,
    ensures
        json_items(items.push(x)) == json_items(items) + seq![44u8] + json_item(x),
    decreases items.len(),
{
    lemma_json_items_tail_snoc(items.drop_first(), x);
    assert(items.push(x)[0] == items[0]);
    assert(items.push(x).drop_first() =~= items.drop_first().push(x));
    assert(json_items(items.push(x)) =~= json_items(items) + seq![44u8] + json_item(x));
}

proof fn lemma_json_items_tail_snoc(items: Seq<ItemModel>, x: ItemModel)
    ensures
        json_items_tail(items.push(x)) == json_items_tail(items) + seq![44u8] + json_item(x),
    decreases items.len(),
{
    let p = items.push(x);
    if items.len() == 0 {
        assert(p[0] == x);
        assert(p.drop_first() =~= Seq::<ItemModel>::empty());
        assert(json_items_tail(p) == seq![44u8] + json_item(x) + json_items_tail(
            Seq::<ItemModel>::empty(),
        ));
        assert(seq![44u8] + json_item(x) + Seq::<u8>::empty() =~= seq![44u8] + json_item(x));
        assert(Seq::<u8>::empty() + seq![44u8] + json_item(x) =~= seq![44u8] + json_item(x));
    } else {
        assert(p[0] == items[0]);
        assert(p.drop_first() =~= items.drop_first().push(x));
        lemma_json_items_tail_snoc(items.drop_first(), x);
        let a = seq![44u8] + json_item(items[0]);
        let b = json_items_tail(items.drop_first());
        let c = seq![44u8] + json_item(x);
        assert(json_items_tail(p) == a + (b + c));
        assert(a + (b + c) =~= (a + b) + c);
        assert(json_items_tail(items) + seq![44u8] + json_item(x) =~= (a + b) + c);
    }
}

/// Encode the bound-device list as its settings-blob bytes.
pub fn encode_device_list(devices: &Vec<DeviceInfo>) -> (out: Vec<u8>)
    ensures
        out@ == json_device_list(devices@.map(|k: int, d: DeviceInfo| d@)),
{
    let ghost views = devices@.map(|k: int, d: DeviceInfo| d@);
    let mut out: Vec<u8> = Vec::new();
    out.push(91);
    proof {
        assert(out@ =~= seq![91u8]);
    }
    let n = devices.len();
    let mut i: usize = 0;
    let ghost head = out@;
    while i < n
        invariant
            n == devices@.len(),
            i <= n,
            views == devices@.map(|k: int, d: DeviceInfo| d@),
            i == 0 ==> out@ == head,
            i > 0 ==> out@ == head + json_device(views[0]) + json_devices_tail(
                views.take(i as int).drop_first(),
            ),
        decreases n - i,
    {
        if i > 0 {
            out.push(44);
        }
        push_device(&mut out, &devices[i]);
        proof {
            if i == 0 {
                assert(views.take(1).drop_first() =~= Seq::<DeviceModel>::empty());
                assert(out@ =~= head + json_device(views[0]) + json_devices_tail(
                    views.take(1).drop_first(),
                ));
            } else {
                lemma_json_devices_tail_snoc(views.take(i as int).drop_first(), views[i as int]);
                assert(views.take(i as int).drop_first().push(views[i as int]) =~= views.take(
                    i as int + 1,
                ).drop_first());
                assert(out@ =~= head + json_device(views[0]) + json_devices_tail(
                    views.take(i as int + 1).drop_first(),
                ));
            }
        }
        i = i + 1;
    }
    out.push(93);
    proof {
        if n == 0 {
            assert(out@ =~= json_device_list(views));
        } else {
            assert(views.take(n as int) =~= views);
            assert(out@ =~= json_device_list(views));
        }
    }
    out
}

proof fn lemma_json_devices_tail_snoc(ds: Seq<DeviceModel>, x: DeviceModel)
    ensures
        json_devices_tail(ds.push(x)) == json_devices_tail(ds) + seq![44u8] + json_device(x),
    decreases ds.len(),
{
    let p = ds.push(x);
    if ds.len() == 0 {
        assert(p[0] == x);
        assert(p.drop_first() =~= Seq::<DeviceModel>::empty());
        assert(json_devices_tail(p) == seq![44u8] + json_device(x) + json_devices_tail(
            Seq::<DeviceModel>::empty(),
        ));
        assert(seq![44u8] + json_device(x) + Seq::<u8>::empty() =~= seq![44u8] + json_device(x));
        assert(Seq::<u8>::empty() + seq![44u8] + json_device(x) =~= seq![44u8] + json_device(x));
    } else {
        assert(p[0] == ds[0]);
        assert(p.drop_first() =~= ds.drop_first().push(x));
        lemma_json_devices_tail_snoc(ds.drop_first(), x);
        let a = seq![44u8] + json_device(ds[0]);
        let b = json_devices_tail(ds.drop_first());
        let c = seq![44u8] + json_device(x);
        assert(json_devices_tail(p) == a + (b + c));
        assert(a + (b + c) =~= (a + b) + c);
        assert(json_devices_tail(ds) + seq![44u8] + json_device(x) =~= (a + b) + c);
    }
}

/// Append one bound-device object.
fn push_device(out: &mut Vec<u8>, d: &DeviceInfo)
    ensures
        final(out)@ == old(out)@ + json_device(d@),
{
    push_bytes(out, &[123, 34, 100, 101, 118, 105, 99, 101, 95, 105, 100, 34, 58]);
    push_json_str(out, d.device_id.as_str());
    push_bytes(out, &[44, 34, 100, 101, 118, 105, 99, 101, 95, 110, 97, 109, 101, 34, 58]);
    push_json_str(out, d.device_name.as_str());
    push_bytes(out, &[44, 34, 108, 97, 115, 116, 95, 115, 121, 110, 99, 34, 58]);
    push_json_int(out, d.last_sync);
    out.push(125);
    proof {
        assert(out@ =~= old(out)@ + json_device(d@));
    }
}

} // verus!
