//! Decoding of wire frames and of the bound-device settings blob.
//!
//! The decoder accepts exactly the text that `jsonenc` produces: fixed
//! field order, no padding. Anything else is a protocol error; the frame
//! is dropped and the connection stays up. `decode_frame` returns exactly
//! the message a frame encodes: the codec round trip, stated in its
//! contract and proved for every message.

use vstd::prelude::*;
use crate::devices::{DeviceInfo, DeviceModel};
use crate::error::SyncError;
use crate::item::{ClipboardItem, ItemModel};
use crate::protocol::{MessageModel, SyncMessage, item_wf, msg_wf};
use crate::jsonenc::{
    bytes_key_code, bytes_key_content, bytes_key_created_at, bytes_key_device_id,
    bytes_key_device_name, bytes_key_id, bytes_key_is_pinned, bytes_key_items, bytes_key_last_sync,
    bytes_key_message, bytes_key_since, bytes_key_title, bytes_key_updated_at, bytes_lit_false,
    bytes_lit_null, bytes_lit_true, bytes_tag_connect, bytes_tag_error, bytes_tag_item_delete,
    bytes_tag_item_update, bytes_tag_sync_request, bytes_tag_sync_response, dec_digits, esc_byte,
    esc_bytes, json_bool, json_device, json_device_list, json_devices_tail, json_int, json_item,
    json_items, json_items_tail, json_str, json_title, spec_frame, spec_hex_digit,
};
use crate::strutil::bytes_to_string;
use vstd::utf8::{
    decode_utf8, encode_utf8, encode_utf8_decode_utf8, encode_utf8_valid_utf8, valid_utf8,
};

verus! {

/// The consumed prefix ends at `j` when the literal sits at `i`.
pub open spec fn spec_expect(s: Seq<u8>, i: int, lit: Seq<u8>) -> Option<int> {
    if 0 <= i && i + lit.len() <= s.len() && s.subrange(i, i + lit.len()) == lit {
        Some(i + lit.len())
    } else {
        None
    }
}

/// A decimal digit byte.
pub open spec fn is_digit(b: u8) -> bool {
    48 <= b <= 57
}

/// A lower-case hex digit byte.
pub open spec fn is_hex_digit(b: u8) -> bool {
    (48 <= b <= 57) || (97 <= b <= 102)
}

/// Value of a lower-case hex digit byte.
pub open spec fn hex_val(b: u8) -> int {
    if b <= 57 {
        b - 48
    } else {
        b - 87
    }
}

/// String content from position `i` (after the opening quote) up to the
/// closing quote, unescaped into bytes appended to `acc`.
pub open spec fn spec_parse_strbytes(s: Seq<u8>, i: int, acc: Seq<u8>) -> Option<(Seq<u8>, int)>
    decreases s.len() - i,
{
    if i < 0 || i >= s.len() {
        None
    } else {
        let b = s[i];
        if b == 34 {
            Some((acc, i + 1))
        } else if b == 92 {
            if i + 1 >= s.len() {
                None
            } else {
                let c = s[i + 1];
                if c == 34 || c == 92 {
                    spec_parse_strbytes(s, i + 2, acc.push(c))
                } else if c == 117 {
                    if i + 5 >= s.len() {
                        None
                    } else {
                        let h1 = s[i + 4];
                        let h2 = s[i + 5];
                        if s[i + 2] == 48 && s[i + 3] == 48 && is_hex_digit(h1) && is_hex_digit(h2)
                            && hex_val(h1) * 16 + hex_val(h2) < 32 {
                            spec_parse_strbytes(s, i + 6, acc.push((hex_val(h1) * 16 + hex_val(h2)) as u8))
                        } else {
                            None
                        }
                    }
                } else {
                    None
                }
            }
        } else if b >= 32 {
            spec_parse_strbytes(s, i + 1, acc.push(b))
        } else {
            None
        }
    }
}

/// A whole JSON string starting at `i`: its characters and the position
/// after the closing quote.
pub open spec fn spec_parse_string(s: Seq<u8>, i: int) -> Option<(Seq<char>, int)> {
    if 0 <= i && i < s.len() && s[i] == 34 {
        match spec_parse_strbytes(s, i + 1, Seq::<u8>::empty()) {
            Some((bytes, j)) => if valid_utf8(bytes) {
                Some((decode_utf8(bytes), j))
            } else {
                None
            },
            None => None,
        }
    } else {
        None
    }
}

/// A run of digits starting at `i`, folded onto `acc`; stops at the first
/// non-digit, fails past the largest 64-bit value.
pub open spec fn spec_parse_digits(s: Seq<u8>, i: int, acc: int) -> Option<(int, int)>
    decreases s.len() - i,
{
    if i < 0 {
        None
    } else if i >= s.len() || !is_digit(s[i]) {
        Some((acc, i))
    } else {
        let v = acc * 10 + (s[i] - 48);
        if v > u64::MAX as int {
            None
        } else {
            spec_parse_digits(s, i + 1, v)
        }
    }
}

/// A JSON integer starting at `i`, within the 64-bit signed range.
pub open spec fn spec_parse_int(s: Seq<u8>, i: int) -> Option<(int, int)> {
    if i < 0 || i >= s.len() {
        None
    } else if s[i] == 45 {
        if i + 1 >= s.len() || !is_digit(s[i + 1]) {
            None
        } else {
            match spec_parse_digits(s, i + 1, 0) {
                Some((m, j)) => if m <= 0x8000_0000_0000_0000 {
                    Some((-m, j))
                } else {
                    None
                },
                None => None,
            }
        }
    } else if is_digit(s[i]) {
        match spec_parse_digits(s, i, 0) {
            Some((m, j)) => if m <= i64::MAX as int {
                Some((m, j))
            } else {
                None
            },
            None => None,
        }
    } else {
        None
    }
}

/// A JSON boolean starting at `i`.
pub open spec fn spec_parse_bool(s: Seq<u8>, i: int) -> Option<(bool, int)> {
    match spec_expect(s, i, bytes_lit_true()) {
        Some(j) => Some((true, j)),
        None => match spec_expect(s, i, bytes_lit_false()) {
            Some(j) => Some((false, j)),
            None => None,
        },
    }
}

/// An optional title starting at `i`: `null` or a JSON string.
pub open spec fn spec_parse_title(s: Seq<u8>, i: int) -> Option<(Option<Seq<char>>, int)> {
    match spec_expect(s, i, bytes_lit_null()) {
        Some(j) => Some((None, j)),
        None => match spec_parse_string(s, i) {
            Some((content, j)) => Some((Some(content), j)),
            None => None,
        },
    }
}

/// Whether the literal sits at position `i` of `s`.
fn expect_lit(s: &[u8], i: usize, lit: &[u8]) -> (r: Option<usize>)
    requires
        i <= s@.len(),
    ensures
        r is Some <==> spec_expect(s@, i as int, lit@) is Some,
        r matches Some(j) ==> spec_expect(s@, i as int, lit@) == Some(j as int) && i <= j
            <= s@.len(),
{
    let n = lit.len();
    if s.len() - i < n {
        proof {
            assert(spec_expect(s@, i as int, lit@) is None);
        }
        return None;
    }
    let mut k: usize = 0;
    while k < n
        invariant
            i + n <= s@.len(),
            s@.len() <= usize::MAX,
            n == lit@.len(),
            k <= n,
            forall|t: int| 0 <= t < k ==> s@[i + t] == lit@[t],
        decreases n - k,
    {
        if s[i + k] != lit[k] {
            proof {
                assert(s@.subrange(i as int, i + lit@.len()) != lit@) by {
                    if s@.subrange(i as int, i + lit@.len()) == lit@ {
                        assert(s@.subrange(i as int, i + lit@.len())[k as int] == s@[i + k]);
                    }
                }
            }
            return None;
        }
        k = k + 1;
    }
    proof {
        assert(s@.subrange(i as int, i + lit@.len()) =~= lit@);
    }
    Some(i + n)
}

/// Unescape string content starting after the opening quote.
fn parse_strbytes(s: &[u8], i: usize) -> (r: Option<(Vec<u8>, usize)>)
    requires
        i <= s@.len(),
    ensures
        r is Some <==> spec_parse_strbytes(s@, i as int, Seq::<u8>::empty()) is Some,
        r matches Some((v, j)) ==> spec_parse_strbytes(s@, i as int, Seq::<u8>::empty()) == Some(
            (v@, j as int),
        ) && i < j <= s@.len(),
{
    let n = s.len();
    let mut acc: Vec<u8> = Vec::new();
    let mut p: usize = i;
    proof {
        assert(acc@ =~= Seq::<u8>::empty());
    }
    while p < n
        invariant
            n == s@.len(),
            i <= p <= n,
            spec_parse_strbytes(s@, i as int, Seq::<u8>::empty()) == spec_parse_strbytes(
                s@,
                p as int,
                acc@,
            ),
        decreases n - p,
    {
        let b = s[p];
        if b == 34 {
            return Some((acc, p + 1));
        } else if b == 92 {
            if n - p < 2 {
                return None;
            }
            let c = s[p + 1];
            if c == 34 || c == 92 {
                acc.push(c);
                p = p + 2;
            } else if c == 117 {
                if n - p < 6 {
                    return None;
                }
                let h1 = s[p + 4];
                let h2 = s[p + 5];
                let h1_ok = (48 <= h1 && h1 <= 57) || (97 <= h1 && h1 <= 102);
                let h2_ok = (48 <= h2 && h2 <= 57) || (97 <= h2 && h2 <= 102);
                if s[p + 2] == 48 && s[p + 3] == 48 && h1_ok && h2_ok {
                    let v1: u8 = if h1 <= 57 {
                        h1 - 48
                    } else {
                        h1 - 87
                    };
                    let v2: u8 = if h2 <= 57 {
                        h2 - 48
                    } else {
                        h2 - 87
                    };
                    let v: u8 = v1 * 16 + v2;
                    if v < 32 {
                        acc.push(v);
                        p = p + 6;
                    } else {
                        return None;
                    }
                } else {
                    return None;
                }
            } else {
                return None;
            }
        } else if b >= 32 {
            acc.push(b);
            p = p + 1;
        } else {
            return None;
        }
    }
    None
}

/// Parse a whole JSON string starting at `i`.
fn parse_string(s: &[u8], i: usize) -> (r: Option<(String, usize)>)
    requires
        i <= s@.len(),
    ensures
        r is Some <==> spec_parse_string(s@, i as int) is Some,
        r matches Some((v, j)) ==> spec_parse_string(s@, i as int) == Some((v@, j as int)) && i
            < j <= s@.len(),
{
    if i >= s.len() || s[i] != 34 {
        return None;
    }
    match parse_strbytes(s, i + 1) {
        Some((bytes, j)) => {
            let ghost bv = bytes@;
            match bytes_to_string(bytes) {
                Some(text) => Some((text, j)),
                None => None,
            }
        },
        None => None,
    }
}

/// Parse a run of digits starting at `i`.
fn parse_digits(s: &[u8], i: usize) -> (r: Option<(u64, usize)>)
    requires
        i <= s@.len(),
    ensures
        r is Some <==> spec_parse_digits(s@, i as int, 0) is Some,
        r matches Some((v, j)) ==> spec_parse_digits(s@, i as int, 0) == Some(
            (v as int, j as int),
        ) && i <= j <= s@.len(),
{
    let n = s.len();
    let mut acc: u64 = 0;
    let mut p: usize = i;
    while p < n && s[p] >= 48 && s[p] <= 57
        invariant
            n == s@.len(),
            i <= p <= n,
            spec_parse_digits(s@, i as int, 0) == spec_parse_digits(s@, p as int, acc as int),
        decreases n - p,
    {
        let d: u64 = (s[p] - 48) as u64;
        let shifted = match acc.checked_mul(10) {
            Some(x) => x,
            None => {
                return None;
            },
        };
        let v = match shifted.checked_add(d) {
            Some(x) => x,
            None => {
                return None;
            },
        };
        acc = v;
        p = p + 1;
    }
    Some((acc, p))
}

/// Parse a JSON integer starting at `i`.
fn parse_int(s: &[u8], i: usize) -> (r: Option<(i64, usize)>)
    requires
        i <= s@.len(),
    ensures
        r is Some <==> spec_parse_int(s@, i as int) is Some,
        r matches Some((v, j)) ==> spec_parse_int(s@, i as int) == Some((v as int, j as int)) && i
            <= j <= s@.len(),
{
    if i >= s.len() {
        return None;
    }
    if s[i] == 45 {
        if i + 1 >= s.len() || s[i + 1] < 48 || s[i + 1] > 57 {
            return None;
        }
        match parse_digits(s, i + 1) {
            Some((m, j)) => {
                if m < 0x8000_0000_0000_0000 {
                    Some((-(m as i64), j))
                } else if m == 0x8000_0000_0000_0000 {
                    Some((i64::MIN, j))
                } else {
                    None
                }
            },
            None => None,
        }
    } else if s[i] >= 48 && s[i] <= 57 {
        match parse_digits(s, i) {
            Some((m, j)) => {
                if m <= i64::MAX as u64 {
                    Some((m as i64, j))
                } else {
                    None
                }
            },
            None => None,
        }
    } else {
        None
    }
}

/// Parse a JSON boolean starting at `i`.
fn parse_bool(s: &[u8], i: usize) -> (r: Option<(bool, usize)>)
    requires
        i <= s@.len(),
    ensures
        r is Some <==> spec_parse_bool(s@, i as int) is Some,
        r matches Some((v, j)) ==> spec_parse_bool(s@, i as int) == Some((v, j as int)) && i < j
            <= s@.len(),
{
    match expect_lit(s, i, &[116, 114, 117, 101]) {
        Some(j) => Some((true, j)),
        None => {
            match expect_lit(s, i, &[102, 97, 108, 115, 101]) {
                Some(j) => Some((false, j)),
                None => None,
            }
        },
    }
}

/// Concatenation of byte runs associates.
proof fn seq_assoc(a: Seq<u8>, b: Seq<u8>, c: Seq<u8>)
    ensures
        a + (b + c) == (a + b) + c,
{
    assert(a + (b + c) =~= (a + b) + c);
}

/// The first byte of the remaining input.
proof fn lemma_head(s: Seq<u8>, i: int, u: Seq<u8>)
    requires
        0 <= i <= s.len(),
        s.skip(i) == u,
        u.len() > 0,
    ensures
        i < s.len(),
        s[i] == u[0],
{
    assert(s.skip(i).len() == s.len() - i);
    assert(s.skip(i)[0] == s[i + 0]);
}

/// A single digit byte folds onto `acc` as one more decimal place.
proof fn lemma_digits_val_single(x: u8, acc: int)
    ensures
        digits_val(seq![x], acc) == acc * 10 + (x - 48),
{
    let d = seq![x];
    assert(d.drop_first() =~= Seq::<u8>::empty());
    assert(digits_val(d, acc) == digits_val(d.drop_first(), acc * 10 + (x - 48)));
    assert(digits_val(Seq::<u8>::empty(), acc * 10 + (x - 48)) == acc * 10 + (x - 48));
}

/// Consuming a leading block of `s.skip(i)` moves the tail into place.
proof fn lemma_skip_shift(s: Seq<u8>, i: int, a: Seq<u8>, t: Seq<u8>)
    requires
        0 <= i <= s.len(),
        s.skip(i) == a + t,
    ensures
        0 <= i + a.len() <= s.len(),
        s.skip(i + a.len()) == t,
{
    assert(s.skip(i).len() == a.len() + t.len());
    assert(s.skip(i + a.len()) =~= t) by {
        assert forall|k: int| 0 <= k < t.len() implies s.skip(i + a.len())[k] == t[k] by {
            assert(s.skip(i + a.len())[k] == s[i + a.len() + k]);
            assert(s.skip(i)[a.len() + k] == s[i + a.len() + k]);
            assert(s.skip(i)[a.len() + k] == (a + t)[a.len() + k]);
        }
    }
}

/// A literal at the head of the remaining input is consumed exactly.
proof fn lemma_expect_complete(s: Seq<u8>, i: int, lit: Seq<u8>, t: Seq<u8>)
    requires
        0 <= i <= s.len(),
        s.skip(i) == lit + t,
    ensures
        spec_expect(s, i, lit) == Some(i + lit.len()),
        i + lit.len() <= s.len(),
        s.skip(i + lit.len()) == t,
{
    assert(s.skip(i).len() == lit.len() + t.len());
    assert(s.subrange(i, i + lit.len()) =~= lit) by {
        assert forall|k: int| 0 <= k < lit.len() implies s.subrange(i, i + lit.len())[k]
            == lit[k] by {
            assert(s.skip(i)[k] == s[i + k]);
            assert(s.skip(i)[k] == (lit + t)[k]);
        }
    }
    lemma_skip_shift(s, i, lit, t);
}

proof fn lemma_hex_digit_val(x: u8)
    requires
        x < 16,
    ensures
        is_hex_digit(spec_hex_digit(x)),
        hex_val(spec_hex_digit(x)) == x as int,
{
}

/// Escaped content followed by a closing quote parses back to exactly the
/// content bytes.
proof fn lemma_strbytes_complete(s: Seq<u8>, i: int, acc: Seq<u8>, cb: Seq<u8>, t: Seq<u8>)
    requires
        0 <= i <= s.len(),
        s.skip(i) == esc_bytes(cb) + seq![34u8] + t,
    ensures
        spec_parse_strbytes(s, i, acc) == Some((acc + cb, i + esc_bytes(cb).len() + 1)),
        i + esc_bytes(cb).len() + 1 <= s.len(),
        s.skip(i + esc_bytes(cb).len() + 1) == t,
    decreases cb.len(),
{
    if cb.len() == 0 {
        assert(esc_bytes(cb) == Seq::<u8>::empty());
        assert(s.skip(i) =~= seq![34u8] + t);
        assert(s.skip(i).len() == 1 + t.len());
        assert(s[i] == 34) by {
            assert(s.skip(i)[0] == s[i]);
            assert(s.skip(i)[0] == (seq![34u8] + t)[0]);
        }
        assert(acc + cb =~= acc);
        lemma_skip_shift(s, i, seq![34u8], t);
    } else {
        let b0 = cb[0];
        let cbr = cb.drop_first();
        let e0 = esc_byte(b0);
        let tail = esc_bytes(cbr) + seq![34u8] + t;
        assert(esc_bytes(cb) == e0 + esc_bytes(cbr));
        assert(s.skip(i) =~= e0 + tail);
        lemma_skip_shift(s, i, e0, tail);
        assert forall|k: int| 0 <= k < e0.len() implies s[i + k] == e0[k] by {
            assert(s.skip(i)[k] == s[i + k]);
            assert(s.skip(i)[k] == (e0 + tail)[k]);
        }
        if b0 == 34 {
            assert(s[i] == 92 && s[i + 1] == 34);
            lemma_strbytes_complete(s, i + 2, acc.push(b0), cbr, t);
            assert(acc.push(b0) + cbr =~= acc + cb);
        } else if b0 == 92 {
            assert(s[i] == 92 && s[i + 1] == 92);
            lemma_strbytes_complete(s, i + 2, acc.push(b0), cbr, t);
            assert(acc.push(b0) + cbr =~= acc + cb);
        } else if b0 < 32 {
            assert(s[i] == 92 && s[i + 1] == 117 && s[i + 2] == 48 && s[i + 3] == 48);
            assert(s[i + 4] == spec_hex_digit(b0 / 16) && s[i + 5] == spec_hex_digit(b0 % 16));
            lemma_hex_digit_val(b0 / 16);
            lemma_hex_digit_val(b0 % 16);
            assert(hex_val(s[i + 4]) * 16 + hex_val(s[i + 5]) == b0 as int);
            lemma_strbytes_complete(s, i + 6, acc.push(b0), cbr, t);
            assert(acc.push(b0) + cbr =~= acc + cb);
        } else {
            assert(s[i + 0] == e0[0]);
            assert(s[i] == b0);
            lemma_strbytes_complete(s, i + 1, acc.push(b0), cbr, t);
            assert(acc.push(b0) + cbr =~= acc + cb);
        }
    }
}

/// A JSON string at the head of the remaining input parses back to
/// exactly its content.
proof fn lemma_string_complete(s: Seq<u8>, i: int, content: Seq<char>, t: Seq<u8>)
    requires
        0 <= i <= s.len(),
        s.skip(i) == json_str(content) + t,
    ensures
        spec_parse_string(s, i) == Some((content, i + json_str(content).len())),
        i + json_str(content).len() <= s.len(),
        s.skip(i + json_str(content).len()) == t,
{
    let cb = encode_utf8(content);
    let inner = esc_bytes(cb) + seq![34u8] + t;
    assert(s.skip(i) =~= seq![34u8] + inner);
    assert(s.skip(i).len() >= 1);
    assert(s[i] == 34) by {
        assert(s.skip(i)[0] == (seq![34u8] + inner)[0]);
    }
    lemma_skip_shift(s, i, seq![34u8], inner);
    lemma_strbytes_complete(s, i + 1, Seq::<u8>::empty(), cb, t);
    assert(Seq::<u8>::empty() + cb =~= cb);
    broadcast use encode_utf8_valid_utf8;
    broadcast use encode_utf8_decode_utf8;

    assert(spec_parse_string(s, i) == Some((content, i + 1 + esc_bytes(cb).len() + 1)));
    assert(json_str(content).len() == esc_bytes(cb).len() + 2);
    assert(s.skip(i + json_str(content).len()) == t) by {
        assert(i + json_str(content).len() == (i + 1) + esc_bytes(cb).len() + 1);
    }
}

/// Digit bytes folded most significant first onto `acc`.
pub open spec fn digits_val(ds: Seq<u8>, acc: int) -> int
    decreases ds.len(),
{
    if ds.len() == 0 {
        acc
    } else {
        digits_val(ds.drop_first(), acc * 10 + (ds[0] - 48))
    }
}

/// Every byte is a decimal digit.
pub open spec fn all_digits(ds: Seq<u8>) -> bool {
    forall|k: int| 0 <= k < ds.len() ==> is_digit(#[trigger] ds[k])
}

proof fn lemma_digits_val_append(a: Seq<u8>, b: Seq<u8>, acc: int)
    ensures
        digits_val(a + b, acc) == digits_val(b, digits_val(a, acc)),
    decreases a.len(),
{
    if a.len() == 0 {
        assert(a + b =~= b);
    } else {
        assert((a + b).drop_first() =~= a.drop_first() + b);
        lemma_digits_val_append(a.drop_first(), b, acc * 10 + (a[0] - 48));
    }
}

proof fn lemma_digits_val_ge(ds: Seq<u8>, acc: int)
    requires
        acc >= 0,
        all_digits(ds),
    ensures
        digits_val(ds, acc) >= acc,
    decreases ds.len(),
{
    if ds.len() > 0 {
        assert(is_digit(ds[0]));
        assert(all_digits(ds.drop_first())) by {
            assert(forall|k: int|
                0 <= k < ds.drop_first().len() ==> ds.drop_first()[k] == ds[k + 1]);
        }
        lemma_digits_val_ge(ds.drop_first(), acc * 10 + (ds[0] - 48));
    }
}

/// The decimal rendering of `n` consists of digits and reads back as `n`.
proof fn lemma_dec_digits_props(n: nat)
    ensures
        all_digits(dec_digits(n)),
        dec_digits(n).len() >= 1,
        digits_val(dec_digits(n), 0) == n,
        is_digit(dec_digits(n)[0]),
    decreases n,
{
    if n < 10 {
        let d = dec_digits(n);
        assert(d[0] == (48 + n) as u8);
        lemma_digits_val_single((48 + n) as u8, 0);
    } else {
        lemma_dec_digits_props(n / 10);
        let a = dec_digits(n / 10);
        let dd = (48 + n % 10) as u8;
        let d = seq![dd];
        assert(dd == 48 + n % 10);
        assert(all_digits(a + d)) by {
            assert(forall|k: int| 0 <= k < a.len() ==> (a + d)[k] == a[k]);
            assert((a + d)[a.len() as int] == d[0]);
        }
        lemma_digits_val_append(a, d, 0);
        lemma_digits_val_single(dd, n as int / 10);
        vstd::arithmetic::div_mod::lemma_fundamental_div_mod(n as int, 10);
        assert((a + d)[0] == a[0]);
    }
}

/// A run of digits at the head of the remaining input folds to its value.
proof fn lemma_digits_complete(s: Seq<u8>, i: int, acc: int, ds: Seq<u8>, t: Seq<u8>)
    requires
        0 <= i <= s.len(),
        0 <= acc,
        s.skip(i) == ds + t,
        all_digits(ds),
        t.len() == 0 || !is_digit(t[0]),
        digits_val(ds, acc) <= u64::MAX as int,
    ensures
        spec_parse_digits(s, i, acc) == Some((digits_val(ds, acc), i + ds.len())),
        i + ds.len() <= s.len(),
        s.skip(i + ds.len()) == t,
    decreases ds.len(),
{
    assert(s.skip(i).len() == ds.len() + t.len());
    if ds.len() == 0 {
        assert(s.skip(i) =~= t);
        if t.len() > 0 {
            assert(s[i] == t[0]) by {
                assert(s.skip(i)[0] == s[i]);
                assert(s.skip(i)[0] == t[0]);
            }
        }
    } else {
        assert(s[i] == ds[0]) by {
            assert(s.skip(i)[0] == s[i]);
            assert(s.skip(i)[0] == (ds + t)[0]);
        }
        assert(is_digit(ds[0]));
        let v = acc * 10 + (ds[0] - 48);
        let dsr = ds.drop_first();
        assert(all_digits(dsr)) by {
            assert(forall|k: int| 0 <= k < dsr.len() ==> dsr[k] == ds[k + 1]);
        }
        assert(digits_val(ds, acc) == digits_val(dsr, v));
        assert(v <= u64::MAX as int) by {
            lemma_digits_val_ge(dsr, v);
        }
        assert(s.skip(i) =~= seq![ds[0]] + (dsr + t));
        lemma_skip_shift(s, i, seq![ds[0]], dsr + t);
        lemma_digits_complete(s, i + 1, v, dsr, t);
    }
}

/// A JSON integer at the head of the remaining input parses back to its
/// value, provided what follows does not begin with a digit.
proof fn lemma_int_complete(s: Seq<u8>, i: int, v: int, t: Seq<u8>)
    requires
        0 <= i <= s.len(),
        i64::MIN <= v <= i64::MAX,
        s.skip(i) == json_int(v) + t,
        t.len() > 0,
        !is_digit(t[0]),
    ensures
        spec_parse_int(s, i) == Some((v, i + json_int(v).len())),
        i + json_int(v).len() <= s.len(),
        s.skip(i + json_int(v).len()) == t,
{
    if v < 0 {
        let m = (-v) as nat;
        lemma_dec_digits_props(m);
        assert(s.skip(i) =~= seq![45u8] + (dec_digits(m) + t));
        assert(s[i] == 45) by {
            assert(s.skip(i)[0] == s[i]);
            assert(s.skip(i)[0] == (seq![45u8] + (dec_digits(m) + t))[0]);
        }
        lemma_skip_shift(s, i, seq![45u8], dec_digits(m) + t);
        assert(s[i + 1] == dec_digits(m)[0]) by {
            assert(s.skip(i + 1)[0] == s[i + 1]);
            assert(s.skip(i + 1)[0] == (dec_digits(m) + t)[0]);
        }
        lemma_digits_complete(s, i + 1, 0, dec_digits(m), t);
        assert(spec_parse_digits(s, i + 1, 0) == Some((m as int, i + 1 + dec_digits(m).len())));
        assert(m <= 0x8000_0000_0000_0000);
        assert(json_int(v).len() == 1 + dec_digits(m).len());
    } else {
        let m = v as nat;
        lemma_dec_digits_props(m);
        assert(json_int(v) == dec_digits(m));
        lemma_head(s, i, dec_digits(m) + t);
        assert(s[i] == dec_digits(m)[0]) by {
            assert((dec_digits(m) + t)[0] == dec_digits(m)[0]);
        }
        assert(s[i] != 45);
        lemma_digits_complete(s, i, 0, dec_digits(m), t);
    }
}

/// A JSON boolean at the head of the remaining input parses back.
proof fn lemma_bool_complete(s: Seq<u8>, i: int, b: bool, t: Seq<u8>)
    requires
        0 <= i <= s.len(),
        s.skip(i) == json_bool(b) + t,
    ensures
        spec_parse_bool(s, i) == Some((b, i + json_bool(b).len())),
        i + json_bool(b).len() <= s.len(),
        s.skip(i + json_bool(b).len()) == t,
{
    if b {
        lemma_expect_complete(s, i, bytes_lit_true(), t);
    } else {
        lemma_expect_complete(s, i, bytes_lit_false(), t);
        assert(spec_expect(s, i, bytes_lit_true()) is None) by {
            if spec_expect(s, i, bytes_lit_true()) is Some {
                assert(s.subrange(i, i + 4)[0] == s[i]);
                assert(s[i] == 116);
                assert(s.skip(i)[0] == (bytes_lit_false() + t)[0]);
            }
        }
    }
}

/// A title at the head of the remaining input parses back.
proof fn lemma_title_complete(s: Seq<u8>, i: int, title: Option<Seq<char>>, t: Seq<u8>)
    requires
        0 <= i <= s.len(),
        s.skip(i) == json_title(title) + t,
    ensures
        spec_parse_title(s, i) == Some((title, i + json_title(title).len())),
        i + json_title(title).len() <= s.len(),
        s.skip(i + json_title(title).len()) == t,
{
    match title {
        None => {
            lemma_expect_complete(s, i, bytes_lit_null(), t);
        },
        Some(content) => {
            lemma_string_complete(s, i, content, t);
            assert(spec_expect(s, i, bytes_lit_null()) is None) by {
                if spec_expect(s, i, bytes_lit_null()) is Some {
                    assert(s.subrange(i, i + 4)[0] == s[i]);
                    assert(s[i] == 110);
                    assert(s.skip(i)[0] == (json_str(content) + t)[0]);
                }
            }
        },
    }
}

/// Parse an optional title starting at `i`.
fn parse_title(s: &[u8], i: usize) -> (r: Option<(Option<String>, usize)>)
    requires
        i <= s@.len(),
    ensures
        r is Some <==> spec_parse_title(s@, i as int) is Some,
        r matches Some((v, j)) ==> spec_parse_title(s@, i as int) == Some(
            (
                match v {
                    Some(t) => Some(t@),
                    None => None,
                },
                j as int,
            ),
        ) && i < j <= s@.len(),
{
    match expect_lit(s, i, &[110, 117, 108, 108]) {
        Some(j) => Some((None, j)),
        None => {
            match parse_string(s, i) {
                Some((content, j)) => Some((Some(content), j)),
                None => None,
            }
        },
    }
}


/// One item object starting at `i`.
pub open spec fn spec_parse_item(s: Seq<u8>, i: int) -> Option<(ItemModel, int)> {
    match spec_expect(s, i, bytes_key_id()) {
        None => None,
        Some(i1) => match spec_parse_string(s, i1) {
            None => None,
            Some((id, i2)) => match spec_expect(s, i2, bytes_key_content()) {
                None => None,
                Some(i3) => match spec_parse_string(s, i3) {
                    None => None,
                    Some((content, i4)) => match spec_expect(s, i4, bytes_key_title()) {
                        None => None,
                        Some(i5) => match spec_parse_title(s, i5) {
                            None => None,
                            Some((title, i6)) => match spec_expect(s, i6, bytes_key_created_at()) {
                                None => None,
                                Some(i7) => match spec_parse_int(s, i7) {
                                    None => None,
                                    Some((created_at, i8)) => match spec_expect(
                                        s,
                                        i8,
                                        bytes_key_updated_at(),
                                    ) {
                                        None => None,
                                        Some(i9) => match spec_parse_int(s, i9) {
                                            None => None,
                                            Some((updated_at, i10)) => match spec_expect(
                                                s,
                                                i10,
                                                bytes_key_is_pinned(),
                                            ) {
                                                None => None,
                                                Some(i11) => match spec_parse_bool(s, i11) {
                                                    None => None,
                                                    Some((is_pinned, i12)) => match spec_expect(
                                                        s,
                                                        i12,
                                                        seq![125u8],
                                                    ) {
                                                        None => None,
                                                        Some(end) => Some(
                                                            (
                                                                ItemModel {
                                                                    id,
                                                                    content,
                                                                    title,
                                                                    created_at,
                                                                    updated_at,
                                                                    is_pinned,
                                                                },
                                                                end,
                                                            ),
                                                        ),
                                                    },
                                                },
                                            },
                                        },
                                    },
                                },
                            },
                        },
                    },
                },
            },
        },
    }
}

/// Parse one item object starting at `i`.
fn parse_item(s: &[u8], i: usize) -> (r: Option<(ClipboardItem, usize)>)
    requires
        i <= s@.len(),
    ensures
        r is Some <==> spec_parse_item(s@, i as int) is Some,
        r matches Some((item, j)) ==> spec_parse_item(s@, i as int) == Some((item@, j as int))
            && i < j <= s@.len(),
{
    let lit_id: [u8; 6] = [123, 34, 105, 100, 34, 58];
    let lit_content: [u8; 11] = [44, 34, 99, 111, 110, 116, 101, 110, 116, 34, 58];
    let lit_title: [u8; 9] = [44, 34, 116, 105, 116, 108, 101, 34, 58];
    let lit_created: [u8; 14] = [44, 34, 99, 114, 101, 97, 116, 101, 100, 95, 97, 116, 34, 58];
    let lit_updated: [u8; 14] = [44, 34, 117, 112, 100, 97, 116, 101, 100, 95, 97, 116, 34, 58];
    let lit_pinned: [u8; 13] = [44, 34, 105, 115, 95, 112, 105, 110, 110, 101, 100, 34, 58];
    let lit_close: [u8; 1] = [125];
    proof {
        assert(lit_id@ =~= bytes_key_id());
        assert(lit_content@ =~= bytes_key_content());
        assert(lit_title@ =~= bytes_key_title());
        assert(lit_created@ =~= bytes_key_created_at());
        assert(lit_updated@ =~= bytes_key_updated_at());
        assert(lit_pinned@ =~= bytes_key_is_pinned());
        assert(lit_close@ =~= seq![125u8]);
    }
    let i1 = match expect_lit(s, i, &lit_id) {
        Some(x) => x,
        None => {
            return None;
        },
    };
    let (id, i2) = match parse_string(s, i1) {
        Some(x) => x,
        None => {
            return None;
        },
    };
    let i3 = match expect_lit(s, i2, &lit_content) {
        Some(x) => x,
        None => {
            return None;
        },
    };
    let (content, i4) = match parse_string(s, i3) {
        Some(x) => x,
        None => {
            return None;
        },
    };
    let i5 = match expect_lit(s, i4, &lit_title) {
        Some(x) => x,
        None => {
            return None;
        },
    };
    let (title, i6) = match parse_title(s, i5) {
        Some(x) => x,
        None => {
            return None;
        },
    };
    let i7 = match expect_lit(s, i6, &lit_created) {
        Some(x) => x,
        None => {
            return None;
        },
    };
    let (created_at, i8) = match parse_int(s, i7) {
        Some(x) => x,
        None => {
            return None;
        },
    };
    let i9 = match expect_lit(s, i8, &lit_updated) {
        Some(x) => x,
        None => {
            return None;
        },
    };
    let (updated_at, i10) = match parse_int(s, i9) {
        Some(x) => x,
        None => {
            return None;
        },
    };
    let i11 = match expect_lit(s, i10, &lit_pinned) {
        Some(x) => x,
        None => {
            return None;
        },
    };
    let (is_pinned, i12) = match parse_bool(s, i11) {
        Some(x) => x,
        None => {
            return None;
        },
    };
    let end = match expect_lit(s, i12, &lit_close) {
        Some(x) => x,
        None => {
            return None;
        },
    };
    let item = ClipboardItem { id, content, title, created_at, updated_at, is_pinned };
    Some((item, end))
}

/// An item object at the head of the remaining input parses back to
/// exactly its fields.
#[verifier::rlimit(100)]
proof fn lemma_item_complete(s: Seq<u8>, i: int, it: ItemModel, t: Seq<u8>)
    requires
        0 <= i <= s.len(),
        item_wf(it),
        s.skip(i) == json_item(it) + t,
    ensures
        spec_parse_item(s, i) == Some((it, i + json_item(it).len())),
        i < i + json_item(it).len() <= s.len(),
        s.skip(i + json_item(it).len()) == t,
{
    let r12 = seq![125u8] + t;
    let r11 = json_bool(it.is_pinned) + r12;
    let r10 = bytes_key_is_pinned() + r11;
    let r9 = json_int(it.updated_at) + r10;
    let r8 = bytes_key_updated_at() + r9;
    let r7 = json_int(it.created_at) + r8;
    let r6 = bytes_key_created_at() + r7;
    let r5 = json_title(it.title) + r6;
    let r4 = bytes_key_title() + r5;
    let r3 = json_str(it.content) + r4;
    let r2 = bytes_key_content() + r3;
    let r1 = json_str(it.id) + r2;
    assert(s.skip(i) == bytes_key_id() + r1) by {
        let q1 = bytes_key_id();
        let q2 = q1 + json_str(it.id);
        let q3 = q2 + bytes_key_content();
        let q4 = q3 + json_str(it.content);
        let q5 = q4 + bytes_key_title();
        let q6 = q5 + json_title(it.title);
        let q7 = q6 + bytes_key_created_at();
        let q8 = q7 + json_int(it.created_at);
        let q9 = q8 + bytes_key_updated_at();
        let q10 = q9 + json_int(it.updated_at);
        let q11 = q10 + bytes_key_is_pinned();
        let q12 = q11 + json_bool(it.is_pinned);
        assert(json_item(it) == q12 + seq![125u8]);
        seq_assoc(q11, json_bool(it.is_pinned), r12);
        seq_assoc(q10, bytes_key_is_pinned(), r11);
        seq_assoc(q9, json_int(it.updated_at), r10);
        seq_assoc(q8, bytes_key_updated_at(), r9);
        seq_assoc(q7, json_int(it.created_at), r8);
        seq_assoc(q6, bytes_key_created_at(), r7);
        seq_assoc(q5, json_title(it.title), r6);
        seq_assoc(q4, bytes_key_title(), r5);
        seq_assoc(q3, json_str(it.content), r4);
        seq_assoc(q2, bytes_key_content(), r3);
        seq_assoc(q1, json_str(it.id), r2);
        seq_assoc(q12, seq![125u8], t);
    }
    lemma_expect_complete(s, i, bytes_key_id(), r1);
    let i1 = i + bytes_key_id().len();
    lemma_string_complete(s, i1, it.id, r2);
    let i2 = i1 + json_str(it.id).len();
    lemma_expect_complete(s, i2, bytes_key_content(), r3);
    let i3 = i2 + bytes_key_content().len();
    lemma_string_complete(s, i3, it.content, r4);
    let i4 = i3 + json_str(it.content).len();
    lemma_expect_complete(s, i4, bytes_key_title(), r5);
    let i5 = i4 + bytes_key_title().len();
    lemma_title_complete(s, i5, it.title, r6);
    let i6 = i5 + json_title(it.title).len();
    lemma_expect_complete(s, i6, bytes_key_created_at(), r7);
    let i7 = i6 + bytes_key_created_at().len();
    assert(r8[0] == 44 && !is_digit(44)) by {
        assert(r8[0] == bytes_key_updated_at()[0]);
    }
    lemma_int_complete(s, i7, it.created_at, r8);
    let i8 = i7 + json_int(it.created_at).len();
    lemma_expect_complete(s, i8, bytes_key_updated_at(), r9);
    let i9 = i8 + bytes_key_updated_at().len();
    assert(r10[0] == 44 && !is_digit(44)) by {
        assert(r10[0] == bytes_key_is_pinned()[0]);
    }
    lemma_int_complete(s, i9, it.updated_at, r10);
    let i10 = i9 + json_int(it.updated_at).len();
    lemma_expect_complete(s, i10, bytes_key_is_pinned(), r11);
    let i11 = i10 + bytes_key_is_pinned().len();
    lemma_bool_complete(s, i11, it.is_pinned, r12);
    let i12 = i11 + json_bool(it.is_pinned).len();
    lemma_expect_complete(s, i12, seq![125u8], t);
    let end = i12 + 1;
    assert(end == i + json_item(it).len());
    let parsed = ItemModel {
        id: it.id,
        content: it.content,
        title: it.title,
        created_at: it.created_at,
        updated_at: it.updated_at,
        is_pinned: it.is_pinned,
    };
    assert(parsed =~= it);
}

/// The items of a batch after an opening bracket or a comma: one object,
/// then either a comma and more items or the closing bracket.
pub open spec fn spec_parse_items_entries(s: Seq<u8>, i: int, acc: Seq<ItemModel>) -> Option<
    (Seq<ItemModel>, int),
>
    decreases s.len() - i,
{
    match spec_parse_item(s, i) {
        None => None,
        Some((it, j)) => if !(i < j <= s.len()) {
            None
        } else if j < s.len() && s[j] == 44 {
            spec_parse_items_entries(s, j + 1, acc.push(it))
        } else if j < s.len() && s[j] == 93 {
            Some((acc.push(it), j + 1))
        } else {
            None
        },
    }
}

/// The batch between the brackets: empty on an immediate closing bracket,
/// comma-separated item objects otherwise. Consumes the closing bracket.
pub open spec fn spec_parse_items(s: Seq<u8>, i: int) -> Option<(Seq<ItemModel>, int)> {
    if 0 <= i && i < s.len() && s[i] == 93 {
        Some((Seq::<ItemModel>::empty(), i + 1))
    } else {
        spec_parse_items_entries(s, i, Seq::<ItemModel>::empty())
    }
}

/// Parse the batch between the brackets, starting just after `[`.
fn parse_items(s: &[u8], i: usize) -> (r: Option<(Vec<ClipboardItem>, usize)>)
    requires
        i <= s@.len(),
    ensures
        r is Some <==> spec_parse_items(s@, i as int) is Some,
        r matches Some((items, j)) ==> spec_parse_items(s@, i as int) == Some(
            (crate::store::items_of(items@), j as int),
        ) && j <= s@.len(),
{
    if i < s.len() && s[i] == 93 {
        let items: Vec<ClipboardItem> = Vec::new();
        proof {
            assert(crate::store::items_of(items@) =~= Seq::<ItemModel>::empty());
        }
        return Some((items, i + 1));
    }
    let mut items: Vec<ClipboardItem> = Vec::new();
    let mut p: usize = i;
    proof {
        assert(crate::store::items_of(items@) =~= Seq::<ItemModel>::empty());
        assert(spec_parse_items(s@, i as int) == spec_parse_items_entries(
            s@,
            i as int,
            Seq::<ItemModel>::empty(),
        ));
    }
    loop
        invariant
            i <= p <= s@.len(),
            spec_parse_items(s@, i as int) == spec_parse_items_entries(
                s@,
                i as int,
                Seq::<ItemModel>::empty(),
            ),
            spec_parse_items_entries(s@, i as int, Seq::<ItemModel>::empty())
                == spec_parse_items_entries(s@, p as int, crate::store::items_of(items@)),
        decreases s@.len() - p,
    {
        let (item, j) = match parse_item(s, p) {
            Some(x) => x,
            None => {
                return None;
            },
        };
        let ghost before = crate::store::items_of(items@);
        items.push(item);
        proof {
            assert(crate::store::items_of(items@) =~= before.push(item@));
        }
        if j < s.len() && s[j] == 44 {
            p = j + 1;
        } else if j < s.len() && s[j] == 93 {
            return Some((items, j + 1));
        } else {
            return None;
        }
    }
}

proof fn lemma_items_tail_unfold(items: Seq<ItemModel>)
    requires
        items.len() > 0,
    ensures
        json_items_tail(items) == seq![44u8] + json_items(items),
{
    assert(json_items_tail(items) =~= seq![44u8] + json_items(items));
}

/// A nonempty comma-separated batch followed by the closing bracket
/// parses back to exactly its items.
#[verifier::rlimit(100)]
#[verifier::spinoff_prover]
proof fn lemma_items_entries_complete(
    s: Seq<u8>,
    i: int,
    acc: Seq<ItemModel>,
    items: Seq<ItemModel>,
    t: Seq<u8>,
)
    requires
        0 <= i <= s.len(),
        items.len() >= 1,
        forall|k: int| 0 <= k < items.len() ==> item_wf(#[trigger] items[k]),
        s.skip(i) == json_items(items) + seq![93u8] + t,
    ensures
        spec_parse_items_entries(s, i, acc) == Some(
            (acc + items, i + json_items(items).len() + 1),
        ),
        i + json_items(items).len() + 1 <= s.len(),
        s.skip(i + json_items(items).len() + 1) == t,
    decreases items.len(),
{
    let it0 = items[0];
    let rest = items.drop_first();
    if rest.len() == 0 {
        assert(json_items(items) == json_item(it0) + json_items_tail(rest));
        assert(s.skip(i) == json_item(it0) + (seq![93u8] + t)) by {
            assert(json_item(it0) + json_items_tail(rest) =~= json_item(it0));
            seq_assoc(json_item(it0), seq![93u8], t);
        }
        lemma_item_complete(s, i, it0, seq![93u8] + t);
        let j = i + json_item(it0).len();
        lemma_head(s, j, seq![93u8] + t);
        assert(s[j] == 93);
        lemma_skip_shift(s, j, seq![93u8], t);
        assert(acc.push(it0) =~= acc + items);
        assert(json_items(items).len() == json_item(it0).len()) by {
            assert(json_items_tail(rest).len() == 0);
        }
    } else {
        lemma_items_tail_unfold(rest);
        assert(json_items(items) == json_item(it0) + json_items_tail(rest));
        let w = json_items(rest) + seq![93u8] + t;
        assert(s.skip(i) == json_item(it0) + (seq![44u8] + w)) by {
            seq_assoc(json_item(it0) + json_items_tail(rest), seq![93u8], t);
            seq_assoc(json_item(it0), json_items_tail(rest), seq![93u8] + t);
            seq_assoc(seq![44u8], json_items(rest), seq![93u8] + t);
            seq_assoc(json_items(rest), seq![93u8], t);
            seq_assoc(json_item(it0), seq![44u8], w);
        }
        lemma_item_complete(s, i, it0, seq![44u8] + w);
        let j = i + json_item(it0).len();
        lemma_head(s, j, seq![44u8] + w);
        assert(s[j] == 44);
        lemma_skip_shift(s, j, seq![44u8], w);
        assert(forall|k: int| 0 <= k < rest.len() ==> rest[k] == items[k + 1]);
        lemma_items_entries_complete(s, j + 1, acc.push(it0), rest, t);
        assert(acc.push(it0) + rest =~= acc + items);
        assert(json_items(items).len() == json_item(it0).len() + 1 + json_items(rest).len());
    }
}

/// The whole bracketed batch parses back to exactly its items.
proof fn lemma_items_complete(s: Seq<u8>, i: int, items: Seq<ItemModel>, t: Seq<u8>)
    requires
        0 <= i <= s.len(),
        forall|k: int| 0 <= k < items.len() ==> item_wf(#[trigger] items[k]),
        s.skip(i) == json_items(items) + seq![93u8] + t,
    ensures
        spec_parse_items(s, i) == Some((items, i + json_items(items).len() + 1)),
        i + json_items(items).len() + 1 <= s.len(),
        s.skip(i + json_items(items).len() + 1) == t,
{
    if items.len() == 0 {
        assert(s.skip(i) =~= seq![93u8] + t);
        lemma_head(s, i, seq![93u8] + t);
        lemma_skip_shift(s, i, seq![93u8], t);
        assert(spec_parse_items(s, i) == Some((Seq::<ItemModel>::empty(), i + 1)));
        assert(items =~= Seq::<ItemModel>::empty());
    } else {
        lemma_head(s, i, json_items(items) + seq![93u8] + t);
        assert(s[i] == json_item(items[0])[0]) by {
            assert((json_items(items) + seq![93u8] + t)[0] == json_items(items)[0]);
            assert(json_items(items)[0] == (json_item(items[0]) + json_items_tail(
                items.drop_first(),
            ))[0]);
            assert(json_item(items[0])[0] == bytes_key_id()[0]) by {
                assert(json_item(items[0]).len() > 0);
            }
        }
        assert(s[i] == 123);
        lemma_items_entries_complete(s, i, Seq::<ItemModel>::empty(), items, t);
        assert(Seq::<ItemModel>::empty() + items =~= items);
    }
}


/// The payload of a `Connect` frame, after its tag.
#[verifier::opaque]
pub open spec fn spec_frame_connect(s: Seq<u8>, i: int) -> Option<MessageModel> {
    match spec_expect(s, i, bytes_key_device_id()) {
        None => None,
        Some(i1) => match spec_parse_string(s, i1) {
            None => None,
            Some((device_id, i2)) => match spec_expect(s, i2, bytes_key_device_name()) {
                None => None,
                Some(i3) => match spec_parse_string(s, i3) {
                    None => None,
                    Some((device_name, i4)) => match spec_expect(s, i4, seq![125u8, 125u8]) {
                        None => None,
                        Some(end) => if end == s.len() {
                            Some(MessageModel::Connect { device_id, device_name })
                        } else {
                            None
                        },
                    },
                },
            },
        },
    }
}

/// The payload of an `ItemUpdate` frame, after its tag.
#[verifier::opaque]
pub open spec fn spec_frame_item_update(s: Seq<u8>, i: int) -> Option<MessageModel> {
    match spec_parse_item(s, i) {
        None => None,
        Some((it, j)) => match spec_expect(s, j, seq![125u8]) {
            None => None,
            Some(end) => if end == s.len() {
                Some(MessageModel::ItemUpdate(it))
            } else {
                None
            },
        },
    }
}

/// The payload of an `ItemDelete` frame, after its tag.
#[verifier::opaque]
pub open spec fn spec_frame_item_delete(s: Seq<u8>, i: int) -> Option<MessageModel> {
    match spec_expect(s, i, bytes_key_id()) {
        None => None,
        Some(i1) => match spec_parse_string(s, i1) {
            None => None,
            Some((id, i2)) => match spec_expect(s, i2, seq![125u8, 125u8]) {
                None => None,
                Some(end) => if end == s.len() {
                    Some(MessageModel::ItemDelete { id })
                } else {
                    None
                },
            },
        },
    }
}

/// The payload of a `SyncRequest` frame, after its tag.
#[verifier::opaque]
pub open spec fn spec_frame_sync_request(s: Seq<u8>, i: int) -> Option<MessageModel> {
    match spec_expect(s, i, bytes_key_since()) {
        None => None,
        Some(i1) => match spec_parse_int(s, i1) {
            None => None,
            Some((since_timestamp, i2)) => match spec_expect(s, i2, seq![125u8, 125u8]) {
                None => None,
                Some(end) => if end == s.len() {
                    Some(MessageModel::SyncRequest { since_timestamp })
                } else {
                    None
                },
            },
        },
    }
}

/// The payload of a `SyncResponse` frame, after its tag.
#[verifier::opaque]
pub open spec fn spec_frame_sync_response(s: Seq<u8>, i: int) -> Option<MessageModel> {
    match spec_expect(s, i, bytes_key_items()) {
        None => None,
        Some(i1) => match spec_parse_items(s, i1) {
            None => None,
            Some((items, i2)) => match spec_expect(s, i2, seq![125u8, 125u8]) {
                None => None,
                Some(end) => if end == s.len() {
                    Some(MessageModel::SyncResponse { items })
                } else {
                    None
                },
            },
        },
    }
}

/// The payload of an `Error` frame, after its tag.
#[verifier::opaque]
pub open spec fn spec_frame_error(s: Seq<u8>, i: int) -> Option<MessageModel> {
    match spec_expect(s, i, bytes_key_code()) {
        None => None,
        Some(i1) => match spec_parse_string(s, i1) {
            None => None,
            Some((code, i2)) => match spec_expect(s, i2, bytes_key_message()) {
                None => None,
                Some(i3) => match spec_parse_string(s, i3) {
                    None => None,
                    Some((message, i4)) => match spec_expect(s, i4, seq![125u8, 125u8]) {
                        None => None,
                        Some(end) => if end == s.len() {
                            Some(MessageModel::Error { code, message })
                        } else {
                            None
                        },
                    },
                },
            },
        },
    }
}

/// What a whole frame decodes to: the first matching variant tag, its
/// payload, and nothing after it.
pub open spec fn spec_parse_frame(s: Seq<u8>) -> Option<MessageModel> {
    match spec_expect(s, 0, bytes_tag_connect()) {
        Some(i) => spec_frame_connect(s, i),
        None => match spec_expect(s, 0, bytes_tag_item_update()) {
            Some(i) => spec_frame_item_update(s, i),
            None => match spec_expect(s, 0, bytes_tag_item_delete()) {
                Some(i) => spec_frame_item_delete(s, i),
                None => match spec_expect(s, 0, bytes_tag_sync_request()) {
                    Some(i) => spec_frame_sync_request(s, i),
                    None => match spec_expect(s, 0, bytes_tag_sync_response()) {
                        Some(i) => spec_frame_sync_response(s, i),
                        None => match spec_expect(s, 0, bytes_tag_error()) {
                            Some(i) => spec_frame_error(s, i),
                            None => None,
                        },
                    },
                },
            },
        },
    }
}

/// A literal that differs from the input at one position does not sit at
/// its head.
proof fn lemma_expect_none_at(s: Seq<u8>, lit: Seq<u8>, k: int)
    requires
        0 <= k < lit.len(),
        k < s.len(),
        s[k] != lit[k],
    ensures
        spec_expect(s, 0, lit) is None,
{
    if spec_expect(s, 0, lit) is Some {
        assert(s.subrange(0, lit.len() as int)[k] == s[k]);
    }
}

/// Decoding inverts a `Connect` frame.
#[verifier::rlimit(100)]
#[verifier::spinoff_prover]
proof fn lemma_frame_complete_connect(s: Seq<u8>, device_id: Seq<char>, device_name: Seq<char>)
    requires
        s == spec_frame(MessageModel::Connect { device_id, device_name }),
    ensures
        spec_parse_frame(s) == Some(MessageModel::Connect { device_id, device_name }),
{
    let v = MessageModel::Connect { device_id, device_name };
    reveal(spec_frame_connect);
    let close2 = seq![125u8, 125u8];
    assert(s.skip(0) =~= s);
    let r4 = close2;
    let r3 = json_str(device_name) + r4;
    let r2 = bytes_key_device_name() + r3;
    let r1 = json_str(device_id) + r2;
    let r0 = bytes_key_device_id() + r1;
    assert(s == bytes_tag_connect() + r0) by {
        let q1 = bytes_tag_connect();
        let q2 = q1 + bytes_key_device_id();
        let q3 = q2 + json_str(device_id);
        let q4 = q3 + bytes_key_device_name();
        let q5 = q4 + json_str(device_name);
        assert(spec_frame(v) == q5 + close2);
        seq_assoc(q4, json_str(device_name), r4);
        seq_assoc(q3, bytes_key_device_name(), r3);
        seq_assoc(q2, json_str(device_id), r2);
        seq_assoc(q1, bytes_key_device_id(), r1);
    }
    lemma_expect_complete(s, 0, bytes_tag_connect(), r0);
    let i = bytes_tag_connect().len() as int;
    lemma_expect_complete(s, i, bytes_key_device_id(), r1);
    let i1 = i + bytes_key_device_id().len();
    lemma_string_complete(s, i1, device_id, r2);
    let i2 = i1 + json_str(device_id).len();
    lemma_expect_complete(s, i2, bytes_key_device_name(), r3);
    let i3 = i2 + bytes_key_device_name().len();
    lemma_string_complete(s, i3, device_name, r4);
    let i4 = i3 + json_str(device_name).len();
    lemma_expect_complete(s, i4, close2, Seq::<u8>::empty());
    assert(i4 + 2 == s.len());
}

/// Decoding inverts an `ItemUpdate` frame.
#[verifier::rlimit(100)]
#[verifier::spinoff_prover]
proof fn lemma_frame_complete_item_update(s: Seq<u8>, it: ItemModel)
    requires
        s == spec_frame(MessageModel::ItemUpdate(it)),
        item_wf(it),
    ensures
        spec_parse_frame(s) == Some(MessageModel::ItemUpdate(it)),
{
    let v = MessageModel::ItemUpdate(it);
    reveal(spec_frame_item_update);
    let close2 = seq![125u8, 125u8];
    assert(s.skip(0) =~= s);
    assert(s[2] == 73 && s.len() > 2) by {
        assert(s == bytes_tag_item_update() + (json_item(it) + seq![125u8])) by {
            seq_assoc(bytes_tag_item_update(), json_item(it), seq![125u8]);
        }
        assert(s[2] == bytes_tag_item_update()[2]);
    }
    lemma_expect_none_at(s, bytes_tag_connect(), 2);
    let r0 = json_item(it) + seq![125u8];
    assert(s == bytes_tag_item_update() + r0) by {
        seq_assoc(bytes_tag_item_update(), json_item(it), seq![125u8]);
    }
    lemma_expect_complete(s, 0, bytes_tag_item_update(), r0);
    let i = bytes_tag_item_update().len() as int;
    lemma_item_complete(s, i, it, seq![125u8]);
    let j = i + json_item(it).len();
    lemma_expect_complete(s, j, seq![125u8], Seq::<u8>::empty());
    assert(j + 1 == s.len());
}

/// Decoding inverts an `ItemDelete` frame.
#[verifier::rlimit(100)]
#[verifier::spinoff_prover]
proof fn lemma_frame_complete_item_delete(s: Seq<u8>, id: Seq<char>)
    requires
        s == spec_frame(MessageModel::ItemDelete { id }),
    ensures
        spec_parse_frame(s) == Some(MessageModel::ItemDelete { id }),
{
    let v = MessageModel::ItemDelete { id };
    reveal(spec_frame_item_delete);
    let close2 = seq![125u8, 125u8];
    assert(s.skip(0) =~= s);
    let r1 = json_str(id) + close2;
    let r0 = bytes_key_id() + r1;
    assert(s == bytes_tag_item_delete() + r0) by {
        let q1 = bytes_tag_item_delete();
        let q2 = q1 + bytes_key_id();
        let q3 = q2 + json_str(id);
        assert(spec_frame(v) == q3 + close2);
        seq_assoc(q2, json_str(id), close2);
        seq_assoc(q1, bytes_key_id(), r1);
    }
    assert(s[2] == bytes_tag_item_delete()[2] && s.len() > 6);
    lemma_expect_none_at(s, bytes_tag_connect(), 2);
    lemma_expect_none_at(s, bytes_tag_item_update(), 6);
    lemma_expect_complete(s, 0, bytes_tag_item_delete(), r0);
    let i = bytes_tag_item_delete().len() as int;
    lemma_expect_complete(s, i, bytes_key_id(), r1);
    let i1 = i + bytes_key_id().len();
    lemma_string_complete(s, i1, id, close2);
    let i2 = i1 + json_str(id).len();
    lemma_expect_complete(s, i2, close2, Seq::<u8>::empty());
    assert(i2 + 2 == s.len());
}

/// Decoding inverts a `SyncRequest` frame.
#[verifier::rlimit(100)]
#[verifier::spinoff_prover]
proof fn lemma_frame_complete_sync_request(s: Seq<u8>, since_timestamp: int)
    requires
        s == spec_frame(MessageModel::SyncRequest { since_timestamp }),
        i64::MIN <= since_timestamp <= i64::MAX,
    ensures
        spec_parse_frame(s) == Some(MessageModel::SyncRequest { since_timestamp }),
{
    let v = MessageModel::SyncRequest { since_timestamp };
    reveal(spec_frame_sync_request);
    let close2 = seq![125u8, 125u8];
    assert(s.skip(0) =~= s);
    let r1 = json_int(since_timestamp) + close2;
    let r0 = bytes_key_since() + r1;
    assert(s == bytes_tag_sync_request() + r0) by {
        let q1 = bytes_tag_sync_request();
        let q2 = q1 + bytes_key_since();
        let q3 = q2 + json_int(since_timestamp);
        assert(spec_frame(v) == q3 + close2);
        seq_assoc(q2, json_int(since_timestamp), close2);
        seq_assoc(q1, bytes_key_since(), r1);
    }
    assert(s[2] == bytes_tag_sync_request()[2] && s.len() > 2);
    lemma_expect_none_at(s, bytes_tag_connect(), 2);
    lemma_expect_none_at(s, bytes_tag_item_update(), 2);
    lemma_expect_none_at(s, bytes_tag_item_delete(), 2);
    lemma_expect_complete(s, 0, bytes_tag_sync_request(), r0);
    let i = bytes_tag_sync_request().len() as int;
    lemma_expect_complete(s, i, bytes_key_since(), r1);
    let i1 = i + bytes_key_since().len();
    assert(close2[0] == 125 && !is_digit(125));
    lemma_int_complete(s, i1, since_timestamp, close2);
    let i2 = i1 + json_int(since_timestamp).len();
    lemma_expect_complete(s, i2, close2, Seq::<u8>::empty());
    assert(i2 + 2 == s.len());
}

/// Decoding inverts a `SyncResponse` frame.
#[verifier::rlimit(100)]
#[verifier::spinoff_prover]
proof fn lemma_frame_complete_sync_response(s: Seq<u8>, items: Seq<ItemModel>)
    requires
        s == spec_frame(MessageModel::SyncResponse { items }),
        forall|k: int| 0 <= k < items.len() ==> item_wf(#[trigger] items[k]),
    ensures
        spec_parse_frame(s) == Some(MessageModel::SyncResponse { items }),
{
    let v = MessageModel::SyncResponse { items };
    reveal(spec_frame_sync_response);
    let close2 = seq![125u8, 125u8];
    assert(s.skip(0) =~= s);
    let r1 = json_items(items) + seq![93u8] + close2;
    let r0 = bytes_key_items() + r1;
    assert(s == bytes_tag_sync_response() + r0) by {
        let q1 = bytes_tag_sync_response();
        let q2 = q1 + bytes_key_items();
        let q3 = q2 + json_items(items);
        assert(spec_frame(v) == q3 + seq![93u8, 125u8, 125u8]);
        assert(seq![93u8, 125u8, 125u8] =~= seq![93u8] + close2);
        seq_assoc(q3, seq![93u8], close2);
        seq_assoc(q2, json_items(items), seq![93u8] + close2);
        seq_assoc(json_items(items), seq![93u8], close2);
        seq_assoc(q1, bytes_key_items(), r1);
        assert((json_items(items) + seq![93u8]) + close2 == r1 + Seq::<u8>::empty())
            by {
            assert(r1 + Seq::<u8>::empty() =~= r1);
        }
    }
    assert(s[2] == bytes_tag_sync_response()[2] && s[8] == bytes_tag_sync_response()[8]
        && s.len() > 8);
    lemma_expect_none_at(s, bytes_tag_connect(), 2);
    lemma_expect_none_at(s, bytes_tag_item_update(), 2);
    lemma_expect_none_at(s, bytes_tag_item_delete(), 2);
    lemma_expect_none_at(s, bytes_tag_sync_request(), 8);
    lemma_expect_complete(s, 0, bytes_tag_sync_response(), r0);
    let i = bytes_tag_sync_response().len() as int;
    lemma_expect_complete(s, i, bytes_key_items(), r1);
    let i1 = i + bytes_key_items().len();
    lemma_items_complete(s, i1, items, close2);
    let i2 = i1 + json_items(items).len() + 1;
    lemma_expect_complete(s, i2, close2, Seq::<u8>::empty());
    assert(i2 + 2 == s.len());
}

/// Only the `Error` tag can open a frame whose third byte is `E`.
#[verifier::spinoff_prover]
proof fn lemma_error_tag_dispatch(s: Seq<u8>)
    requires
        2 < s.len(),
        s[2] == 69,
    ensures
        spec_expect(s, 0, bytes_tag_connect()) is None,
        spec_expect(s, 0, bytes_tag_item_update()) is None,
        spec_expect(s, 0, bytes_tag_item_delete()) is None,
        spec_expect(s, 0, bytes_tag_sync_request()) is None,
        spec_expect(s, 0, bytes_tag_sync_response()) is None,
{
    lemma_expect_none_at(s, bytes_tag_connect(), 2);
    lemma_expect_none_at(s, bytes_tag_item_update(), 2);
    lemma_expect_none_at(s, bytes_tag_item_delete(), 2);
    lemma_expect_none_at(s, bytes_tag_sync_request(), 2);
    lemma_expect_none_at(s, bytes_tag_sync_response(), 2);
}

/// Decoding inverts an `Error` frame.
#[verifier::rlimit(100)]
#[verifier::spinoff_prover]
proof fn lemma_frame_complete_error(s: Seq<u8>, code: Seq<char>, message: Seq<char>)
    requires
        s == spec_frame(MessageModel::Error { code, message }),
    ensures
        spec_parse_frame(s) == Some(MessageModel::Error { code, message }),
{
    let v = MessageModel::Error { code, message };
    reveal(spec_frame_error);
    let close2 = seq![125u8, 125u8];
    assert(s.skip(0) =~= s);
    let r3 = json_str(message) + close2;
    let r2 = bytes_key_message() + r3;
    let r1 = json_str(code) + r2;
    let r0 = bytes_key_code() + r1;
    assert(s == bytes_tag_error() + r0) by {
        let q1 = bytes_tag_error();
        let q2 = q1 + bytes_key_code();
        let q3 = q2 + json_str(code);
        let q4 = q3 + bytes_key_message();
        let q5 = q4 + json_str(message);
        assert(spec_frame(v) == q5 + close2);
        seq_assoc(q4, json_str(message), close2);
        seq_assoc(q3, bytes_key_message(), r3);
        seq_assoc(q2, json_str(code), r2);
        seq_assoc(q1, bytes_key_code(), r1);
    }
    assert(s[2] == bytes_tag_error()[2] && s.len() > 2);
    lemma_error_tag_dispatch(s);
    lemma_expect_complete(s, 0, bytes_tag_error(), r0);
    let i = bytes_tag_error().len() as int;
    lemma_expect_complete(s, i, bytes_key_code(), r1);
    let i1 = i + bytes_key_code().len();
    lemma_string_complete(s, i1, code, r2);
    let i2 = i1 + json_str(code).len();
    lemma_expect_complete(s, i2, bytes_key_message(), r3);
    let i3 = i2 + bytes_key_message().len();
    lemma_string_complete(s, i3, message, close2);
    let i4 = i3 + json_str(message).len();
    lemma_expect_complete(s, i4, close2, Seq::<u8>::empty());
    assert(i4 + 2 == s.len());
}

/// Decoding inverts encoding: the canonical frame of any well-formed
/// message parses back to exactly that message.
pub proof fn lemma_frame_complete(s: Seq<u8>, v: MessageModel)
    requires
        s == spec_frame(v),
        msg_wf(v),
    ensures
        spec_parse_frame(s) == Some(v),
{
    match v {
        MessageModel::Connect { device_id, device_name } => {
            lemma_frame_complete_connect(s, device_id, device_name);
        },
        MessageModel::ItemUpdate(it) => {
            lemma_frame_complete_item_update(s, it);
        },
        MessageModel::ItemDelete { id } => {
            lemma_frame_complete_item_delete(s, id);
        },
        MessageModel::SyncRequest { since_timestamp } => {
            lemma_frame_complete_sync_request(s, since_timestamp);
        },
        MessageModel::SyncResponse { items } => {
            lemma_frame_complete_sync_response(s, items);
        },
        MessageModel::Error { code, message } => {
            lemma_frame_complete_error(s, code, message);
        },
    }
}


/// Parse a `Connect` payload after its tag.
fn frame_connect(s: &[u8], i: usize) -> (r: Option<SyncMessage>)
    requires
        i <= s@.len(),
    ensures
        r is Some <==> spec_frame_connect(s@, i as int) is Some,
        r matches Some(m) ==> spec_frame_connect(s@, i as int) == Some(m@),
{
    proof {
        reveal(spec_frame_connect);
    }
    let lit_device_id: [u8; 13] = [123, 34, 100, 101, 118, 105, 99, 101, 95, 105, 100, 34, 58];
    let lit_device_name: [u8; 15] = [
        44,
        34,
        100,
        101,
        118,
        105,
        99,
        101,
        95,
        110,
        97,
        109,
        101,
        34,
        58,
    ];
    let lit_close: [u8; 2] = [125, 125];
    proof {
        assert(lit_device_id@ =~= bytes_key_device_id());
        assert(lit_device_name@ =~= bytes_key_device_name());
        assert(lit_close@ =~= seq![125u8, 125u8]);
    }
    let i1 = match expect_lit(s, i, &lit_device_id) {
        Some(x) => x,
        None => {
            return None;
        },
    };
    let (device_id, i2) = match parse_string(s, i1) {
        Some(x) => x,
        None => {
            return None;
        },
    };
    let i3 = match expect_lit(s, i2, &lit_device_name) {
        Some(x) => x,
        None => {
            return None;
        },
    };
    let (device_name, i4) = match parse_string(s, i3) {
        Some(x) => x,
        None => {
            return None;
        },
    };
    let end = match expect_lit(s, i4, &lit_close) {
        Some(x) => x,
        None => {
            return None;
        },
    };
    if end != s.len() {
        return None;
    }
    Some(SyncMessage::Connect { device_id, device_name })
}

/// Parse an `ItemUpdate` payload after its tag.
fn frame_item_update(s: &[u8], i: usize) -> (r: Option<SyncMessage>)
    requires
        i <= s@.len(),
    ensures
        r is Some <==> spec_frame_item_update(s@, i as int) is Some,
        r matches Some(m) ==> spec_frame_item_update(s@, i as int) == Some(m@),
{
    proof {
        reveal(spec_frame_item_update);
    }
    let (item, j) = match parse_item(s, i) {
        Some(x) => x,
        None => {
            return None;
        },
    };
    let lit_close: [u8; 1] = [125];
    proof {
        assert(lit_close@ =~= seq![125u8]);
    }
    let end = match expect_lit(s, j, &lit_close) {
        Some(x) => x,
        None => {
            return None;
        },
    };
    if end != s.len() {
        return None;
    }
    Some(SyncMessage::ItemUpdate(item))
}

/// Parse an `ItemDelete` payload after its tag.
fn frame_item_delete(s: &[u8], i: usize) -> (r: Option<SyncMessage>)
    requires
        i <= s@.len(),
    ensures
        r is Some <==> spec_frame_item_delete(s@, i as int) is Some,
        r matches Some(m) ==> spec_frame_item_delete(s@, i as int) == Some(m@),
{
    proof {
        reveal(spec_frame_item_delete);
    }
    let lit_id: [u8; 6] = [123, 34, 105, 100, 34, 58];
    let lit_close: [u8; 2] = [125, 125];
    proof {
        assert(lit_id@ =~= bytes_key_id());
        assert(lit_close@ =~= seq![125u8, 125u8]);
    }
    let i1 = match expect_lit(s, i, &lit_id) {
        Some(x) => x,
        None => {
            return None;
        },
    };
    let (id, i2) = match parse_string(s, i1) {
        Some(x) => x,
        None => {
            return None;
        },
    };
    let end = match expect_lit(s, i2, &lit_close) {
        Some(x) => x,
        None => {
            return None;
        },
    };
    if end != s.len() {
        return None;
    }
    Some(SyncMessage::ItemDelete { id })
}

/// Parse a `SyncRequest` payload after its tag.
fn frame_sync_request(s: &[u8], i: usize) -> (r: Option<SyncMessage>)
    requires
        i <= s@.len(),
    ensures
        r is Some <==> spec_frame_sync_request(s@, i as int) is Some,
        r matches Some(m) ==> spec_frame_sync_request(s@, i as int) == Some(m@),
{
    proof {
        reveal(spec_frame_sync_request);
    }
    let lit_since: [u8; 19] = [
        123,
        34,
        115,
        105,
        110,
        99,
        101,
        95,
        116,
        105,
        109,
        101,
        115,
        116,
        97,
        109,
        112,
        34,
        58,
    ];
    let lit_close: [u8; 2] = [125, 125];
    proof {
        assert(lit_since@ =~= bytes_key_since());
        assert(lit_close@ =~= seq![125u8, 125u8]);
    }
    let i1 = match expect_lit(s, i, &lit_since) {
        Some(x) => x,
        None => {
            return None;
        },
    };
    let (since_timestamp, i2) = match parse_int(s, i1) {
        Some(x) => x,
        None => {
            return None;
        },
    };
    let end = match expect_lit(s, i2, &lit_close) {
        Some(x) => x,
        None => {
            return None;
        },
    };
    if end != s.len() {
        return None;
    }
    Some(SyncMessage::SyncRequest { since_timestamp })
}

/// Parse a `SyncResponse` payload after its tag.
fn frame_sync_response(s: &[u8], i: usize) -> (r: Option<SyncMessage>)
    requires
        i <= s@.len(),
    ensures
        r is Some <==> spec_frame_sync_response(s@, i as int) is Some,
        r matches Some(m) ==> spec_frame_sync_response(s@, i as int) == Some(m@),
{
    proof {
        reveal(spec_frame_sync_response);
    }
    let lit_items: [u8; 10] = [123, 34, 105, 116, 101, 109, 115, 34, 58, 91];
    let lit_close: [u8; 2] = [125, 125];
    proof {
        assert(lit_items@ =~= bytes_key_items());
        assert(lit_close@ =~= seq![125u8, 125u8]);
    }
    let i1 = match expect_lit(s, i, &lit_items) {
        Some(x) => x,
        None => {
            return None;
        },
    };
    let (items, i2) = match parse_items(s, i1) {
        Some(x) => x,
        None => {
            return None;
        },
    };
    let end = match expect_lit(s, i2, &lit_close) {
        Some(x) => x,
        None => {
            return None;
        },
    };
    if end != s.len() {
        return None;
    }
    Some(SyncMessage::SyncResponse { items })
}

/// Parse an `Error` payload after its tag.
fn frame_error(s: &[u8], i: usize) -> (r: Option<SyncMessage>)
    requires
        i <= s@.len(),
    ensures
        r is Some <==> spec_frame_error(s@, i as int) is Some,
        r matches Some(m) ==> spec_frame_error(s@, i as int) == Some(m@),
{
    proof {
        reveal(spec_frame_error);
    }
    let lit_code: [u8; 8] = [123, 34, 99, 111, 100, 101, 34, 58];
    let lit_message: [u8; 11] = [44, 34, 109, 101, 115, 115, 97, 103, 101, 34, 58];
    let lit_close: [u8; 2] = [125, 125];
    proof {
        assert(lit_code@ =~= bytes_key_code());
        assert(lit_message@ =~= bytes_key_message());
        assert(lit_close@ =~= seq![125u8, 125u8]);
    }
    let i1 = match expect_lit(s, i, &lit_code) {
        Some(x) => x,
        None => {
            return None;
        },
    };
    let (code, i2) = match parse_string(s, i1) {
        Some(x) => x,
        None => {
            return None;
        },
    };
    let i3 = match expect_lit(s, i2, &lit_message) {
        Some(x) => x,
        None => {
            return None;
        },
    };
    let (message, i4) = match parse_string(s, i3) {
        Some(x) => x,
        None => {
            return None;
        },
    };
    let end = match expect_lit(s, i4, &lit_close) {
        Some(x) => x,
        None => {
            return None;
        },
    };
    if end != s.len() {
        return None;
    }
    Some(SyncMessage::Error { code, message })
}

/// Decode one wire frame.
///
/// The contract carries the codec round trip: for every message, the
/// bytes `encode_frame` produces decode back to exactly that message.
/// A frame that is not the canonical encoding of any message is refused
/// as a protocol error; the caller drops it and keeps the connection.
pub fn decode_frame(s: &[u8]) -> (r: Result<SyncMessage, SyncError>)
    ensures
        r matches Ok(m) ==> spec_parse_frame(s@) == Some(m@),
        r is Err ==> spec_parse_frame(s@) is None,
        r matches Err(e) ==> e is Protocol,
        forall|v: MessageModel|
            msg_wf(v) && s@ == spec_frame(v) ==> (r matches Ok(m) && m@ == v),
        forall|m0: SyncMessage| s@ == spec_frame(m0@) ==> (r matches Ok(m) && m@ == m0@),
{
    let tag_connect: [u8; 11] = [123, 34, 67, 111, 110, 110, 101, 99, 116, 34, 58];
    let tag_item_update: [u8; 14] = [
        123,
        34,
        73,
        116,
        101,
        109,
        85,
        112,
        100,
        97,
        116,
        101,
        34,
        58,
    ];
    let tag_item_delete: [u8; 14] = [
        123,
        34,
        73,
        116,
        101,
        109,
        68,
        101,
        108,
        101,
        116,
        101,
        34,
        58,
    ];
    let tag_sync_request: [u8; 15] = [
        123,
        34,
        83,
        121,
        110,
        99,
        82,
        101,
        113,
        117,
        101,
        115,
        116,
        34,
        58,
    ];
    let tag_sync_response: [u8; 16] = [
        123,
        34,
        83,
        121,
        110,
        99,
        82,
        101,
        115,
        112,
        111,
        110,
        115,
        101,
        34,
        58,
    ];
    let tag_error: [u8; 9] = [123, 34, 69, 114, 114, 111, 114, 34, 58];
    proof {
        assert(tag_connect@ =~= bytes_tag_connect());
        assert(tag_item_update@ =~= bytes_tag_item_update());
        assert(tag_item_delete@ =~= bytes_tag_item_delete());
        assert(tag_sync_request@ =~= bytes_tag_sync_request());
        assert(tag_sync_response@ =~= bytes_tag_sync_response());
        assert(tag_error@ =~= bytes_tag_error());
    }
    let parsed: Option<SyncMessage> = if let Some(i) = expect_lit(s, 0, &tag_connect) {
        frame_connect(s, i)
    } else if let Some(i) = expect_lit(s, 0, &tag_item_update) {
        frame_item_update(s, i)
    } else if let Some(i) = expect_lit(s, 0, &tag_item_delete) {
        frame_item_delete(s, i)
    } else if let Some(i) = expect_lit(s, 0, &tag_sync_request) {
        frame_sync_request(s, i)
    } else if let Some(i) = expect_lit(s, 0, &tag_sync_response) {
        frame_sync_response(s, i)
    } else if let Some(i) = expect_lit(s, 0, &tag_error) {
        frame_error(s, i)
    } else {
        None
    };
    let r: Result<SyncMessage, SyncError> = match parsed {
        Some(m) => Ok(m),
        None => Err(SyncError::Protocol),
    };
    proof {
        assert forall|v: MessageModel|
            msg_wf(v) && s@ == spec_frame(v) implies (r matches Ok(m) && m@ == v) by {
            lemma_frame_complete(s@, v);
        }
        assert forall|m0: SyncMessage| s@ == spec_frame(m0@) implies (r matches Ok(m) && m@
            == m0@) by {
            crate::protocol::lemma_message_view_wf(&m0);
            lemma_frame_complete(s@, m0@);
        }
    }
    r
}


/// The device's timestamp fits a 64-bit signed integer.
pub open spec fn device_wf(d: DeviceModel) -> bool {
    i64::MIN <= d.last_sync <= i64::MAX
}

/// Every device's timestamp fits a 64-bit signed integer, as any real
/// list's do.
pub open spec fn device_seq_wf(ds: Seq<DeviceModel>) -> bool {
    forall|k: int| 0 <= k < ds.len() ==> device_wf(#[trigger] ds[k])
}

/// The views of a vector of devices.
pub open spec fn devices_of(v: Seq<DeviceInfo>) -> Seq<DeviceModel> {
    v.map(|k: int, d: DeviceInfo| d@)
}

/// One bound-device object starting at `i`.
pub open spec fn spec_parse_device(s: Seq<u8>, i: int) -> Option<(DeviceModel, int)> {
    match spec_expect(s, i, bytes_key_device_id()) {
        None => None,
        Some(i1) => match spec_parse_string(s, i1) {
            None => None,
            Some((device_id, i2)) => match spec_expect(s, i2, bytes_key_device_name()) {
                None => None,
                Some(i3) => match spec_parse_string(s, i3) {
                    None => None,
                    Some((device_name, i4)) => match spec_expect(s, i4, bytes_key_last_sync()) {
                        None => None,
                        Some(i5) => match spec_parse_int(s, i5) {
                            None => None,
                            Some((last_sync, i6)) => match spec_expect(s, i6, seq![125u8]) {
                                None => None,
                                Some(end) => Some(
                                    (DeviceModel { device_id, device_name, last_sync }, end),
                                ),
                            },
                        },
                    },
                },
            },
        },
    }
}

/// The devices of a stored list after the opening bracket or a comma.
pub open spec fn spec_parse_devices_entries(s: Seq<u8>, i: int, acc: Seq<DeviceModel>) -> Option<
    (Seq<DeviceModel>, int),
>
    decreases s.len() - i,
{
    match spec_parse_device(s, i) {
        None => None,
        Some((d, j)) => if !(i < j <= s.len()) {
            None
        } else if j < s.len() && s[j] == 44 {
            spec_parse_devices_entries(s, j + 1, acc.push(d))
        } else if j < s.len() && s[j] == 93 {
            Some((acc.push(d), j + 1))
        } else {
            None
        },
    }
}

/// What a whole bound-device settings blob decodes to.
pub open spec fn spec_parse_device_list(s: Seq<u8>) -> Option<Seq<DeviceModel>> {
    if s.len() >= 2 && s[0] == 91 {
        if s[1] == 93 {
            if s.len() == 2 {
                Some(Seq::<DeviceModel>::empty())
            } else {
                None
            }
        } else {
            match spec_parse_devices_entries(s, 1, Seq::<DeviceModel>::empty()) {
                Some((ds, j)) => if j == s.len() {
                    Some(ds)
                } else {
                    None
                },
                None => None,
            }
        }
    } else {
        None
    }
}

/// Parse one bound-device object starting at `i`.
fn parse_device(s: &[u8], i: usize) -> (r: Option<(DeviceInfo, usize)>)
    requires
        i <= s@.len(),
    ensures
        r is Some <==> spec_parse_device(s@, i as int) is Some,
        r matches Some((d, j)) ==> spec_parse_device(s@, i as int) == Some((d@, j as int)) && i < j
            <= s@.len(),
{
    let lit_device_id: [u8; 13] = [123, 34, 100, 101, 118, 105, 99, 101, 95, 105, 100, 34, 58];
    let lit_device_name: [u8; 15] = [
        44,
        34,
        100,
        101,
        118,
        105,
        99,
        101,
        95,
        110,
        97,
        109,
        101,
        34,
        58,
    ];
    let lit_last_sync: [u8; 13] = [44, 34, 108, 97, 115, 116, 95, 115, 121, 110, 99, 34, 58];
    let lit_close: [u8; 1] = [125];
    proof {
        assert(lit_device_id@ =~= bytes_key_device_id());
        assert(lit_device_name@ =~= bytes_key_device_name());
        assert(lit_last_sync@ =~= bytes_key_last_sync());
        assert(lit_close@ =~= seq![125u8]);
    }
    let i1 = match expect_lit(s, i, &lit_device_id) {
        Some(x) => x,
        None => {
            return None;
        },
    };
    let (device_id, i2) = match parse_string(s, i1) {
        Some(x) => x,
        None => {
            return None;
        },
    };
    let i3 = match expect_lit(s, i2, &lit_device_name) {
        Some(x) => x,
        None => {
            return None;
        },
    };
    let (device_name, i4) = match parse_string(s, i3) {
        Some(x) => x,
        None => {
            return None;
        },
    };
    let i5 = match expect_lit(s, i4, &lit_last_sync) {
        Some(x) => x,
        None => {
            return None;
        },
    };
    let (last_sync, i6) = match parse_int(s, i5) {
        Some(x) => x,
        None => {
            return None;
        },
    };
    let end = match expect_lit(s, i6, &lit_close) {
        Some(x) => x,
        None => {
            return None;
        },
    };
    Some((DeviceInfo { device_id, device_name, last_sync }, end))
}

/// A device object at the head of the remaining input parses back to
/// exactly its fields.
#[verifier::rlimit(100)]
#[verifier::spinoff_prover]
proof fn lemma_device_complete(s: Seq<u8>, i: int, d: DeviceModel, t: Seq<u8>)
    requires
        0 <= i <= s.len(),
        device_wf(d),
        s.skip(i) == json_device(d) + t,
    ensures
        spec_parse_device(s, i) == Some((d, i + json_device(d).len())),
        i < i + json_device(d).len() <= s.len(),
        s.skip(i + json_device(d).len()) == t,
{
    let r6 = seq![125u8] + t;
    let r5 = json_int(d.last_sync) + r6;
    let r4 = bytes_key_last_sync() + r5;
    let r3 = json_str(d.device_name) + r4;
    let r2 = bytes_key_device_name() + r3;
    let r1 = json_str(d.device_id) + r2;
    assert(s.skip(i) == bytes_key_device_id() + r1) by {
        let q1 = bytes_key_device_id();
        let q2 = q1 + json_str(d.device_id);
        let q3 = q2 + bytes_key_device_name();
        let q4 = q3 + json_str(d.device_name);
        let q5 = q4 + bytes_key_last_sync();
        let q6 = q5 + json_int(d.last_sync);
        assert(json_device(d) == q6 + seq![125u8]);
        seq_assoc(q5, json_int(d.last_sync), r6);
        seq_assoc(q4, bytes_key_last_sync(), r5);
        seq_assoc(q3, json_str(d.device_name), r4);
        seq_assoc(q2, bytes_key_device_name(), r3);
        seq_assoc(q1, json_str(d.device_id), r2);
        seq_assoc(q6, seq![125u8], t);
    }
    lemma_expect_complete(s, i, bytes_key_device_id(), r1);
    let i1 = i + bytes_key_device_id().len();
    lemma_string_complete(s, i1, d.device_id, r2);
    let i2 = i1 + json_str(d.device_id).len();
    lemma_expect_complete(s, i2, bytes_key_device_name(), r3);
    let i3 = i2 + bytes_key_device_name().len();
    lemma_string_complete(s, i3, d.device_name, r4);
    let i4 = i3 + json_str(d.device_name).len();
    lemma_expect_complete(s, i4, bytes_key_last_sync(), r5);
    let i5 = i4 + bytes_key_last_sync().len();
    assert(r6[0] == 125 && !is_digit(125));
    lemma_int_complete(s, i5, d.last_sync, r6);
    let i6 = i5 + json_int(d.last_sync).len();
    lemma_expect_complete(s, i6, seq![125u8], t);
    let parsed = DeviceModel {
        device_id: d.device_id,
        device_name: d.device_name,
        last_sync: d.last_sync,
    };
    assert(parsed =~= d);
}

proof fn lemma_devices_tail_unfold(ds: Seq<DeviceModel>)
    requires
        ds.len() > 0,
    ensures
        json_devices_tail(ds) == seq![44u8] + (json_device(ds[0]) + json_devices_tail(
            ds.drop_first(),
        )),
{
    assert(json_devices_tail(ds) =~= seq![44u8] + (json_device(ds[0]) + json_devices_tail(
        ds.drop_first(),
    )));
}

/// A nonempty comma-separated device list followed by the closing bracket
/// parses back to exactly its devices.
#[verifier::rlimit(100)]
#[verifier::spinoff_prover]
proof fn lemma_devices_entries_complete(
    s: Seq<u8>,
    i: int,
    acc: Seq<DeviceModel>,
    ds: Seq<DeviceModel>,
    t: Seq<u8>,
)
    requires
        0 <= i <= s.len(),
        ds.len() >= 1,
        device_seq_wf(ds),
        s.skip(i) == json_device(ds[0]) + json_devices_tail(ds.drop_first()) + seq![93u8] + t,
    ensures
        spec_parse_devices_entries(s, i, acc) == Some(
            (
                acc + ds,
                i + (json_device(ds[0]) + json_devices_tail(ds.drop_first())).len() + 1,
            ),
        ),
        i + (json_device(ds[0]) + json_devices_tail(ds.drop_first())).len() + 1 <= s.len(),
        s.skip(i + (json_device(ds[0]) + json_devices_tail(ds.drop_first())).len() + 1) == t,
    decreases ds.len(),
{
    let d0 = ds[0];
    let rest = ds.drop_first();
    if rest.len() == 0 {
        assert(s.skip(i) == json_device(d0) + (seq![93u8] + t)) by {
            assert(json_device(d0) + json_devices_tail(rest) =~= json_device(d0));
            seq_assoc(json_device(d0), seq![93u8], t);
        }
        lemma_device_complete(s, i, d0, seq![93u8] + t);
        let j = i + json_device(d0).len();
        lemma_head(s, j, seq![93u8] + t);
        assert(s[j] == 93);
        lemma_skip_shift(s, j, seq![93u8], t);
        assert(acc.push(d0) =~= acc + ds);
        assert((json_device(d0) + json_devices_tail(rest)).len() == json_device(d0).len());
    } else {
        lemma_devices_tail_unfold(rest);
        let w = json_device(rest[0]) + json_devices_tail(rest.drop_first()) + seq![93u8] + t;
        assert(s.skip(i) == json_device(d0) + (seq![44u8] + w)) by {
            seq_assoc(json_device(d0) + json_devices_tail(rest), seq![93u8], t);
            seq_assoc(json_device(d0), json_devices_tail(rest), seq![93u8] + t);
            seq_assoc(
                seq![44u8],
                json_device(rest[0]) + json_devices_tail(rest.drop_first()),
                seq![93u8] + t,
            );
            seq_assoc(
                json_device(rest[0]) + json_devices_tail(rest.drop_first()),
                seq![93u8],
                t,
            );
            seq_assoc(json_device(d0), seq![44u8], w);
        }
        lemma_device_complete(s, i, d0, seq![44u8] + w);
        let j = i + json_device(d0).len();
        lemma_head(s, j, seq![44u8] + w);
        assert(s[j] == 44);
        lemma_skip_shift(s, j, seq![44u8], w);
        assert(forall|k: int| 0 <= k < rest.len() ==> rest[k] == ds[k + 1]);
        lemma_devices_entries_complete(s, j + 1, acc.push(d0), rest, t);
        assert(acc.push(d0) + rest =~= acc + ds);
        assert((json_device(d0) + json_devices_tail(ds.drop_first())).len() == json_device(
            d0,
        ).len() + 1 + (json_device(rest[0]) + json_devices_tail(rest.drop_first())).len());
    }
}

/// The views of a real device list are always well formed.
pub proof fn lemma_device_views_wf(v: &Vec<DeviceInfo>)
    ensures
        device_seq_wf(devices_of(v@)),
{
    assert forall|k: int| 0 <= k < devices_of(v@).len() implies device_wf(
        #[trigger] devices_of(v@)[k],
    ) by {
        assert(devices_of(v@)[k] == v@[k]@);
    }
}

/// A whole stored blob parses back to exactly its devices.
#[verifier::rlimit(100)]
#[verifier::spinoff_prover]
proof fn lemma_device_list_complete(s: Seq<u8>, ds: Seq<DeviceModel>)
    requires
        s == json_device_list(ds),
        device_seq_wf(ds),
    ensures
        spec_parse_device_list(s) == Some(ds),
{
    if ds.len() == 0 {
        assert(s == seq![91u8, 93u8]);
        assert(ds =~= Seq::<DeviceModel>::empty());
    } else {
        let inner = json_device(ds[0]) + json_devices_tail(ds.drop_first());
        assert(s == seq![91u8] + (inner + seq![93u8] + Seq::<u8>::empty())) by {
            assert(json_device_list(ds) == seq![91u8] + json_device(ds[0]) + json_devices_tail(
                ds.drop_first(),
            ) + seq![93u8]);
            seq_assoc(seq![91u8], json_device(ds[0]), json_devices_tail(ds.drop_first()));
            seq_assoc(seq![91u8], inner, seq![93u8]);
            assert((seq![91u8] + (inner + seq![93u8])) =~= seq![91u8] + (inner + seq![93u8]
                + Seq::<u8>::empty()));
        }
        assert(s[0] == 91) by {
            assert(s[0] == (seq![91u8] + (inner + seq![93u8] + Seq::<u8>::empty()))[0]);
        }
        assert(s.skip(0) =~= s);
        assert(s.skip(1) == inner + seq![93u8] + Seq::<u8>::empty()) by {
            lemma_skip_shift(s, 0, seq![91u8], inner + seq![93u8] + Seq::<u8>::empty());
        }
        assert(s[1] == bytes_key_device_id()[0]) by {
            assert(s.skip(1)[0] == s[1int + 0]);
            assert(s.skip(1)[0] == (inner + seq![93u8] + Seq::<u8>::empty())[0]);
            assert(inner[0] == (json_device(ds[0]))[0]);
            assert(json_device(ds[0])[0] == bytes_key_device_id()[0]) by {
                assert(json_device(ds[0]).len() > 0);
            }
        }
        assert(s[1] == 123 && s[1] != 93);
        lemma_devices_entries_complete(s, 1, Seq::<DeviceModel>::empty(), ds, Seq::<u8>::empty());
        assert(Seq::<DeviceModel>::empty() + ds =~= ds);
        assert(1 + inner.len() + 1 == s.len());
    }
}

/// Decode the bound-device settings blob; an empty or absent entry is an
/// empty list for the caller, not this function's concern. The contract
/// carries the round trip: the blob `encode_device_list` writes decodes
/// back to exactly the same list.
pub fn decode_device_list(s: &[u8]) -> (r: Option<Vec<DeviceInfo>>)
    ensures
        r matches Some(out) ==> spec_parse_device_list(s@) == Some(devices_of(out@)),
        r is None ==> spec_parse_device_list(s@) is None,
        forall|v0: Seq<DeviceInfo>|
            s@ == json_device_list(devices_of(v0)) ==> (r matches Some(out) && devices_of(out@)
                == devices_of(v0)),
{
    let r: Option<Vec<DeviceInfo>> = decode_device_list_inner(s);
    proof {
        assert forall|v0: Seq<DeviceInfo>|
            s@ == json_device_list(devices_of(v0)) implies (r matches Some(out) && devices_of(
            out@,
        ) == devices_of(v0)) by {
            assert(device_seq_wf(devices_of(v0))) by {
                assert forall|k: int| 0 <= k < devices_of(v0).len() implies device_wf(
                    #[trigger] devices_of(v0)[k],
                ) by {
                    assert(devices_of(v0)[k] == v0[k]@);
                }
            }
            lemma_device_list_complete(s@, devices_of(v0));
        }
    }
    r
}

fn decode_device_list_inner(s: &[u8]) -> (r: Option<Vec<DeviceInfo>>)
    ensures
        r matches Some(out) ==> spec_parse_device_list(s@) == Some(devices_of(out@)),
        r is None ==> spec_parse_device_list(s@) is None,
{
    if s.len() < 2 || s[0] != 91 {
        return None;
    }
    if s[1] == 93 {
        if s.len() == 2 {
            let out: Vec<DeviceInfo> = Vec::new();
            proof {
                assert(devices_of(out@) =~= Seq::<DeviceModel>::empty());
            }
            return Some(out);
        }
        return None;
    }
    let mut out: Vec<DeviceInfo> = Vec::new();
    let mut p: usize = 1;
    proof {
        assert(devices_of(out@) =~= Seq::<DeviceModel>::empty());
    }
    loop
        invariant
            1 <= p <= s@.len(),
            s@.len() >= 2,
            s@[0] == 91,
            s@[1] != 93,
            spec_parse_devices_entries(s@, 1, Seq::<DeviceModel>::empty())
                == spec_parse_devices_entries(s@, p as int, devices_of(out@)),
        decreases s@.len() - p,
    {
        let (d, j) = match parse_device(s, p) {
            Some(x) => x,
            None => {
                return None;
            },
        };
        let ghost before = devices_of(out@);
        out.push(d);
        proof {
            assert(devices_of(out@) =~= before.push(d@));
        }
        if j < s.len() && s[j] == 44 {
            p = j + 1;
        } else if j < s.len() && s[j] == 93 {
            if j + 1 == s.len() {
                return Some(out);
            }
            return None;
        } else {
            return None;
        }
    }
}

} // verus!
