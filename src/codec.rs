//! The record format of a segment: a 4-byte big-endian length followed by a
//! JSON object `{"key":..,"val":..,"is_del":..}`.
use vstd::prelude::*;
use crate::error::MyErr;

verus! {

#[verifier::external_type_specification]
#[verifier::external_body]
pub struct ExJsonError(serde_json::Error);

/// The JSON text that serde_json writes for a string: the quoted, escaped
/// UTF-8 bytes of its characters.
pub uninterp spec fn json_string(s: Seq<char>) -> Seq<u8>;

/// Relies on `serde_json::to_vec` on a `str`: the compact JSON string literal
/// of the characters. Writing a string into a `Vec` cannot fail.
#[verifier::external_body]
fn quote_json(s: &str) -> (r: Result<Vec<u8>, serde_json::Error>)
    ensures
        r is Ok,
        r matches Ok(b) ==> b@ == json_string(s@),
{
    serde_json::to_vec(s)
}

/// One mutation of the store as it is logged: a put, or a delete with an
/// empty value.
pub struct Entry {
    pub key: String,
    pub val: String,
    pub is_del: bool,
}

impl Entry {
    /// A put of `val` under `key`.
    pub fn put(key: String, val: String) -> (r: Entry)
        ensures
            r.key@ == key@,
            r.val@ == val@,
            !r.is_del,
    {
        let is_del = false;
        Entry { key, val, is_del }
    }

    /// A delete of `key`.
    pub fn del(key: String) -> (r: Entry)
        ensures
            r.key@ == key@,
            r.val@ == Seq::<char>::empty(),
            r.is_del,
    {
        let val = String::new();
        let is_del = true;
        Entry { key, val, is_del }
    }
}

/// The largest payload length that the prefix can carry.
pub const MAX_PAYLOAD: u64 = 4294967295;

/// The four bytes of `n`, most significant first.
pub open spec fn be32(n: u32) -> Seq<u8> {
    seq![
        (n / 16777216) as u8,
        ((n / 65536) % 256) as u8,
        ((n / 256) % 256) as u8,
        (n % 256) as u8,
    ]
}

/// The big-endian number held by the four bytes of `b` from `i` on.
pub open spec fn be32_at(b: Seq<u8>, i: int) -> nat {
    (b[i] as nat) * 16777216 + (b[i + 1] as nat) * 65536 + (b[i + 2] as nat) * 256 + (
    b[i + 3] as nat)
}

pub open spec fn key_open() -> Seq<u8> {
    seq![123u8, 34u8, 107u8, 101u8, 121u8, 34u8, 58u8]
}

pub open spec fn val_open() -> Seq<u8> {
    seq![44u8, 34u8, 118u8, 97u8, 108u8, 34u8, 58u8]
}

pub open spec fn del_open() -> Seq<u8> {
    seq![44u8, 34u8, 105u8, 115u8, 95u8, 100u8, 101u8, 108u8, 34u8, 58u8]
}

/// `true` or `false` as JSON writes them.
pub open spec fn bool_text(b: bool) -> Seq<u8> {
    if b {
        seq![116u8, 114u8, 117u8, 101u8]
    } else {
        seq![102u8, 97u8, 108u8, 115u8, 101u8]
    }
}

/// The JSON object of a record, given the JSON literals of its key and value.
pub open spec fn payload_of(kq: Seq<u8>, vq: Seq<u8>, is_del: bool) -> Seq<u8> {
    key_open() + kq + val_open() + vq + del_open() + bool_text(is_del) + seq![125u8]
}

/// A whole record: its length prefix, then its payload.
pub open spec fn record_of(kq: Seq<u8>, vq: Seq<u8>, is_del: bool) -> Seq<u8> {
    be32(payload_of(kq, vq, is_del).len() as u32) + payload_of(kq, vq, is_del)
}

/// The record of an entry, as the store writes it.
pub open spec fn entry_record(key: Seq<char>, val: Seq<char>, is_del: bool) -> Seq<u8> {
    record_of(json_string(key), json_string(val), is_del)
}

/// The bytes of `n`, most significant first.
pub fn encode_len(n: u32) -> (r: Vec<u8>)
    ensures
        r@ == be32(n),
{
    let v = vec![(n / 16777216) as u8, ((n / 65536) % 256) as u8, ((n / 256) % 256) as u8, (n % 256) as u8];
    assert(v@ =~= be32(n));
    v
}

/// The length prefix that starts at `at`.
pub fn decode_len(b: &[u8], at: usize) -> (r: u32)
    requires
        at + 4 <= b@.len(),
    ensures
        r as nat == be32_at(b@, at as int),
{
    let b0 = b[at] as u32;
    let b1 = b[at + 1] as u32;
    let b2 = b[at + 2] as u32;
    let b3 = b[at + 3] as u32;
    assert(b0 * 16777216 + b1 * 65536 + b2 * 256 + b3 <= 4294967295) by (nonlinear_arith)
        requires
            b0 <= 255,
            b1 <= 255,
            b2 <= 255,
            b3 <= 255,
    ;
    b0 * 16777216 + b1 * 65536 + b2 * 256 + b3
}

/// Reading back the prefix that `encode_len` wrote gives the length again.
pub proof fn lemma_len_round_trip(n: u32)
    ensures
        be32_at(be32(n), 0) == n,
{
    let q = n / 16777216;
    let r = n % 16777216;
    assert(n == q * 16777216 + r && r < 16777216);
    assert(((n / 65536) % 256) == r / 65536) by (nonlinear_arith)
        requires
            n == q * 16777216 + r,
            0 <= r < 16777216,
    ;
    assert(((n / 256) % 256) == (r % 65536) / 256) by (nonlinear_arith)
        requires
            n == q * 16777216 + r,
            0 <= r < 16777216,
    ;
    assert((n % 256) == r % 256) by (nonlinear_arith)
        requires
            n == q * 16777216 + r,
            0 <= r < 16777216,
    ;
    assert(r == (r / 65536) * 65536 + ((r % 65536) / 256) * 256 + r % 256) by (nonlinear_arith)
        requires
            0 <= r < 16777216,
    ;
}

fn push_all(out: &mut Vec<u8>, b: &[u8])
    ensures
        final(out)@ == old(out)@ + b@,
{
    let mut i: usize = 0;
    while i < b.len()
        invariant
            i <= b@.len(),
            out@ == old(out)@ + b@.subrange(0, i as int),
        decreases b@.len() - i,
    {
        out.push(b[i]);
        i = i + 1;
        assert(b@.subrange(0, i as int) =~= b@.subrange(0, i - 1) + seq![b@[i - 1]]);
    }
    assert(b@.subrange(0, b@.len() as int) =~= b@);
}

/// Frames a record from the JSON literals of its key and value. Fails with
/// `RecordTooLarge` exactly when the payload does not fit the length prefix.
pub fn frame_entry(kq: &[u8], vq: &[u8], is_del: bool) -> (r: Result<Vec<u8>, MyErr>)
    ensures
        match r {
            Ok(v) => payload_of(kq@, vq@, is_del).len() <= MAX_PAYLOAD && v@ == record_of(
                kq@,
                vq@,
                is_del,
            ),
            Err(e) => e == MyErr::RecordTooLarge && payload_of(kq@, vq@, is_del).len()
                > MAX_PAYLOAD,
        },
{
    let limit: usize = 4294967295;
    let fixed: usize = if is_del { 29 } else { 30 };
    if kq.len() > limit - fixed || vq.len() > limit - fixed - kq.len() {
        return Err(MyErr::RecordTooLarge);
    }
    let total = fixed + kq.len() + vq.len();
    assert(payload_of(kq@, vq@, is_del).len() == total);
    let mut out = encode_len(total as u32);
    let mut payload: Vec<u8> = vec![123u8, 34u8, 107u8, 101u8, 121u8, 34u8, 58u8];
    assert(payload@ =~= key_open());
    push_all(&mut payload, kq);
    let mut part: Vec<u8> = vec![44u8, 34u8, 118u8, 97u8, 108u8, 34u8, 58u8];
    assert(part@ =~= val_open());
    payload.append(&mut part);
    push_all(&mut payload, vq);
    let mut part: Vec<u8> = vec![44u8, 34u8, 105u8, 115u8, 95u8, 100u8, 101u8, 108u8, 34u8, 58u8];
    assert(part@ =~= del_open());
    payload.append(&mut part);
    let mut part: Vec<u8> = if is_del {
        vec![116u8, 114u8, 117u8, 101u8]
    } else {
        vec![102u8, 97u8, 108u8, 115u8, 101u8]
    };
    assert(part@ =~= bool_text(is_del));
    payload.append(&mut part);
    payload.push(125u8);
    assert(payload@ =~= payload_of(kq@, vq@, is_del));
    out.append(&mut payload);
    Ok(out)
}

/// Encodes an entry as the store writes it: the entry's record, or
/// `RecordTooLarge` exactly when its payload does not fit the length prefix.
pub fn encode_entry(e: &Entry) -> (r: Result<Vec<u8>, MyErr>)
    ensures
        match r {
            Ok(v) => payload_of(json_string(e.key@), json_string(e.val@), e.is_del).len()
                <= MAX_PAYLOAD && v@ == entry_record(e.key@, e.val@, e.is_del),
            Err(x) => x == MyErr::RecordTooLarge && payload_of(
                json_string(e.key@),
                json_string(e.val@),
                e.is_del,
            ).len() > MAX_PAYLOAD,
        },
{
    let kq = match quote_json(e.key.as_str()) {
        Ok(b) => b,
        Err(_) => {
            return Err(MyErr::RecordTooLarge);
        },
    };
    let vq = match quote_json(e.val.as_str()) {
        Ok(b) => b,
        Err(_) => {
            return Err(MyErr::RecordTooLarge);
        },
    };
    frame_entry(kq.as_slice(), vq.as_slice(), e.is_del)
}

/// Where a record's payload starts in its segment, and how long it is.
#[derive(Clone, Copy, Debug, PartialEq, Eq, Structural)]
pub struct Frame {
    pub offset: u64,
    pub len: u32,
}

/// The frames of the complete records of `b` from `pos` on, in file order. A
/// trailing record whose prefix or payload is cut short is left out.
pub open spec fn frames_from(b: Seq<u8>, pos: int) -> Seq<(int, int)>
    decreases b.len() - pos,
{
    if pos < 0 || pos + 4 > b.len() {
        Seq::empty()
    } else {
        let n = be32_at(b, pos);
        if pos + 4 + n > b.len() {
            Seq::empty()
        } else {
            seq![(pos + 4, n as int)] + frames_from(b, pos + 4 + n)
        }
    }
}

pub open spec fn frame_view(f: Frame) -> (int, int) {
    (f.offset as int, f.len as int)
}

/// Splits the bytes of a segment into its records' frames, in file order,
/// and drops a truncated record at its end.
pub fn scan_frames(b: &[u8]) -> (r: Vec<Frame>)
    ensures
        r@.map_values(|f: Frame| frame_view(f)) == frames_from(b@, 0),
{
    let mut out: Vec<Frame> = Vec::new();
    let mut pos: usize = 0;
    let mut done = false;
    while !done && b.len() - pos >= 4
        invariant
            pos <= b@.len(),
            done ==> frames_from(b@, pos as int) =~= Seq::<(int, int)>::empty(),
            out@.map_values(|f: Frame| frame_view(f)) + frames_from(b@, pos as int)
                == frames_from(b@, 0),
        decreases b@.len() - pos + (if done { 0int } else { 1int }),
    {
        let n = decode_len(b, pos);
        if n as usize > b.len() - pos - 4 {
            done = true;
        } else {
        let f = Frame { offset: pos as u64 + 4, len: n };
        proof {
            let next = pos + 4 + n;
            assert(frames_from(b@, pos as int) == seq![(pos + 4, n as int)] + frames_from(
                b@,
                next as int,
            ));
            assert(out@.push(f).map_values(|f: Frame| frame_view(f)) =~= out@.map_values(
                |f: Frame| frame_view(f),
            ).push((pos + 4, n as int)));
        }
        out.push(f);
        pos = pos + 4 + n as usize;
        }
    }
    assert(out@.map_values(|f: Frame| frame_view(f)) =~= frames_from(b@, 0));
    out
}

} // verus!
