//! The wire protocol: one request per connection, an opcode byte followed by
//! newline-terminated fields, answered by one line.
use vstd::prelude::*;
use crate::error::{MyErr, message_of};
use vstd::string::StringSliceAdditionalSpecFns;

verus! {

/// The opcode of a set: `+`.
pub const OP_SET: u8 = 43;
/// The opcode of a removal: `-`.
pub const OP_RM: u8 = 45;
/// The opcode of a lookup: `?`.
pub const OP_GET: u8 = 63;

/// The tag of a lookup reply that carries a value: `v`.
pub const GET_VAL: u8 = 118;
/// The tag of a lookup reply for an absent key: `n`.
pub const GET_NIL: u8 = 110;
/// The tag of a lookup reply that carries an error: `e`.
pub const GET_ERR: u8 = 101;

/// A request, with its fields trimmed.
#[derive(Debug, PartialEq, Eq)]
pub enum Request {
    Put { key: String, val: String },
    Remove { key: String },
    Get { key: String },
}

/// Why a request is answered without reaching the engine.
#[derive(Debug, Clone, Copy, PartialEq, Eq, Structural)]
pub enum Rejection {
    NoKey,
    NoVal,
    BadOp,
}

/// The characters trimmed from both ends of a field.
pub open spec fn is_blank(c: char) -> bool {
    c == '\n' || c == '\t' || c == ' '
}

/// The first position of `s` from `i` on that is not blank, or its length.
pub open spec fn first_kept(s: Seq<char>, i: int) -> int
    decreases s.len() - i,
{
    if i >= s.len() || !is_blank(s[i]) {
        i
    } else {
        first_kept(s, i + 1)
    }
}

/// One past the last position of `s` below `j` that is not blank, or `lo`.
pub open spec fn last_kept(s: Seq<char>, lo: int, j: int) -> int
    decreases j - lo,
{
    if j <= lo || !is_blank(s[j - 1]) {
        j
    } else {
        last_kept(s, lo, j - 1)
    }
}

/// `s` without its leading and trailing blanks.
pub open spec fn trimmed(s: Seq<char>) -> Seq<char> {
    let a = first_kept(s, 0);
    let b = last_kept(s, a, s.len() as int);
    s.subrange(a, b)
}

/// A field without the newlines, tabs and spaces at its ends.
pub fn trim_field(s: &str) -> (r: String)
    ensures
        r@ == trimmed(s@),
{
    let n = s.unicode_len();
    let mut a: usize = 0;
    while a < n && (s.get_char(a) == '\n' || s.get_char(a) == '\t' || s.get_char(a) == ' ')
        invariant
            n == s@.len(),
            a <= n,
            first_kept(s@, 0) == first_kept(s@, a as int),
        decreases n - a,
    {
        a = a + 1;
    }
    let mut b: usize = n;
    while b > a && (s.get_char(b - 1) == '\n' || s.get_char(b - 1) == '\t' || s.get_char(b - 1)
        == ' ')
        invariant
            n == s@.len(),
            a <= b <= n,
            a == first_kept(s@, 0),
            last_kept(s@, a as int, n as int) == last_kept(s@, a as int, b as int),
        decreases b - a,
    {
        b = b - 1;
    }
    s.substring_char(a, b).to_owned()
}

/// How many field lines follow an opcode.
pub open spec fn fields_of(op: u8) -> nat {
    if op == OP_SET {
        2
    } else if op == OP_RM || op == OP_GET {
        1
    } else {
        0
    }
}

/// How many newline-terminated fields the server reads after `op`.
pub fn fields_needed(op: u8) -> (r: usize)
    ensures
        r == fields_of(op),
{
    if op == OP_SET {
        2
    } else if op == OP_RM || op == OP_GET {
        1
    } else {
        0
    }
}

/// The request an opcode and its field lines make, with the fields trimmed:
/// an unknown opcode is `BadOp`, an empty key `NoKey`, and an empty value of
/// a set `NoVal`.
pub fn parse_request(op: u8, key_line: &str, val_line: &str) -> (r: Result<Request, Rejection>)
    ensures
        match r {
            Ok(Request::Put { key, val }) => op == OP_SET && key@ == trimmed(key_line@) && val@
                == trimmed(val_line@) && key@.len() > 0 && val@.len() > 0,
            Ok(Request::Remove { key }) => op == OP_RM && key@ == trimmed(key_line@) && key@.len()
                > 0,
            Ok(Request::Get { key }) => op == OP_GET && key@ == trimmed(key_line@) && key@.len()
                > 0,
            Err(Rejection::BadOp) => op != OP_SET && op != OP_RM && op != OP_GET,
            Err(Rejection::NoKey) => (op == OP_SET || op == OP_RM || op == OP_GET)
                && trimmed(key_line@).len() == 0,
            Err(Rejection::NoVal) => op == OP_SET && trimmed(key_line@).len() > 0 && trimmed(
                val_line@,
            ).len() == 0,
        },
{
    if op != OP_SET && op != OP_RM && op != OP_GET {
        return Err(Rejection::BadOp);
    }
    let key = trim_field(key_line);
    if key.unicode_len() == 0 {
        return Err(Rejection::NoKey);
    }
    if op == OP_SET {
        let val = trim_field(val_line);
        if val.unicode_len() == 0 {
            return Err(Rejection::NoVal);
        }
        Ok(Request::Put { key, val })
    } else if op == OP_RM {
        Ok(Request::Remove { key })
    } else {
        Ok(Request::Get { key })
    }
}

/// A line: the text, then a newline.
pub open spec fn line(s: Seq<char>) -> Seq<char> {
    s + seq!['\n']
}

fn with_newline(s: String) -> (r: String)
    ensures
        r@ == line(s@),
{
    let nl = "\n";
    proof {
        reveal_strlit("\n");
    }
    s.concat(nl)
}

/// The reply to a request that the engine never saw.
pub open spec fn rejection_reply(op: u8, why: Rejection) -> Seq<char> {
    let text = match why {
        Rejection::NoKey => "ErrNoKey"@,
        Rejection::NoVal => "ErrNoVal"@,
        Rejection::BadOp => "ErrOp"@,
    };
    if op == OP_GET {
        seq!['e'] + line(text)
    } else {
        line(text)
    }
}

/// The reply to a rejected request; a lookup's carries the error tag.
pub fn reject_reply(op: u8, why: Rejection) -> (r: String)
    ensures
        r@ == rejection_reply(op, why),
{
    let text = match why {
        Rejection::NoKey => String::from_str("ErrNoKey"),
        Rejection::NoVal => String::from_str("ErrNoVal"),
        Rejection::BadOp => String::from_str("ErrOp"),
    };
    let body = with_newline(text);
    if op == OP_GET {
        let tag = "e";
        proof {
            reveal_strlit("e");
        }
        let r = String::from_str(tag).concat(body.as_str());
        r
    } else {
        body
    }
}

/// The reply to a set: `OK`, or `ErrInternal` when the engine failed.
pub fn set_reply(res: &Result<(), MyErr>) -> (r: String)
    ensures
        r@ == (if res is Ok {
            line("OK"@)
        } else {
            line("ErrInternal"@)
        }),
{
    match res {
        Ok(()) => with_newline(String::from_str("OK")),
        Err(_) => with_newline(String::from_str("ErrInternal")),
    }
}

/// The reply to a removal: `OK`, or the error's text (`Key not found` for an
/// absent key).
pub fn remove_reply(res: &Result<(), MyErr>) -> (r: String)
    ensures
        r@ == match res {
            Ok(()) => line("OK"@),
            Err(e) => line(message_of(*e)),
        },
{
    match res {
        Ok(()) => with_newline(String::from_str("OK")),
        Err(e) => with_newline(e.message()),
    }
}

/// The reply to a lookup: the tag `v` and the value, the tag `n` for an
/// absent key, or the tag `e` and `ErrInternal`.
pub fn get_reply(res: &Result<Option<String>, MyErr>) -> (r: String)
    ensures
        r@ == match res {
            Ok(Some(v)) => seq!['v'] + line(v@),
            Ok(None) => seq!['n'] + line(Seq::empty()),
            Err(_) => seq!['e'] + line("ErrInternal"@),
        },
{
    proof {
        reveal_strlit("v");
        reveal_strlit("n");
        reveal_strlit("e");
    }
    match res {
        Ok(Some(v)) => String::from_str("v").concat(with_newline(v.clone()).as_str()),
        Ok(None) => with_newline(String::from_str("n")),
        Err(_) => String::from_str("e").concat(with_newline(String::from_str("ErrInternal")).as_str()),
    }
}

/// A request as the client sends it: the opcode, then each field on its own
/// line.
pub open spec fn request_bytes(op: u8, fields: Seq<Seq<u8>>) -> Seq<u8>
    decreases fields.len(),
{
    if fields.len() == 0 {
        seq![op]
    } else {
        request_bytes(op, fields.drop_last()) + fields.last() + seq![10u8]
    }
}

fn push_line(out: &mut Vec<u8>, s: &str)
    ensures
        final(out)@ == old(out)@ + s.spec_bytes() + seq![10u8],
{
    let b = s.as_bytes();
    let mut i: usize = 0;
    while i < b.len()
        invariant
            i <= b@.len(),
            out@ == old(out)@ + b@.subrange(0, i as int),
        decreases b@.len() - i,
    {
        out.push(b[i]);
        i = i + 1;
        assert(out@ =~= old(out)@ + b@.subrange(0, i as int));
    }
    assert(b@.subrange(0, i as int) =~= b@);
    out.push(10u8);
}

/// The bytes of a set request.
pub fn encode_set(key: &str, val: &str) -> (r: Vec<u8>)
    ensures
        r@ == request_bytes(OP_SET, seq![key.spec_bytes(), val.spec_bytes()]),
{
    let mut out = vec![OP_SET];
    push_line(&mut out, key);
    push_line(&mut out, val);
    proof {
        let f = seq![key.spec_bytes(), val.spec_bytes()];
        assert(f.drop_last() =~= seq![key.spec_bytes()]);
        assert(f.drop_last().drop_last() =~= Seq::<Seq<u8>>::empty());
        assert(request_bytes(OP_SET, f.drop_last().drop_last()) == seq![OP_SET]);
        assert(request_bytes(OP_SET, f.drop_last()) == seq![OP_SET] + key.spec_bytes() + seq![
            10u8,
        ]);
    }
    out
}

/// The bytes of a removal request.
pub fn encode_remove(key: &str) -> (r: Vec<u8>)
    ensures
        r@ == request_bytes(OP_RM, seq![key.spec_bytes()]),
{
    let mut out = vec![OP_RM];
    push_line(&mut out, key);
    proof {
        assert(seq![key.spec_bytes()].drop_last() =~= Seq::<Seq<u8>>::empty());
        assert(request_bytes(OP_RM, Seq::<Seq<u8>>::empty()) == seq![OP_RM]);
    }
    out
}

/// The bytes of a lookup request.
pub fn encode_get(key: &str) -> (r: Vec<u8>)
    ensures
        r@ == request_bytes(OP_GET, seq![key.spec_bytes()]),
{
    let mut out = vec![OP_GET];
    push_line(&mut out, key);
    proof {
        assert(seq![key.spec_bytes()].drop_last() =~= Seq::<Seq<u8>>::empty());
        assert(request_bytes(OP_GET, Seq::<Seq<u8>>::empty()) == seq![OP_GET]);
    }
    out
}

/// What the client makes of a lookup reply, given its tag and the rest of
/// its line: the value line as it came, `Key not found`, `Err=` and the
/// error line, or `Err = Protocol error` for an unknown tag.
pub open spec fn get_result(tag: u8, rest: Seq<char>) -> Seq<char> {
    if tag == GET_VAL {
        rest
    } else if tag == GET_NIL {
        "Key not found"@
    } else if tag == GET_ERR {
        "Err="@ + rest
    } else {
        "Err = Protocol error"@
    }
}

/// The client's reading of a lookup reply.
pub fn decode_get_reply(tag: u8, rest: &str) -> (r: String)
    ensures
        r@ == get_result(tag, rest@),
{
    if tag == GET_VAL {
        rest.to_owned()
    } else if tag == GET_NIL {
        String::from_str("Key not found")
    } else if tag == GET_ERR {
        String::from_str("Err=").concat(rest)
    } else {
        String::from_str("Err = Protocol error")
    }
}

/// Whether `pat` occurs in `s` at position `i`.
pub open spec fn occurs_at(s: Seq<char>, pat: Seq<char>, i: int) -> bool {
    0 <= i && i + pat.len() <= s.len() && s.subrange(i, i + pat.len()) == pat
}

fn matches_at(s: &str, pat: &str, i: usize) -> (r: bool)
    requires
        i + pat@.len() <= s@.len(),
    ensures
        r == occurs_at(s@, pat@, i as int),
{
    let m = pat.unicode_len();
    let n = s.unicode_len();
    let mut k: usize = 0;
    while k < m
        invariant
            m == pat@.len(),
            n == s@.len(),
            i + m <= s@.len(),
            k <= m,
            forall|t: int| 0 <= t < k ==> s@[i + t] == pat@[t],
        decreases m - k,
    {
        if s.get_char(i + k) != pat.get_char(k) {
            assert(s@.subrange(i as int, i + m)[k as int] != pat@[k as int]);
            return false;
        }
        k = k + 1;
    }
    assert(s@.subrange(i as int, i + m) =~= pat@);
    true
}

/// Whether a removal reply says that the key was there: any reply but one
/// that mentions `Key not found`.
pub fn removal_succeeded(reply: &str) -> (r: bool)
    ensures
        r == !(exists|i: int| #[trigger] occurs_at(reply@, "Key not found"@, i)),
{
    let pat = "Key not found";
    proof {
        reveal_strlit("Key not found");
    }
    let n = reply.unicode_len();
    let m = pat.unicode_len();
    assert(m == 13);
    if m > n {
        assert forall|i: int| !occurs_at(reply@, pat@, i) by {}
        return true;
    }
    let mut i: usize = 0;
    while i <= n - m
        invariant
            n == reply@.len(),
            m == pat@.len(),
            m <= n,
            m >= 1,
            pat@ == "Key not found"@,
            i <= n - m + 1,
            forall|t: int| 0 <= t < i ==> !occurs_at(reply@, pat@, t),
        decreases n - m + 1 - i,
    {
        if matches_at(reply, pat, i) {
            assert(occurs_at(reply@, pat@, i as int));
            return false;
        }
        i = i + 1;
    }
    assert forall|t: int| !occurs_at(reply@, pat@, t) by {
        if 0 <= t < i {
        }
    }
    true
}

} // verus!
