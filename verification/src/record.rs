//! Interpretation of one framed Server-Sent-Event record.
//!
//! A record is read in three steps: it must begin with the literal prefix
//! `"data: "`, its payload must not be the `[DONE]` end-of-generation
//! sentinel (compared after trimming surrounding whitespace), and the
//! payload is then parsed as JSON from which the content delta at
//! `choices[0].delta.content` is extracted. A record that fails any step
//! yields no token and is skipped.

use vstd::prelude::*;

verus! {

/// The six bytes of the literal record prefix `"data: "`.
pub open spec fn sse_data_prefix() -> Seq<u8> {
    seq!['d' as u8, 'a' as u8, 't' as u8, 'a' as u8, ':' as u8, ' ' as u8]
}

/// The six bytes of the end-of-generation sentinel `"[DONE]"`.
pub open spec fn done_sentinel() -> Seq<u8> {
    seq!['[' as u8, 'D' as u8, 'O' as u8, 'N' as u8, 'E' as u8, ']' as u8]
}

/// ASCII whitespace, the characters trimmed around the sentinel.
pub open spec fn is_ascii_ws(b: u8) -> bool {
    b == 32 || b == 9 || b == 10 || b == 13
}

/// `s` without its leading whitespace.
pub open spec fn trim_front(s: Seq<u8>) -> Seq<u8>
    decreases s.len(),
{
    if s.len() > 0 && is_ascii_ws(s[0]) {
        trim_front(s.skip(1))
    } else {
        s
    }
}

/// `s` without its trailing whitespace.
pub open spec fn trim_back(s: Seq<u8>) -> Seq<u8>
    decreases s.len(),
{
    if s.len() > 0 && is_ascii_ws(s[s.len() - 1]) {
        trim_back(s.take(s.len() - 1))
    } else {
        s
    }
}

/// `s` without surrounding whitespace.
pub open spec fn trim_ws(s: Seq<u8>) -> Seq<u8> {
    trim_back(trim_front(s))
}

/// The content delta that JSON parsing extracts from a record payload:
/// `Some` exactly when the payload is valid JSON carrying a string at
/// `choices[0].delta.content`, and then the characters of that string.
pub uninterp spec fn json_delta_content(payload: Seq<u8>) -> Option<Seq<char>>;

/// The token a whole record yields, if any: the JSON content delta of its
/// payload, unless the prefix is missing or the payload is the sentinel.
pub open spec fn record_delta(rec: Seq<u8>) -> Option<Seq<char>> {
    if rec.len() < 6 || rec.subrange(0, 6) != sse_data_prefix() {
        None
    } else if trim_ws(rec.skip(6)) == done_sentinel() {
        None
    } else {
        json_delta_content(rec.skip(6))
    }
}

/// The view of an optional owned string.
pub open spec fn opt_str_view(r: Option<String>) -> Option<Seq<char>> {
    match r {
        Some(s) => Some(s@),
        None => None,
    }
}

/// Relies on serde_json::from_slice::<Value> and Value::get / Value::as_str:
/// parsing the payload and walking to `choices[0].delta.content` is a pure
/// function of the payload bytes, named `json_delta_content`.
#[verifier::external_body]
fn json_content_delta(payload: &[u8]) -> (r: Option<String>)
    ensures
        opt_str_view(r) == json_delta_content(payload@),
{
    let value: serde_json::Value = match serde_json::from_slice(payload) {
        Ok(v) => v,
        Err(_) => return None,
    };
    value.get("choices")?.get(0)?.get("delta")?.get("content")?.as_str().map(|s| s.to_string())
}

/// Whether `rec` starts with the `"data: "` prefix.
fn has_data_prefix(rec: &[u8]) -> (b: bool)
    ensures
        b == (rec@.len() >= 6 && rec@.subrange(0, 6) == sse_data_prefix()),
{
    if rec.len() < 6 {
        return false;
    }
    let b = rec[0] == 100u8 && rec[1] == 97u8 && rec[2] == 116u8 && rec[3] == 97u8 && rec[4]
        == 58u8 && rec[5] == 32u8;
    proof {
        if b {
            assert(rec@.subrange(0, 6) =~= sse_data_prefix());
        } else {
            assert(rec@.subrange(0, 6) != sse_data_prefix());
        }
    }
    b
}

/// With only whitespace before `k` and none at `k`, trimming the front
/// drops exactly the first `k` bytes.
proof fn lemma_trim_front_at(s: Seq<u8>, k: int)
    requires
        0 <= k <= s.len(),
        forall|j: int| 0 <= j < k ==> is_ascii_ws(#[trigger] s[j]),
        k < s.len() ==> !is_ascii_ws(s[k]),
    ensures
        trim_front(s) == s.skip(k),
    decreases k,
{
    if k == 0 {
        assert(s.skip(0) =~= s);
    } else {
        assert(is_ascii_ws(s[0]));
        assert forall|j: int| 0 <= j < k - 1 implies is_ascii_ws(#[trigger] s.skip(1)[j]) by {
            assert(s.skip(1)[j] == s[j + 1]);
        }
        if k - 1 < s.skip(1).len() {
            assert(s.skip(1)[k - 1] == s[k]);
        }
        lemma_trim_front_at(s.skip(1), k - 1);
        assert(s.skip(1).skip(k - 1) =~= s.skip(k));
    }
}

/// With only whitespace from `m` on and none right before `m`, trimming the
/// back keeps exactly the first `m` bytes.
proof fn lemma_trim_back_at(s: Seq<u8>, m: int)
    requires
        0 <= m <= s.len(),
        forall|j: int| m <= j < s.len() ==> is_ascii_ws(#[trigger] s[j]),
        m > 0 ==> !is_ascii_ws(s[m - 1]),
    ensures
        trim_back(s) == s.take(m),
    decreases s.len(),
{
    if m == s.len() {
        if s.len() > 0 && is_ascii_ws(s[s.len() - 1]) {
            assert forall|j: int|
                m - 1 <= j < s.take(s.len() - 1).len() implies is_ascii_ws(
                #[trigger] s.take(s.len() - 1)[j],
            ) by {}
            lemma_trim_back_at(s.take(s.len() - 1), m - 1);
            assert(s.take(s.len() - 1).take(m - 1) =~= s.take(m - 1));
            assert(m - 1 > 0 ==> !is_ascii_ws(s[m - 2]));
            assert(false);
        } else {
            assert(s.take(m) =~= s);
        }
    } else {
        assert(is_ascii_ws(s[s.len() - 1]));
        assert forall|j: int|
            m <= j < s.take(s.len() - 1).len() implies is_ascii_ws(
            #[trigger] s.take(s.len() - 1)[j],
        ) by {
            assert(s.take(s.len() - 1)[j] == s[j]);
        }
        lemma_trim_back_at(s.take(s.len() - 1), m);
        assert(s.take(s.len() - 1).take(m) =~= s.take(m));
    }
}

/// Whether the payload, trimmed of surrounding whitespace, is `"[DONE]"`.
fn payload_is_done(p: &[u8]) -> (b: bool)
    ensures
        b == (trim_ws(p@) == done_sentinel()),
{
    let n = p.len();
    let mut lo: usize = 0;
    while lo < n && (p[lo] == 32u8 || p[lo] == 9u8 || p[lo] == 10u8 || p[lo] == 13u8)
        invariant
            n == p@.len(),
            0 <= lo <= n,
            forall|j: int| 0 <= j < lo ==> is_ascii_ws(#[trigger] p@[j]),
        decreases n - lo,
    {
        lo = lo + 1;
    }
    proof {
        lemma_trim_front_at(p@, lo as int);
    }
    let mut hi: usize = n;
    while hi > lo && (p[hi - 1] == 32u8 || p[hi - 1] == 9u8 || p[hi - 1] == 10u8 || p[hi - 1]
        == 13u8)
        invariant
            n == p@.len(),
            lo <= hi <= n,
            forall|j: int| hi <= j < n ==> is_ascii_ws(#[trigger] p@[j]),
        decreases hi,
    {
        hi = hi - 1;
    }
    proof {
        let t = p@.skip(lo as int);
        assert forall|j: int| hi - lo <= j < t.len() implies is_ascii_ws(#[trigger] t[j]) by {
            assert(t[j] == p@[j + lo]);
        }
        if hi > lo {
            assert(t[hi - lo - 1] == p@[hi - 1]);
        }
        lemma_trim_back_at(t, hi - lo as int);
        assert(trim_ws(p@) =~= p@.subrange(lo as int, hi as int));
    }
    if hi - lo != 6 {
        proof {
            assert(trim_ws(p@).len() != done_sentinel().len());
        }
        return false;
    }
    let b = p[lo] == 91u8 && p[lo + 1] == 68u8 && p[lo + 2] == 79u8 && p[lo + 3] == 78u8 && p[lo
        + 4] == 69u8 && p[lo + 5] == 93u8;
    proof {
        let w = p@.subrange(lo as int, hi as int);
        if b {
            assert(w =~= done_sentinel());
        } else {
            assert(w != done_sentinel());
        }
    }
    b
}

/// Reads one record: checks the `"data: "` prefix, discards the sentinel,
/// and otherwise extracts the JSON content delta of the payload.
pub fn record_content_delta(rec: &[u8]) -> (r: Option<String>)
    ensures
        opt_str_view(r) == record_delta(rec@),
{
    if !has_data_prefix(rec) {
        return None;
    }
    let payload: &[u8] = &rec[6..rec.len()];
    proof {
        assert(payload@ =~= rec@.skip(6));
    }
    if payload_is_done(payload) {
        return None;
    }
    json_content_delta(payload)
}

/// Law: a record whose payload is the end-of-generation sentinel, even
/// surrounded by whitespace, never yields a token.
pub proof fn lemma_sentinel_yields_no_token(rec: Seq<u8>)
    requires
        rec.len() >= 6,
        rec.subrange(0, 6) == sse_data_prefix(),
        trim_ws(rec.skip(6)) == done_sentinel(),
    ensures
        record_delta(rec) is None,
{
}

} // verus!

