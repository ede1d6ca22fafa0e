//! Framing of a raw byte stream into Server-Sent-Event records.
//!
//! A record is a maximal prefix of the buffer that ends right before a
//! blank line, i.e. before the first `"\n\n"`; the two delimiter bytes are
//! consumed with it. Whatever follows the last delimiter is not yet a
//! record and stays in the buffer.

use vstd::prelude::*;

verus! {

/// The line-feed byte, the only byte the record delimiter is made of.
pub open spec fn lf() -> u8 {
    10u8
}

/// Index of the first `"\n\n"` in `s`, or `s.len()` if there is none.
pub open spec fn first_boundary(s: Seq<u8>) -> int
    decreases s.len(),
{
    if s.len() < 2 {
        s.len() as int
    } else if s[0] == lf() && s[1] == lf() {
        0
    } else {
        1 + first_boundary(s.skip(1))
    }
}

/// `first_boundary` is in range, marks a delimiter whenever one exists,
/// and nothing before it is a delimiter.
pub proof fn lemma_first_boundary(s: Seq<u8>)
    ensures
        0 <= first_boundary(s) <= s.len(),
        first_boundary(s) + 2 <= s.len() ==> s[first_boundary(s)] == lf() && s[first_boundary(s)
            + 1] == lf(),
        first_boundary(s) + 2 > s.len() ==> first_boundary(s) == s.len(),
        forall|j: int|
            0 <= j < first_boundary(s) && j + 2 <= s.len() ==> !(#[trigger] s[j] == lf() && s[j + 1] == lf()),
    decreases s.len(),
{
    if s.len() < 2 {
    } else if s[0] == lf() && s[1] == lf() {
    } else {
        lemma_first_boundary(s.skip(1));
        assert forall|j: int|
            0 <= j < first_boundary(s) && j + 2 <= s.len() implies !(#[trigger] s[j] == lf() && s[j + 1]
            == lf()) by {
            if j > 0 {
                assert(s.skip(1)[j - 1] == s[j]);
                assert(s.skip(1)[j] == s[j + 1]);
            }
        }
    }
}

/// If a delimiter stands at `k` and none before it, `k` is the first boundary.
pub proof fn lemma_first_boundary_at(s: Seq<u8>, k: int)
    requires
        0 <= k,
        k + 2 <= s.len(),
        s[k] == lf(),
        s[k + 1] == lf(),
        forall|j: int| 0 <= j < k ==> !(#[trigger] s[j] == lf() && s[j + 1] == lf()),
    ensures
        first_boundary(s) == k,
    decreases k,
{
    if k > 0 {
        assert forall|j: int| 0 <= j < k - 1 implies !(#[trigger] s.skip(1)[j] == lf() && s.skip(1)[j + 1]
            == lf()) by {
            assert(s.skip(1)[j] == s[j + 1]);
            assert(s.skip(1)[j + 1] == s[j + 2]);
        }
        assert(s.skip(1)[k - 1] == s[k]);
        assert(s.skip(1)[k] == s[k + 1]);
        lemma_first_boundary_at(s.skip(1), k - 1);
    }
}

/// If no delimiter stands anywhere in `s`, the first boundary is `s.len()`.
pub proof fn lemma_first_boundary_none(s: Seq<u8>)
    requires
        forall|j: int| 0 <= j && j + 2 <= s.len() ==> !(#[trigger] s[j] == lf() && s[j + 1] == lf()),
    ensures
        first_boundary(s) == s.len(),
    decreases s.len(),
{
    if s.len() >= 2 {
        assert forall|j: int| 0 <= j && j + 2 <= s.skip(1).len() implies !(#[trigger] s.skip(1)[j] == lf()
            && s.skip(1)[j + 1] == lf()) by {
            assert(s.skip(1)[j] == s[j + 1]);
            assert(s.skip(1)[j + 1] == s[j + 2]);
        }
        lemma_first_boundary_none(s.skip(1));
    }
}

/// The complete records of `s`, in order: each is the text up to the next
/// `"\n\n"`, delimiter excluded.
pub open spec fn split_records(s: Seq<u8>) -> Seq<Seq<u8>>
    decreases s.len(),
{
    let i = first_boundary(s);
    if 0 <= i && i + 2 <= s.len() {
        seq![s.take(i)] + split_records(s.skip(i + 2))
    } else {
        Seq::empty()
    }
}

/// What remains of `s` after every complete record is taken out.
pub open spec fn split_rest(s: Seq<u8>) -> Seq<u8>
    decreases s.len(),
{
    let i = first_boundary(s);
    if 0 <= i && i + 2 <= s.len() {
        split_rest(s.skip(i + 2))
    } else {
        s
    }
}

/// Appending text never moves an existing first boundary.
pub proof fn lemma_first_boundary_append(s: Seq<u8>, t: Seq<u8>)
    requires
        first_boundary(s) + 2 <= s.len(),
    ensures
        first_boundary(s + t) == first_boundary(s),
    decreases s.len(),
{
    lemma_first_boundary(s);
    if s[0] == lf() && s[1] == lf() {
        assert((s + t)[0] == lf());
        assert((s + t)[1] == lf());
    } else {
        assert(s.skip(1) + t =~= (s + t).skip(1));
        lemma_first_boundary_append(s.skip(1), t);
        assert((s + t)[0] == s[0]);
        assert((s + t)[1] == s[1]);
    }
}

/// Framing is compositional: framing `s + t` frames `s` first and then the
/// remainder of `s` followed by `t`. This is what makes the decoder
/// insensitive to where a stream is cut into chunks.
pub proof fn lemma_split_append(s: Seq<u8>, t: Seq<u8>)
    ensures
        split_records(s + t) == split_records(s) + split_records(split_rest(s) + t),
        split_rest(s + t) == split_rest(split_rest(s) + t),
    decreases s.len(),
{
    lemma_first_boundary(s);
    let i = first_boundary(s);
    if 0 <= i && i + 2 <= s.len() {
        lemma_first_boundary_append(s, t);
        assert((s + t).take(i) =~= s.take(i));
        assert((s + t).skip(i + 2) =~= s.skip(i + 2) + t);
        lemma_split_append(s.skip(i + 2), t);
        assert(split_records(s + t) =~= split_records(s) + split_records(split_rest(s) + t));
    } else {
        assert(split_rest(s) == s);
        assert(split_records(s) + split_records(s + t) =~= split_records(s + t));
    }
}

/// Exact shape of one framing step: with a boundary at `i`, the first record
/// is `s.take(i)` and the rest of the framing works on `s.skip(i + 2)`.
pub proof fn lemma_split_step(s: Seq<u8>)
    requires
        first_boundary(s) + 2 <= s.len(),
    ensures
        split_records(s) == seq![s.take(first_boundary(s))] + split_records(
            s.skip(first_boundary(s) + 2),
        ),
        split_rest(s) == split_rest(s.skip(first_boundary(s) + 2)),
    decreases s.len(),
{
    lemma_first_boundary(s);
}

/// With no boundary in `s`, nothing frames and everything remains.
pub proof fn lemma_split_done(s: Seq<u8>)
    requires
        first_boundary(s) + 2 > s.len(),
    ensures
        split_records(s) == Seq::<Seq<u8>>::empty(),
        split_rest(s) == s,
{
    lemma_first_boundary(s);
}

/// Finds the first `"\n\n"` in `buf`, if any.
pub fn find_boundary(buf: &Vec<u8>) -> (r: Option<usize>)
    ensures
        match r {
            Some(i) => i as int == first_boundary(buf@) && i + 2 <= buf@.len(),
            None => first_boundary(buf@) == buf@.len(),
        },
{
    let n = buf.len();
    let mut j: usize = 0;
    while j < n && j + 1 < n
        invariant
            n == buf@.len(),
            0 <= j <= n,
            forall|t: int| 0 <= t < j ==> !(#[trigger] buf@[t] == lf() && buf@[t + 1] == lf()),
        decreases n - j,
    {
        if buf[j] == 10u8 && buf[j + 1] == 10u8 {
            proof {
                lemma_first_boundary_at(buf@, j as int);
            }
            return Some(j);
        }
        j = j + 1;
    }
    proof {
        lemma_first_boundary_none(buf@);
    }
    None
}

} // verus!
