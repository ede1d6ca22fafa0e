//! A whole streaming session, and the laws the decoder obeys.
//!
//! The functions here describe one complete session over a sequence of
//! chunks: feed every chunk in order, then end. `decode_all` runs exactly
//! that and is proved to match; the lemmas state the session-level laws —
//! the final content is the concatenation of every emitted token, chunk
//! boundaries have no effect on the outcome, records that yield no token
//! are skipped without effect, and exactly the event of the first token
//! carrying non-empty content bears the first-token flag.

use vstd::prelude::*;

use crate::decoder::{
    batch_tokens, concat_all, first_nonempty_at, has_nonempty, lemma_concat_all_append,
    lemma_first_nonempty_append_left, lemma_first_nonempty_append_right,
    lemma_has_nonempty_append, lemma_records_tokens_append, lemma_records_tokens_one,
    records_tokens, tail_tokens, StreamDecoder, TokenEvent,
};
use crate::framing::{lemma_split_append, split_records, split_rest};
use crate::record::record_delta;

verus! {

/// All bytes of a chunked stream, in delivery order.
pub open spec fn chunks_concat(chunks: Seq<Seq<u8>>) -> Seq<u8>
    decreases chunks.len(),
{
    if chunks.len() == 0 {
        Seq::empty()
    } else {
        chunks_concat(chunks.drop_last()) + chunks.last()
    }
}

/// The not-yet-framed remainder after feeding the chunks in order.
pub open spec fn run_buffer(chunks: Seq<Seq<u8>>) -> Seq<u8>
    decreases chunks.len(),
{
    if chunks.len() == 0 {
        Seq::empty()
    } else {
        split_rest(run_buffer(chunks.drop_last()) + chunks.last())
    }
}

/// The tokens emitted while feeding the chunks in order.
pub open spec fn run_tokens(chunks: Seq<Seq<u8>>) -> Seq<Seq<char>>
    decreases chunks.len(),
{
    if chunks.len() == 0 {
        Seq::empty()
    } else {
        run_tokens(chunks.drop_last()) + batch_tokens(
            run_buffer(chunks.drop_last()),
            chunks.last(),
        )
    }
}

/// The content accumulated while feeding the chunks in order.
pub open spec fn run_content(chunks: Seq<Seq<u8>>) -> Seq<char>
    decreases chunks.len(),
{
    if chunks.len() == 0 {
        Seq::empty()
    } else {
        run_content(chunks.drop_last()) + concat_all(
            batch_tokens(run_buffer(chunks.drop_last()), chunks.last()),
        )
    }
}

/// Whether a non-empty token has been announced after feeding the chunks.
pub open spec fn run_first_sent(chunks: Seq<Seq<u8>>) -> bool
    decreases chunks.len(),
{
    if chunks.len() == 0 {
        false
    } else {
        run_first_sent(chunks.drop_last()) || has_nonempty(
            batch_tokens(run_buffer(chunks.drop_last()), chunks.last()),
        )
    }
}

/// Every token of a whole session over `chunks`, final flush included.
pub open spec fn session_tokens(chunks: Seq<Seq<u8>>) -> Seq<Seq<char>> {
    run_tokens(chunks) + tail_tokens(run_buffer(chunks))
}

/// The full content a whole session over `chunks` returns.
pub open spec fn session_content(chunks: Seq<Seq<u8>>) -> Seq<char> {
    run_content(chunks) + concat_all(tail_tokens(run_buffer(chunks)))
}

/// Tokens paired with their first-token flags, as one batch of events
/// emits them: a token is flagged exactly when no non-empty token was
/// announced before the batch and it is the batch's first non-empty one.
pub open spec fn flagged_events(tokens: Seq<Seq<char>>, already_sent: bool) -> Seq<
    (Seq<char>, bool),
> {
    Seq::new(tokens.len(), |k: int| (tokens[k], !already_sent && first_nonempty_at(tokens, k)))
}

/// The token events emitted while feeding the chunks in order.
pub open spec fn run_events(chunks: Seq<Seq<u8>>) -> Seq<(Seq<char>, bool)>
    decreases chunks.len(),
{
    if chunks.len() == 0 {
        Seq::empty()
    } else {
        run_events(chunks.drop_last()) + flagged_events(
            batch_tokens(run_buffer(chunks.drop_last()), chunks.last()),
            run_first_sent(chunks.drop_last()),
        )
    }
}

/// Every token event of a whole session, final flush included.
pub open spec fn session_events(chunks: Seq<Seq<u8>>) -> Seq<(Seq<char>, bool)> {
    run_events(chunks) + flagged_events(tail_tokens(run_buffer(chunks)), run_first_sent(chunks))
}

/// While feeding, the accumulated content is the concatenation of the
/// tokens emitted so far.
proof fn lemma_run_content_is_concat(chunks: Seq<Seq<u8>>)
    ensures
        run_content(chunks) == concat_all(run_tokens(chunks)),
    decreases chunks.len(),
{
    if chunks.len() == 0 {
    } else {
        lemma_run_content_is_concat(chunks.drop_last());
        lemma_concat_all_append(
            run_tokens(chunks.drop_last()),
            batch_tokens(run_buffer(chunks.drop_last()), chunks.last()),
        );
    }
}

/// Law: over one whole session, the final content equals the concatenation,
/// in order, of every token the session emitted.
pub proof fn lemma_content_is_token_concat(chunks: Seq<Seq<u8>>)
    ensures
        session_content(chunks) == concat_all(session_tokens(chunks)),
{
    lemma_run_content_is_concat(chunks);
    lemma_concat_all_append(run_tokens(chunks), tail_tokens(run_buffer(chunks)));
}

/// Feeding chunk by chunk frames and tokenizes exactly the concatenated
/// bytes.
proof fn lemma_run_of_concat(chunks: Seq<Seq<u8>>)
    ensures
        run_buffer(chunks) == split_rest(chunks_concat(chunks)),
        run_tokens(chunks) == records_tokens(split_records(chunks_concat(chunks))),
    decreases chunks.len(),
{
    if chunks.len() == 0 {
        assert(split_rest(Seq::<u8>::empty()) == Seq::<u8>::empty());
        assert(split_records(Seq::<u8>::empty()) =~= Seq::<Seq<u8>>::empty());
    } else {
        let p = chunks.drop_last();
        let l = chunks.last();
        let s = chunks_concat(p);
        lemma_run_of_concat(p);
        lemma_split_append(s, l);
        lemma_records_tokens_append(split_records(s), split_records(split_rest(s) + l));
    }
}

/// Law (chunk-boundary independence): how the stream was cut into chunks
/// has no effect — the remainder, the emitted tokens and the final content
/// depend only on the concatenated bytes, and equal those of a session fed
/// the whole stream as one chunk.
pub proof fn lemma_chunk_boundary_independence(chunks: Seq<Seq<u8>>)
    ensures
        run_buffer(chunks) == split_rest(chunks_concat(chunks)),
        run_tokens(chunks) == records_tokens(split_records(chunks_concat(chunks))),
        session_tokens(chunks) == session_tokens(seq![chunks_concat(chunks)]),
        session_content(chunks) == session_content(seq![chunks_concat(chunks)]),
{
    let full = chunks_concat(chunks);
    lemma_run_of_concat(chunks);
    lemma_run_of_concat(seq![full]);
    assert(seq![full].drop_last() =~= Seq::<Seq<u8>>::empty());
    assert(chunks_concat(Seq::<Seq<u8>>::empty()) =~= Seq::<u8>::empty());
    assert(seq![full].last() == full);
    assert(Seq::<u8>::empty() + full =~= full);
    assert(chunks_concat(seq![full]) =~= full);
    assert(session_tokens(chunks) =~= session_tokens(seq![full]));
    lemma_content_is_token_concat(chunks);
    lemma_content_is_token_concat(seq![full]);
}

/// Law: a record that yields no token — a missing `"data: "` prefix, the
/// `[DONE]` sentinel, or a payload with no JSON content delta — is skipped
/// without effect: the surrounding records yield the same tokens, in the
/// same order.
pub proof fn lemma_bad_record_skipped(before: Seq<Seq<u8>>, bad: Seq<u8>, after: Seq<Seq<u8>>)
    requires
        record_delta(bad) is None,
    ensures
        records_tokens(before + seq![bad] + after) == records_tokens(before + after),
{
    lemma_records_tokens_append(before + seq![bad], after);
    lemma_records_tokens_append(before, seq![bad]);
    lemma_records_tokens_append(before, after);
    lemma_records_tokens_one(bad);
    assert(records_tokens(before) + Seq::<Seq<char>>::empty() =~= records_tokens(before));
}

/// The events emitted while feeding carry the emitted tokens; an event is
/// flagged exactly at the first non-empty token, and the first-token state
/// is set exactly once a non-empty token exists.
proof fn lemma_run_events_shape(chunks: Seq<Seq<u8>>)
    ensures
        run_events(chunks).len() == run_tokens(chunks).len(),
        forall|k: int|
            0 <= k < run_events(chunks).len() ==> (#[trigger] run_events(chunks)[k]).0
                == run_tokens(chunks)[k],
        forall|k: int|
            0 <= k < run_events(chunks).len() ==> ((#[trigger] run_events(chunks)[k]).1 <==>
                first_nonempty_at(run_tokens(chunks), k)),
        run_first_sent(chunks) == has_nonempty(run_tokens(chunks)),
    decreases chunks.len(),
{
    if chunks.len() == 0 {
        assert(!has_nonempty(Seq::<Seq<char>>::empty()));
    } else {
        let p = chunks.drop_last();
        lemma_run_events_shape(p);
        let a = run_tokens(p);
        let b = batch_tokens(run_buffer(p), chunks.last());
        lemma_has_nonempty_append(a, b);
        assert forall|k: int|
            0 <= k < run_events(chunks).len() implies ((#[trigger] run_events(chunks)[k]).1 <==>
            first_nonempty_at(run_tokens(chunks), k)) by {
            if k < a.len() {
                assert(run_events(chunks)[k] == run_events(p)[k]);
                lemma_first_nonempty_append_left(a, b, k);
            } else {
                assert(run_events(chunks)[k] == flagged_events(b, run_first_sent(p))[k - a.len()]);
                lemma_first_nonempty_append_right(a, b, k - a.len());
                assert(a.len() + (k - a.len()) == k);
            }
        }
    }
}

/// A sequence holding a non-empty token has a first non-empty token.
proof fn lemma_first_nonempty_exists(ts: Seq<Seq<char>>)
    requires
        has_nonempty(ts),
    ensures
        exists|k: int| #[trigger] first_nonempty_at(ts, k),
    decreases ts.len(),
{
    let w = choose|k: int| 0 <= k < ts.len() && ts[k].len() > 0;
    if ts[0].len() > 0 {
        assert(first_nonempty_at(ts, 0));
    } else {
        assert(ts.drop_first()[w - 1] == ts[w]);
        assert(has_nonempty(ts.drop_first()));
        lemma_first_nonempty_exists(ts.drop_first());
        let k0 = choose|k: int| #[trigger] first_nonempty_at(ts.drop_first(), k);
        assert forall|j: int| 0 <= j < k0 + 1 implies (#[trigger] ts[j]).len() == 0 by {
            if j > 0 {
                assert(ts.drop_first()[j - 1] == ts[j]);
            }
        }
        assert(ts.drop_first()[k0] == ts[k0 + 1]);
        assert(first_nonempty_at(ts, k0 + 1));
    }
}

/// Law: across one whole session, a token event carries the first-token
/// flag exactly when its token is the session's first one with non-empty
/// content; so at most one event is flagged, exactly one as soon as any
/// token is non-empty, and every event carries the session's tokens in
/// order.
pub proof fn lemma_unique_first_flag(chunks: Seq<Seq<u8>>)
    ensures
        session_events(chunks).len() == session_tokens(chunks).len(),
        forall|k: int|
            0 <= k < session_events(chunks).len() ==> (#[trigger] session_events(chunks)[k]).0
                == session_tokens(chunks)[k],
        forall|k: int|
            0 <= k < session_events(chunks).len() ==> ((#[trigger] session_events(chunks)[k]).1
                <==> first_nonempty_at(session_tokens(chunks), k)),
        forall|k1: int, k2: int|
            #![trigger session_events(chunks)[k1], session_events(chunks)[k2]]
            0 <= k1 < session_events(chunks).len() && 0 <= k2 < session_events(chunks).len()
                && session_events(chunks)[k1].1 && session_events(chunks)[k2].1 ==> k1 == k2,
        has_nonempty(session_tokens(chunks)) ==> exists|k: int|
            0 <= k < session_events(chunks).len() && (#[trigger] session_events(chunks)[k]).1,
{
    lemma_run_events_shape(chunks);
    let a = run_tokens(chunks);
    let b = tail_tokens(run_buffer(chunks));
    lemma_has_nonempty_append(a, b);
    assert forall|k: int|
        0 <= k < session_events(chunks).len() implies ((#[trigger] session_events(chunks)[k]).1
        <==> first_nonempty_at(session_tokens(chunks), k)) by {
        if k < a.len() {
            assert(session_events(chunks)[k] == run_events(chunks)[k]);
            lemma_first_nonempty_append_left(a, b, k);
        } else {
            assert(session_events(chunks)[k] == flagged_events(b, run_first_sent(chunks))[k
                - a.len()]);
            lemma_first_nonempty_append_right(a, b, k - a.len());
            assert(a.len() + (k - a.len()) == k);
        }
    }
    assert forall|k1: int, k2: int|
        #![trigger session_events(chunks)[k1], session_events(chunks)[k2]]
        0 <= k1 < session_events(chunks).len() && 0 <= k2 < session_events(chunks).len()
            && session_events(chunks)[k1].1 && session_events(chunks)[k2].1 implies k1 == k2 by {
        if k1 < k2 {
            assert(session_tokens(chunks)[k1].len() == 0);
        }
        if k2 < k1 {
            assert(session_tokens(chunks)[k2].len() == 0);
        }
    }
    if has_nonempty(session_tokens(chunks)) {
        lemma_first_nonempty_exists(session_tokens(chunks));
        let k = choose|k: int| #[trigger] first_nonempty_at(session_tokens(chunks), k);
        assert(session_events(chunks)[k].1);
    }
}

/// The views of a sequence of byte chunks.
pub open spec fn chunk_views(chunks: Seq<Vec<u8>>) -> Seq<Seq<u8>> {
    chunks.map_values(|c: Vec<u8>| c@)
}

/// Decodes a whole response delivered as a sequence of chunks: feeds each
/// chunk in order under the given session identifier, then ends the
/// session. Returns every token event and the full content.
pub fn decode_all(session_id: String, chunks: &Vec<Vec<u8>>) -> (r: (Vec<TokenEvent>, String))
    ensures
        r.1@ == session_content(chunk_views(chunks@)),
        r.0@.len() == session_events(chunk_views(chunks@)).len(),
        forall|k: int|
            #![trigger r.0@[k]]
            0 <= k < r.0@.len() ==> {
                &&& r.0@[k].token@ == session_events(chunk_views(chunks@))[k].0
                &&& r.0@[k].is_first == session_events(chunk_views(chunks@))[k].1
                &&& r.0@[k].session_id@ == session_id@
            },
{
    let ghost cs = chunk_views(chunks@);
    let mut d = StreamDecoder::new(session_id);
    let mut events: Vec<TokenEvent> = Vec::new();
    let mut i: usize = 0;
    proof {
        assert(cs.take(0) =~= Seq::<Seq<u8>>::empty());
    }
    while i < chunks.len()
        invariant
            i <= chunks.len(),
            cs == chunk_views(chunks@),
            cs.len() == chunks@.len(),
            d.session_id@ == session_id@,
            d.buffer@ == run_buffer(cs.take(i as int)),
            d.accumulated@ == run_content(cs.take(i as int)),
            d.first_token_sent == run_first_sent(cs.take(i as int)),
            events@.len() == run_events(cs.take(i as int)).len(),
            forall|k: int|
                #![trigger events@[k]]
                0 <= k < events@.len() ==> {
                    &&& events@[k].token@ == run_events(cs.take(i as int))[k].0
                    &&& events@[k].is_first == run_events(cs.take(i as int))[k].1
                    &&& events@[k].session_id@ == session_id@
                },
        decreases chunks.len() - i,
    {
        let ghost pre = cs.take(i as int);
        let mut batch = d.feed(chunks[i].as_slice());
        proof {
            assert(cs.take(i + 1).drop_last() =~= pre);
            assert(cs.take(i + 1).last() == cs[i as int]);
            assert(cs[i as int] == chunks@[i as int]@);
        }
        let ghost events0 = events@;
        let ghost batch0 = batch@;
        events.append(&mut batch);
        proof {
            let now = cs.take(i + 1);
            assert(events@ =~= events0 + batch0);
            assert(run_events(now) == run_events(pre) + flagged_events(
                batch_tokens(run_buffer(pre), cs[i as int]),
                run_first_sent(pre),
            ));
        }
        i = i + 1;
    }
    proof {
        assert(cs.take(chunks@.len() as int) =~= cs);
    }
    let (mut tail, content) = d.end();
    let ghost events1 = events@;
    let ghost tail0 = tail@;
    events.append(&mut tail);
    proof {
        assert(events@ =~= events1 + tail0);
    }
    (events, content)
}

} // verus!
