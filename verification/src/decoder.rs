//! The per-session streaming decoder.
//!
//! A `StreamDecoder` owns the state of one streaming session: the raw
//! buffer of not-yet-framed bytes, the content accumulated so far, and
//! whether the first token has been announced. `feed` consumes one raw
//! chunk, frames every complete record, and returns the token events those
//! records yield, in order; `end` flushes a trailing unterminated record
//! and hands back the full accumulated content. The first-token state
//! flips exactly once, at the first delta carrying non-empty content.

use vstd::prelude::*;
use vstd::string::StringExecFns;

use crate::framing::{
    find_boundary, first_boundary, lemma_split_done, lemma_split_step, split_records, split_rest,
};
use crate::record::{opt_str_view, record_content_delta, record_delta};

verus! {

/// The tokens that a sequence of records yields, in order; records that
/// yield none are skipped.
pub open spec fn records_tokens(recs: Seq<Seq<u8>>) -> Seq<Seq<char>>
    decreases recs.len(),
{
    if recs.len() == 0 {
        Seq::empty()
    } else {
        match record_delta(recs.first()) {
            Some(t) => seq![t] + records_tokens(recs.drop_first()),
            None => records_tokens(recs.drop_first()),
        }
    }
}

/// The concatenation of a sequence of tokens.
pub open spec fn concat_all(ts: Seq<Seq<char>>) -> Seq<char>
    decreases ts.len(),
{
    if ts.len() == 0 {
        Seq::empty()
    } else {
        ts.first() + concat_all(ts.drop_first())
    }
}

/// Token extraction distributes over concatenation of record sequences.
pub proof fn lemma_records_tokens_append(a: Seq<Seq<u8>>, b: Seq<Seq<u8>>)
    ensures
        records_tokens(a + b) == records_tokens(a) + records_tokens(b),
    decreases a.len(),
{
    if a.len() == 0 {
        assert(a + b =~= b);
        assert(records_tokens(a) + records_tokens(b) =~= records_tokens(b));
    } else {
        assert((a + b).drop_first() =~= a.drop_first() + b);
        assert((a + b).first() == a.first());
        lemma_records_tokens_append(a.drop_first(), b);
        match record_delta(a.first()) {
            Some(t) => {
                assert(seq![t] + (records_tokens(a.drop_first()) + records_tokens(b)) =~= (seq![t]
                    + records_tokens(a.drop_first())) + records_tokens(b));
            },
            None => {},
        }
    }
}

/// The tokens of a single record.
pub proof fn lemma_records_tokens_one(r: Seq<u8>)
    ensures
        records_tokens(seq![r]) == match record_delta(r) {
            Some(t) => seq![t],
            None => Seq::<Seq<char>>::empty(),
        },
{
    assert(seq![r].drop_first() =~= Seq::<Seq<u8>>::empty());
    assert(records_tokens(Seq::<Seq<u8>>::empty()) =~= Seq::<Seq<char>>::empty());
    match record_delta(r) {
        Some(t) => {
            assert(seq![t] + Seq::<Seq<char>>::empty() =~= seq![t]);
        },
        None => {},
    }
}

/// Concatenation of tokens distributes over appending token sequences.
pub proof fn lemma_concat_all_append(a: Seq<Seq<char>>, b: Seq<Seq<char>>)
    ensures
        concat_all(a + b) == concat_all(a) + concat_all(b),
    decreases a.len(),
{
    if a.len() == 0 {
        assert(a + b =~= b);
        assert(concat_all(a) + concat_all(b) =~= concat_all(b));
    } else {
        assert((a + b).drop_first() =~= a.drop_first() + b);
        assert((a + b).first() == a.first());
        lemma_concat_all_append(a.drop_first(), b);
        assert(a.first() + (concat_all(a.drop_first()) + concat_all(b)) =~= (a.first()
            + concat_all(a.drop_first())) + concat_all(b));
    }
}

/// The concatenation of a single token.
pub proof fn lemma_concat_all_one(t: Seq<char>)
    ensures
        concat_all(seq![t]) == t,
{
    assert(seq![t].drop_first() =~= Seq::<Seq<char>>::empty());
    assert(concat_all(Seq::<Seq<char>>::empty()) =~= Seq::<char>::empty());
    assert(t + Seq::<char>::empty() =~= t);
}

/// The tokens one `feed` call emits: those of every record that becomes
/// complete once `chunk` is appended to the buffered remainder.
pub open spec fn batch_tokens(buf: Seq<u8>, chunk: Seq<u8>) -> Seq<Seq<char>> {
    records_tokens(split_records(buf + chunk))
}

/// The tokens the final flush emits: a non-empty trailing remainder is
/// processed as one last record.
pub open spec fn tail_tokens(buf: Seq<u8>) -> Seq<Seq<char>> {
    if buf.len() > 0 {
        match record_delta(buf) {
            Some(t) => seq![t],
            None => Seq::empty(),
        }
    } else {
        Seq::empty()
    }
}

/// Whether any token in `ts` carries non-empty content.
pub open spec fn has_nonempty(ts: Seq<Seq<char>>) -> bool {
    exists|k: int| 0 <= k < ts.len() && ts[k].len() > 0
}

/// Whether the token at position `k` of `ts` is the first one carrying
/// non-empty content.
pub open spec fn first_nonempty_at(ts: Seq<Seq<char>>, k: int) -> bool {
    &&& 0 <= k < ts.len()
    &&& ts[k].len() > 0
    &&& forall|j: int| 0 <= j < k ==> (#[trigger] ts[j]).len() == 0
}

/// A non-empty token on either side makes one in the concatenation, and
/// conversely.
pub proof fn lemma_has_nonempty_append(a: Seq<Seq<char>>, b: Seq<Seq<char>>)
    ensures
        has_nonempty(a + b) == (has_nonempty(a) || has_nonempty(b)),
{
    if has_nonempty(a) {
        let k = choose|k: int| 0 <= k < a.len() && a[k].len() > 0;
        assert((a + b)[k].len() > 0);
    }
    if has_nonempty(b) {
        let k = choose|k: int| 0 <= k < b.len() && b[k].len() > 0;
        assert((a + b)[a.len() + k].len() > 0);
    }
    if has_nonempty(a + b) {
        let k = choose|k: int| 0 <= k < (a + b).len() && (a + b)[k].len() > 0;
        if k < a.len() {
            assert(a[k].len() > 0);
        } else {
            assert(b[k - a.len()].len() > 0);
        }
    }
}

/// A position inside `a` is the first non-empty token of `a + b` exactly
/// when it is the first non-empty token of `a`.
pub proof fn lemma_first_nonempty_append_left(a: Seq<Seq<char>>, b: Seq<Seq<char>>, k: int)
    requires
        0 <= k < a.len(),
    ensures
        first_nonempty_at(a + b, k) <==> first_nonempty_at(a, k),
{
    assert((a + b)[k] == a[k]);
    if first_nonempty_at(a + b, k) {
        assert forall|j: int| 0 <= j < k implies (#[trigger] a[j]).len() == 0 by {
            assert((a + b)[j] == a[j]);
            assert((a + b)[j].len() == 0);
        }
    }
    if first_nonempty_at(a, k) {
        assert forall|j: int| 0 <= j < k implies (#[trigger] (a + b)[j]).len() == 0 by {
            assert((a + b)[j] == a[j]);
        }
    }
}

/// A position inside `b` is the first non-empty token of `a + b` exactly
/// when all of `a` is empty and it is the first non-empty token of `b`.
pub proof fn lemma_first_nonempty_append_right(a: Seq<Seq<char>>, b: Seq<Seq<char>>, k: int)
    requires
        0 <= k < b.len(),
    ensures
        first_nonempty_at(a + b, a.len() + k) <==> (!has_nonempty(a) && first_nonempty_at(b, k)),
{
    assert((a + b)[a.len() + k] == b[k]);
    if first_nonempty_at(a + b, a.len() + k) {
        assert forall|j: int| 0 <= j < k implies (#[trigger] b[j]).len() == 0 by {
            assert((a + b)[a.len() + j] == b[j]);
            assert((a + b)[a.len() + j].len() == 0);
        }
        assert forall|j: int| 0 <= j < a.len() implies (#[trigger] a[j]).len() == 0 by {
            assert((a + b)[j] == a[j]);
            assert((a + b)[j].len() == 0);
        }
        assert(!has_nonempty(a)) by {
            if has_nonempty(a) {
                let w = choose|w: int| 0 <= w < a.len() && a[w].len() > 0;
                assert(a[w].len() == 0);
            }
        }
    }
    if !has_nonempty(a) && first_nonempty_at(b, k) {
        assert forall|j: int| 0 <= j < a.len() + k implies (#[trigger] (a + b)[j]).len() == 0 by {
            if j < a.len() {
                assert((a + b)[j] == a[j]);
                assert(!(0 <= j < a.len() && a[j].len() > 0));
            } else {
                assert((a + b)[j] == b[j - a.len()]);
            }
        }
    }
}

/// One content-delta notification: which session, which fragment, and
/// whether it is the session's first with non-empty content.
#[derive(Debug)]
pub struct TokenEvent {
    pub session_id: String,
    pub token: String,
    pub is_first: bool,
}

/// The state of one streaming session.
#[derive(Debug)]
pub struct StreamDecoder {
    pub session_id: String,
    pub buffer: Vec<u8>,
    pub accumulated: String,
    pub first_token_sent: bool,
}

/// Relies on uuid::Uuid::new_v4 and its Display impl: a fresh random
/// identifier in the hyphenated form, which is 36 characters long.
#[verifier::external_body]
fn fresh_session_id() -> (r: String)
    ensures
        r@.len() == 36,
{
    uuid::Uuid::new_v4().to_string()
}

impl StreamDecoder {
    /// A decoder for a new session under the given identifier.
    pub fn new(session_id: String) -> (d: StreamDecoder)
        ensures
            d.session_id@ == session_id@,
            d.buffer@ == Seq::<u8>::empty(),
            d.accumulated@ == Seq::<char>::empty(),
            !d.first_token_sent,
    {
        StreamDecoder {
            session_id,
            buffer: Vec::new(),
            accumulated: String::new(),
            first_token_sent: false,
        }
    }

    /// A decoder for a new session under a fresh random identifier; the
    /// caller announces the session start with that identifier.
    pub fn start() -> (d: StreamDecoder)
        ensures
            d.session_id@.len() == 36,
            d.buffer@ == Seq::<u8>::empty(),
            d.accumulated@ == Seq::<char>::empty(),
            !d.first_token_sent,
    {
        StreamDecoder::new(fresh_session_id())
    }

    /// Interprets one framed record: appends its content delta, if any, to
    /// the accumulated content and builds the token event to forward. The
    /// first-token state flips exactly once, at the first delta carrying
    /// non-empty content, and only that delta's event is flagged as first.
    pub fn process_record(&mut self, rec: &[u8]) -> (event: Option<TokenEvent>)
        ensures
            final(self).session_id@ == old(self).session_id@,
            final(self).buffer@ == old(self).buffer@,
            match record_delta(rec@) {
                Some(t) => {
                    &&& final(self).accumulated@ == old(self).accumulated@ + t
                    &&& final(self).first_token_sent == (old(self).first_token_sent || t.len() > 0)
                    &&& event matches Some(e) && e.token@ == t && e.session_id@ == old(
                        self,
                    ).session_id@ && e.is_first == (!old(self).first_token_sent && t.len() > 0)
                },
                None => {
                    &&& final(self).accumulated@ == old(self).accumulated@
                    &&& final(self).first_token_sent == old(self).first_token_sent
                    &&& event is None
                },
            },
    {
        match record_content_delta(rec) {
            Some(token) => {
                self.accumulated.append(token.as_str());
                let carries_content = !token.as_str().is_empty();
                let event = TokenEvent {
                    session_id: self.session_id.clone(),
                    token,
                    is_first: !self.first_token_sent && carries_content,
                };
                if carries_content {
                    self.first_token_sent = true;
                }
                Some(event)
            },
            None => None,
        }
    }

    /// Consumes one raw chunk: appends it to the buffer, frames every
    /// complete record, and returns the token events they yield, in order.
    pub fn feed(&mut self, chunk: &[u8]) -> (events: Vec<TokenEvent>)
        ensures
            final(self).session_id@ == old(self).session_id@,
            final(self).buffer@ == split_rest(old(self).buffer@ + chunk@),
            final(self).accumulated@ == old(self).accumulated@ + concat_all(
                batch_tokens(old(self).buffer@, chunk@),
            ),
            final(self).first_token_sent == (old(self).first_token_sent || has_nonempty(
                batch_tokens(old(self).buffer@, chunk@),
            )),
            events@.len() == batch_tokens(old(self).buffer@, chunk@).len(),
            forall|k: int|
                #![trigger events@[k]]
                0 <= k < events@.len() ==> {
                    &&& events@[k].token@ == batch_tokens(old(self).buffer@, chunk@)[k]
                    &&& events@[k].session_id@ == old(self).session_id@
                    &&& events@[k].is_first == (!old(self).first_token_sent && first_nonempty_at(
                        batch_tokens(old(self).buffer@, chunk@),
                        k,
                    ))
                },
    {
        let ghost full: Seq<u8> = old(self).buffer@ + chunk@;
        let mut k: usize = 0;
        while k < chunk.len()
            invariant
                k <= chunk.len(),
                self.buffer@ == old(self).buffer@ + chunk@.take(k as int),
                self.session_id@ == old(self).session_id@,
                self.accumulated@ == old(self).accumulated@,
                self.first_token_sent == old(self).first_token_sent,
            decreases chunk.len() - k,
        {
            self.buffer.push(chunk[k]);
            k = k + 1;
        }
        proof {
            assert(self.buffer@ =~= full);
        }
        let mut events: Vec<TokenEvent> = Vec::new();
        let ghost mut processed: Seq<Seq<u8>> = Seq::empty();
        proof {
            assert(processed + split_records(self.buffer@) =~= split_records(full));
            assert(records_tokens(processed) =~= Seq::<Seq<char>>::empty());
            assert(self.accumulated@ + concat_all(records_tokens(processed)) =~= self.accumulated@);
        }
        loop
            invariant
                split_records(full) == processed + split_records(self.buffer@),
                split_rest(full) == split_rest(self.buffer@),
                self.session_id@ == old(self).session_id@,
                self.accumulated@ == old(self).accumulated@ + concat_all(records_tokens(processed)),
                self.first_token_sent == (old(self).first_token_sent || has_nonempty(
                    records_tokens(processed),
                )),
                events@.len() == records_tokens(processed).len(),
                forall|j: int|
                    #![trigger events@[j]]
                    0 <= j < events@.len() ==> {
                        &&& events@[j].token@ == records_tokens(processed)[j]
                        &&& events@[j].session_id@ == old(self).session_id@
                        &&& events@[j].is_first == (!old(self).first_token_sent && first_nonempty_at(
                            records_tokens(processed),
                            j,
                        ))
                    },
            ensures
                split_records(full) == processed + split_records(self.buffer@),
                split_rest(full) == split_rest(self.buffer@),
                first_boundary(self.buffer@) == self.buffer@.len(),
                self.session_id@ == old(self).session_id@,
                self.accumulated@ == old(self).accumulated@ + concat_all(records_tokens(processed)),
                self.first_token_sent == (old(self).first_token_sent || has_nonempty(
                    records_tokens(processed),
                )),
                events@.len() == records_tokens(processed).len(),
                forall|j: int|
                    #![trigger events@[j]]
                    0 <= j < events@.len() ==> {
                        &&& events@[j].token@ == records_tokens(processed)[j]
                        &&& events@[j].session_id@ == old(self).session_id@
                        &&& events@[j].is_first == (!old(self).first_token_sent && first_nonempty_at(
                            records_tokens(processed),
                            j,
                        ))
                    },
            decreases self.buffer@.len(),
        {
            let ghost buf0 = self.buffer@;
            let found = find_boundary(&self.buffer);
            if found.is_none() {
                break ;
            }
            let i = found.unwrap();
            let buffer_len = self.buffer.len();
            assert(i + 2 <= buffer_len);
            let mut tail = self.buffer.split_off(i + 2);
            self.buffer.truncate(i);
            core::mem::swap(&mut self.buffer, &mut tail);
            let record = tail;
            proof {
                assert(record@ =~= buf0.take(i as int));
                assert(self.buffer@ =~= buf0.skip(i as int + 2));
                lemma_split_step(buf0);
            }
            let ghost processed0 = processed;
            let ghost events0 = events@;
            let event = self.process_record(record.as_slice());
            match event {
                Some(e) => events.push(e),
                None => (),
            }
            proof {
                processed = processed0 + seq![record@];
                lemma_records_tokens_append(processed0, seq![record@]);
                lemma_records_tokens_one(record@);
                assert(split_records(full) =~= processed + split_records(self.buffer@));
                match record_delta(record@) {
                    Some(t) => {
                        let ts0 = records_tokens(processed0);
                        lemma_concat_all_append(ts0, seq![t]);
                        lemma_concat_all_one(t);
                        lemma_has_nonempty_append(ts0, seq![t]);
                        if t.len() > 0 {
                            assert(seq![t][0].len() > 0);
                        }
                        assert(has_nonempty(seq![t]) == (t.len() > 0));
                        assert(first_nonempty_at(seq![t], 0) == (t.len() > 0));
                        assert(records_tokens(processed) =~= ts0.push(t));
                        assert(records_tokens(processed) =~= ts0 + seq![t]);
                        lemma_first_nonempty_append_right(ts0, seq![t], 0);
                        assert(ts0.len() + 0 == ts0.len());
                        assert(first_nonempty_at(records_tokens(processed), ts0.len() as int)
                            == (!has_nonempty(ts0) && t.len() > 0));
                        assert forall|j: int|
                            0 <= j < ts0.len() implies (first_nonempty_at(
                            records_tokens(processed),
                            j,
                        ) <==> first_nonempty_at(ts0, j)) by {
                            lemma_first_nonempty_append_left(ts0, seq![t], j);
                        }
                        assert(self.accumulated@ =~= old(self).accumulated@ + concat_all(
                            records_tokens(processed),
                        ));
                    },
                    None => {
                        assert(records_tokens(processed) =~= records_tokens(processed0));
                    },
                }
            }
        }
        proof {
            lemma_split_done(self.buffer@);
            assert(processed + Seq::<Seq<u8>>::empty() =~= processed);
            assert(split_records(full) == processed);
        }
        events
    }

    /// Ends the session: a non-empty buffered remainder is processed as one
    /// final record. Returns the events of that flush together with the
    /// full accumulated content of the session.
    pub fn end(self) -> (r: (Vec<TokenEvent>, String))
        ensures
            r.1@ == self.accumulated@ + concat_all(tail_tokens(self.buffer@)),
            r.0@.len() == tail_tokens(self.buffer@).len(),
            forall|k: int|
                #![trigger r.0@[k]]
                0 <= k < r.0@.len() ==> {
                    &&& r.0@[k].token@ == tail_tokens(self.buffer@)[k]
                    &&& r.0@[k].session_id@ == self.session_id@
                    &&& r.0@[k].is_first == (!self.first_token_sent && first_nonempty_at(
                        tail_tokens(self.buffer@),
                        k,
                    ))
                },
    {
        let mut d = self;
        let mut events: Vec<TokenEvent> = Vec::new();
        if d.buffer.len() > 0 {
            let mut buf: Vec<u8> = Vec::new();
            core::mem::swap(&mut d.buffer, &mut buf);
            let event = d.process_record(buf.as_slice());
            match event {
                Some(e) => events.push(e),
                None => (),
            }
            proof {
                match record_delta(self.buffer@) {
                    Some(t) => {
                        lemma_concat_all_one(t);
                        if t.len() > 0 {
                            assert(seq![t][0].len() > 0);
                        }
                        assert(first_nonempty_at(seq![t], 0) == (t.len() > 0));
                    },
                    None => {},
                }
            }
        }
        (events, d.accumulated)
    }
}

} // verus!
