//! The synchronisation engine the server runs: each player's input is cut
//! into `delay` chunks; once every player that has not dropped has a chunk
//! queued, one chunk per player (zeros for a dropped player) forms a bundle
//! that goes to every player's send buffer; a player receives the
//! concatenation of `delay` bundles at a time. `CachedGameSync` adds the
//! Game Data / Game Cache layer on both sides.
use std::collections::VecDeque;
use vstd::prelude::*;
use crate::packet_util::{decimal_chars, decimal_string};

pub use crate::sync_core::{ClientInput, InputCache, ServerResponse};
pub use crate::sync_core::RawOutput as PlayerOutput;
pub use crate::sync_core::PlayerResponse as CachedPlayerOutput;

use crate::sync_core::{
    cache_push_spec, caches_view, caches_wf, copy_bytes, input_resolvable, raws_view,
    resolve_input_spec, respond_all, respond_fold, respond_spec, responses_view, InputSpec, RawOutput,
    ResponseSpec,
};

verus! {

/// Error types for game sync operations
#[derive(Debug, Clone, PartialEq)]
pub enum GameSyncError {
    /// Invalid player ID (out of range)
    InvalidPlayerId { player_id: usize, player_count: usize },
    /// Cache position not found
    CachePositionNotFound { player_id: usize, position: u8 },
    /// Internal buffer inconsistency (should not happen in normal operation)
    BufferInconsistency { message: String },
}

/// The text of an error.
pub open spec fn sync_error_text(e: GameSyncError) -> Seq<char> {
    match e {
        GameSyncError::InvalidPlayerId { player_id, player_count } => "Invalid player_id: "@ + decimal_chars(
            player_id as nat,
        ) + " (valid range: 0.."@ + decimal_chars(player_count as nat) + ")"@,
        GameSyncError::CachePositionNotFound { player_id, position } => "Cache position "@ + decimal_chars(
            position as nat,
        ) + " not found for player "@ + decimal_chars(player_id as nat),
        GameSyncError::BufferInconsistency { message } => "Buffer inconsistency: "@ + message@,
    }
}

impl GameSyncError {
    /// The error as text.
    pub fn to_text(&self) -> (s: String)
        ensures
            s@ == sync_error_text(*self),
    {
        match self {
            GameSyncError::InvalidPlayerId { player_id, player_count } => {
                let mut s = String::from_str("Invalid player_id: ");
                s.append(decimal_string(*player_id).as_str());
                s.append(" (valid range: 0..");
                s.append(decimal_string(*player_count).as_str());
                s.append(")");
                s
            },
            GameSyncError::CachePositionNotFound { player_id, position } => {
                let mut s = String::from_str("Cache position ");
                s.append(decimal_string(*position as usize).as_str());
                s.append(" not found for player ");
                s.append(decimal_string(*player_id).as_str());
                s
            },
            GameSyncError::BufferInconsistency { message } => {
                let mut s = String::from_str("Buffer inconsistency: ");
                s.append(message.as_str());
                s
            },
        }
    }
}

/// Mathematical state of the engine.
pub struct SyncSpec {
    /// Queued input chunks of each player.
    pub inputs: Seq<Seq<Seq<u8>>>,
    /// Chunks waiting in each player's send buffer.
    pub senders: Seq<Seq<Seq<u8>>>,
    pub delays: Seq<usize>,
    pub dropped: Seq<bool>,
    /// Size of one chunk, fixed by the first accepted input (0 before).
    pub game_data_size: usize,
}

pub open spec fn queues_view(v: Seq<VecDeque<Vec<u8>>>) -> Seq<Seq<Seq<u8>>> {
    v.map_values(|q: VecDeque<Vec<u8>>| q@.map_values(|c: Vec<u8>| c@))
}

/// `d` cut into pieces of `size` bytes, the last one possibly shorter.
pub open spec fn chunks_spec(d: Seq<u8>, size: nat) -> Seq<Seq<u8>>
    decreases d.len(),
{
    if d.len() == 0 || size == 0 {
        Seq::empty()
    } else if d.len() <= size {
        seq![d]
    } else {
        seq![d.take(size as int)] + chunks_spec(d.skip(size as int), size)
    }
}

/// `n` zero bytes.
pub open spec fn zeros(n: usize) -> Seq<u8> {
    Seq::new(n as nat, |i: int| 0u8)
}

/// Sum of the lengths of the queues.
pub open spec fn total_len(s: Seq<Seq<Seq<u8>>>) -> int
    decreases s.len(),
{
    if s.len() == 0 {
        0
    } else {
        total_len(s.drop_last()) + s.last().len()
    }
}

/// Whether a bundle can be formed: every player has a chunk queued or has
/// dropped, and at least one chunk is queued.
pub open spec fn bundle_ready(st: SyncSpec) -> bool {
    &&& forall|i: int| 0 <= i < st.delays.len() ==> st.inputs[i].len() > 0 || st.dropped[i]
    &&& exists|i: int| 0 <= i < st.delays.len() && st.inputs[i].len() > 0
}

/// The bundle: each player's oldest chunk, zeros for a player without one.
pub open spec fn bundle_items(st: SyncSpec) -> Seq<Seq<u8>> {
    Seq::new(
        st.delays.len(),
        |i: int|
            if st.inputs[i].len() > 0 {
                st.inputs[i][0]
            } else {
                zeros(st.game_data_size)
            },
    )
}

/// The input queues once the bundle is taken.
pub open spec fn after_extract(st: SyncSpec) -> Seq<Seq<Seq<u8>>> {
    Seq::new(
        st.delays.len(),
        |i: int|
            if st.inputs[i].len() > 0 {
                st.inputs[i].drop_first()
            } else {
                st.inputs[i]
            },
    )
}

/// Players `0..k` in turn take `delay * player_count` chunks from their send
/// buffer when it holds that many, and receive their concatenation.
pub open spec fn flush_upto(senders: Seq<Seq<Seq<u8>>>, delays: Seq<usize>, k: int) -> (
    Seq<Seq<Seq<u8>>>,
    Seq<(usize, Seq<u8>)>,
)
    decreases k,
{
    if k <= 0 {
        (senders, Seq::empty())
    } else {
        let prev = flush_upto(senders, delays, k - 1);
        let need = delays[k - 1] * senders.len();
        let buf = prev.0[k - 1];
        if buf.len() >= need {
            (
                prev.0.update(k - 1, buf.skip(need)),
                prev.1.push(((k - 1) as usize, buf.take(need).flatten())),
            )
        } else {
            prev
        }
    }
}

/// One bundle: taken from the input queues, appended to every send buffer,
/// and the send buffers flushed.
pub open spec fn bundle_step(st: SyncSpec) -> (SyncSpec, Seq<(usize, Seq<u8>)>) {
    let items = bundle_items(st);
    let filled = Seq::new(st.delays.len(), |s: int| st.senders[s] + items);
    let fl = flush_upto(filled, st.delays, st.delays.len() as int);
    (SyncSpec { inputs: after_extract(st), senders: fl.0, ..st }, fl.1)
}

pub proof fn lemma_total_len_pointwise(a: Seq<Seq<Seq<u8>>>, b: Seq<Seq<Seq<u8>>>)
    requires
        a.len() == b.len(),
        forall|i: int| 0 <= i < a.len() ==> b[i].len() <= a[i].len(),
    ensures
        total_len(b) <= total_len(a),
        total_len(b) >= 0,
        (exists|i: int| 0 <= i < a.len() && b[i].len() < a[i].len()) ==> total_len(b) < total_len(
            a,
        ),
    decreases a.len(),
{
    if a.len() > 0 {
        lemma_total_len_pointwise(a.drop_last(), b.drop_last());
        if exists|i: int| 0 <= i < a.len() && b[i].len() < a[i].len() {
            let i = choose|i: int| 0 <= i < a.len() && b[i].len() < a[i].len();
            if i < a.len() - 1 {
                assert(a.drop_last()[i] == a[i]);
                assert(b.drop_last()[i] == b[i]);
            }
        }
    }
}

pub proof fn lemma_extract_shrinks(st: SyncSpec)
    requires
        st.inputs.len() == st.delays.len(),
        bundle_ready(st),
    ensures
        total_len(after_extract(st)) < total_len(st.inputs),
        total_len(after_extract(st)) >= 0,
{
    lemma_total_len_pointwise(st.inputs, after_extract(st));
}

/// Bundles are formed until none can be; the outputs of all of them, in
/// order.
pub open spec fn drain_spec(st: SyncSpec) -> (SyncSpec, Seq<(usize, Seq<u8>)>)
    decreases total_len(st.inputs),
{
    if st.inputs.len() == st.delays.len() && bundle_ready(st) {
        proof {
            lemma_extract_shrinks(st);
        }
        let step = bundle_step(st);
        let rest = drain_spec(step.0);
        (rest.0, step.1 + rest.1)
    } else {
        (st, Seq::empty())
    }
}

/// The state once `input` from `pid` is queued: cut into `delay` chunks of
/// `len / delay` bytes (the remainder forms one more, shorter chunk).
pub open spec fn add_input_spec(st: SyncSpec, pid: int, input: Seq<u8>) -> SyncSpec {
    let delay = st.delays[pid];
    if delay > 0 && input.len() > 0 && input.len() / (delay as nat) > 0 {
        let cs = (input.len() / (delay as nat)) as usize;
        SyncSpec {
            game_data_size: if st.game_data_size == 0 {
                cs
            } else {
                st.game_data_size
            },
            inputs: st.inputs.update(pid, st.inputs[pid] + chunks_spec(input, cs as nat)),
            ..st
        }
    } else {
        st
    }
}

pub open spec fn raw_result_view(r: Result<Vec<RawOutput>, GameSyncError>) -> Result<
    Seq<(usize, Seq<u8>)>,
    GameSyncError,
> {
    match r {
        Ok(v) => Ok(raws_view(v@)),
        Err(e) => Err(e),
    }
}

/// Input from `pid`: refused for a player that does not exist, ignored from
/// a dropped player, otherwise queued and every ready bundle sent.
pub open spec fn process_spec(st: SyncSpec, pid: usize, input: Seq<u8>) -> (
    SyncSpec,
    Result<Seq<(usize, Seq<u8>)>, GameSyncError>,
) {
    if pid >= st.delays.len() {
        (st, Err(GameSyncError::InvalidPlayerId { player_id: pid, player_count: st.delays.len() as usize }))
    } else if st.dropped[pid as int] {
        (st, Ok(Seq::empty()))
    } else {
        let d = drain_spec(add_input_spec(st, pid as int, input));
        (d.0, Ok(d.1))
    }
}

/// A player drops: refused for a player that does not exist, otherwise
/// marked and every bundle that can now be formed is sent.
pub open spec fn mark_dropped_spec(st: SyncSpec, pid: usize) -> (
    SyncSpec,
    Result<Seq<(usize, Seq<u8>)>, GameSyncError>,
) {
    if pid >= st.dropped.len() {
        (st, Err(GameSyncError::InvalidPlayerId { player_id: pid, player_count: st.dropped.len() as usize }))
    } else {
        let d = drain_spec(SyncSpec { dropped: st.dropped.update(pid as int, true), ..st });
        (d.0, Ok(d.1))
    }
}

/// The state invariant: one queue, send buffer and drop flag per player,
/// `delay * player_count` representable, and no send buffer of a player
/// with a positive delay holding a full output.
pub open spec fn sync_wf(st: SyncSpec) -> bool {
    let n = st.delays.len();
    &&& st.inputs.len() == n
    &&& st.senders.len() == n
    &&& st.dropped.len() == n
    &&& delays_ok(st.delays)
    &&& forall|p: int|
        0 <= p < n && 1 <= #[trigger] st.delays[p] ==> st.senders[p].len() < st.delays[p] * n
}

/// Whether every delay is at least 1.
pub open spec fn delays_positive(delays: Seq<usize>) -> bool {
    forall|p: int| 0 <= p < delays.len() ==> 1 <= #[trigger] delays[p]
}

/// Whether draining would never end: a bundle is ready while some player's
/// delay is 0, so that player's send buffer yields empty outputs forever.
pub open spec fn stalls(st: SyncSpec) -> bool {
    !delays_positive(st.delays) && bundle_ready(st)
}

/// The state once player `pid` is marked dropped.
pub open spec fn with_dropped(st: SyncSpec, pid: int) -> SyncSpec {
    SyncSpec { dropped: st.dropped.update(pid, true), ..st }
}

/// Blocking: while a player that has not dropped has nothing queued, an
/// input from another player is queued and nothing is sent.
pub proof fn law_blocked_input_sends_nothing(st: SyncSpec, pid: usize, q: int, input: Seq<u8>)
    requires
        sync_wf(st),
        pid < st.delays.len(),
        0 <= q < st.delays.len(),
        q != pid,
        !st.dropped[q],
        st.inputs[q].len() == 0,
    ensures
        process_spec(st, pid, input).1 == Ok::<Seq<(usize, Seq<u8>)>, GameSyncError>(Seq::empty()),
{
    if !st.dropped[pid as int] {
        let st2 = add_input_spec(st, pid as int, input);
        assert(st2.inputs[q] == st.inputs[q]);
        assert(!bundle_ready(st2));
    }
}

/// Every frame that can go out does: once the ready bundles are sent, no
/// bundle is ready.
pub proof fn law_drain_leaves_none_ready(st: SyncSpec)
    requires
        st.inputs.len() == st.delays.len(),
    ensures
        drain_spec(st).0.inputs.len() == st.delays.len(),
        drain_spec(st).0.delays == st.delays,
        !bundle_ready(drain_spec(st).0),
    decreases total_len(st.inputs),
{
    if bundle_ready(st) {
        lemma_extract_shrinks(st);
        let step = bundle_step(st);
        assert(step.0.inputs.len() == st.delays.len());
        law_drain_leaves_none_ready(step.0);
    }
}

/// A round forms only while every player that has not dropped has a chunk
/// queued: otherwise draining sends nothing and changes nothing, and any
/// output of a drain means every such player had one.
pub proof fn law_round_needs_every_player(st: SyncSpec)
    requires
        st.inputs.len() == st.delays.len(),
        st.dropped.len() == st.delays.len(),
    ensures
        (exists|q: int| 0 <= q < st.delays.len() && !st.dropped[q] && #[trigger] st.inputs[q].len() == 0)
            ==> drain_spec(st) == (st, Seq::<(usize, Seq<u8>)>::empty()),
        drain_spec(st).1.len() > 0 ==> forall|q: int|
            0 <= q < st.delays.len() && !st.dropped[q] ==> #[trigger] st.inputs[q].len() > 0,
{
    if exists|q: int| 0 <= q < st.delays.len() && !st.dropped[q] && #[trigger] st.inputs[q].len() == 0 {
        let q = choose|q: int| 0 <= q < st.delays.len() && !st.dropped[q] && #[trigger] st.inputs[q].len() == 0;
        assert(!bundle_ready(st));
    }
}

/// Draining keeps every drop flag.
pub proof fn lemma_drain_keeps_dropped(st: SyncSpec)
    requires
        st.inputs.len() == st.delays.len(),
    ensures
        drain_spec(st).0.dropped == st.dropped,
    decreases total_len(st.inputs),
{
    if bundle_ready(st) {
        lemma_extract_shrinks(st);
        lemma_drain_keeps_dropped(bundle_step(st).0);
    }
}

/// A drop flag, once set, stays: an input leaves the flags as they were, a
/// drop sets exactly the flag of its player, and `is_player_dropped` reads
/// the flag.
pub proof fn law_dropped_flag_kept(st: SyncSpec, pid: usize, input: Seq<u8>)
    requires
        sync_wf(st),
    ensures
        process_spec(st, pid, input).0.dropped == st.dropped,
        pid < st.delays.len() ==> mark_dropped_spec(st, pid).0.dropped == st.dropped.update(
            pid as int,
            true,
        ),
        pid < st.delays.len() ==> mark_dropped_spec(st, pid).0.dropped[pid as int],
{
    if pid < st.delays.len() && !st.dropped[pid as int] {
        lemma_drain_keeps_dropped(add_input_spec(st, pid as int, input));
    }
    if pid < st.delays.len() {
        lemma_drain_keeps_dropped(with_dropped(st, pid as int));
        assert(SyncSpec { dropped: st.dropped.update(pid as int, true), ..st } == with_dropped(st, pid as int));
    }
}

/// A call on the engine: input from a player, or a player marked dropped.
pub enum SyncCall {
    Input(usize, Seq<u8>),
    Drop(usize),
}

/// The state after `calls`, one after another, from `st`.
pub open spec fn run_calls(st: SyncSpec, calls: Seq<SyncCall>) -> SyncSpec
    decreases calls.len(),
{
    if calls.len() == 0 {
        st
    } else {
        let prev = run_calls(st, calls.drop_last());
        match calls.last() {
            SyncCall::Input(p, d) => process_spec(prev, p, d).0,
            SyncCall::Drop(p) => mark_dropped_spec(prev, p).0,
        }
    }
}

proof fn lemma_drain_shape(st: SyncSpec)
    requires
        st.inputs.len() == st.delays.len(),
    ensures
        drain_spec(st).0.inputs.len() == st.delays.len(),
        drain_spec(st).0.delays == st.delays,
        drain_spec(st).0.dropped == st.dropped,
{
    law_drain_leaves_none_ready(st);
    lemma_drain_keeps_dropped(st);
}

proof fn lemma_run_shape(st: SyncSpec, calls: Seq<SyncCall>)
    requires
        st.inputs.len() == st.delays.len(),
        st.dropped.len() == st.delays.len(),
    ensures
        run_calls(st, calls).inputs.len() == st.delays.len(),
        run_calls(st, calls).dropped.len() == st.delays.len(),
        run_calls(st, calls).delays == st.delays,
    decreases calls.len(),
{
    if calls.len() > 0 {
        lemma_run_shape(st, calls.drop_last());
        let prev = run_calls(st, calls.drop_last());
        match calls.last() {
            SyncCall::Input(p, d) => {
                if p < prev.delays.len() && !prev.dropped[p as int] {
                    lemma_drain_shape(add_input_spec(prev, p as int, d));
                }
            },
            SyncCall::Drop(p) => {
                if p < prev.dropped.len() {
                    lemma_drain_shape(with_dropped(prev, p as int));
                    assert(SyncSpec { dropped: prev.dropped.update(p as int, true), ..prev } == with_dropped(
                        prev,
                        p as int,
                    ));
                }
            },
        }
    }
}

/// The drop history: from a state where no one has dropped, after any
/// calls, a player is dropped exactly when one of the calls dropped it;
/// inputs never change a drop flag, and a drop of a player that exists
/// always succeeds.
pub proof fn law_dropped_history(st: SyncSpec, calls: Seq<SyncCall>, i: int)
    requires
        st.inputs.len() == st.delays.len(),
        st.dropped.len() == st.delays.len(),
        forall|j: int| 0 <= j < st.dropped.len() ==> !#[trigger] st.dropped[j],
        st.delays.len() <= usize::MAX,
        0 <= i < st.delays.len(),
    ensures
        run_calls(st, calls).dropped[i] <==> exists|k: int|
            0 <= k < calls.len() && #[trigger] calls[k] == SyncCall::Drop(i as usize),
    decreases calls.len(),
{
    if calls.len() > 0 {
        let front = calls.drop_last();
        law_dropped_history(st, front, i);
        lemma_run_shape(st, front);
        let prev = run_calls(st, front);
        match calls.last() {
            SyncCall::Input(p, d) => {
                if p < prev.delays.len() && !prev.dropped[p as int] {
                    lemma_drain_shape(add_input_spec(prev, p as int, d));
                }
            },
            SyncCall::Drop(p) => {
                if p < prev.dropped.len() {
                    lemma_drain_shape(with_dropped(prev, p as int));
                    assert(SyncSpec { dropped: prev.dropped.update(p as int, true), ..prev } == with_dropped(
                        prev,
                        p as int,
                    ));
                }
            },
        }
        assert(calls[calls.len() - 1] == calls.last());
        if exists|k: int| 0 <= k < front.len() && #[trigger] front[k] == SyncCall::Drop(i as usize) {
            let k = choose|k: int| 0 <= k < front.len() && #[trigger] front[k] == SyncCall::Drop(i as usize);
            assert(calls[k] == front[k]);
        }
        if calls.last() == SyncCall::Drop(i as usize) {
            assert((i as usize) as int == i);
            assert(run_calls(st, calls) == mark_dropped_spec(prev, i as usize).0);
            assert(run_calls(st, calls).dropped[i]);
        } else {
            assert(run_calls(st, calls).dropped[i] == prev.dropped[i]);
        }
        if exists|k: int| 0 <= k < calls.len() && #[trigger] calls[k] == SyncCall::Drop(i as usize) {
            let k = choose|k: int| 0 <= k < calls.len() && #[trigger] calls[k] == SyncCall::Drop(i as usize);
            if k < front.len() {
                assert(front[k] == calls[k]);
            }
        }
    }
}

/// Whether `delay * count` is representable for every delay.
pub open spec fn delays_ok(delays: Seq<usize>) -> bool {
    forall|p: int| 0 <= p < delays.len() ==> #[trigger] delays[p] * delays.len() <= usize::MAX
}

/// Whether a bundle would be ready were player `extra` to gain a chunk and
/// player `drop` to be marked dropped.
pub open spec fn ready_if(st: SyncSpec, extra: Option<usize>, drop: Option<usize>) -> bool {
    &&& forall|i: int|
        0 <= i < st.delays.len() ==> (#[trigger] st.inputs[i]).len() > 0 || (extra matches Some(e)
            && e == i) || st.dropped[i] || (drop matches Some(d) && d == i)
    &&& exists|i: int|
        0 <= i < st.delays.len() && ((#[trigger] st.inputs[i]).len() > 0 || (extra matches Some(e)
            && e == i))
}

/// Whether an input of `len` bytes from `pid` adds chunks to its queue.
pub open spec fn adds_chunks(st: SyncSpec, pid: int, len: nat) -> bool {
    let delay = st.delays[pid];
    delay > 0 && len > 0 && len / (delay as nat) > 0
}

proof fn lemma_chunks_nonempty(d: Seq<u8>, size: nat)
    requires
        d.len() > 0,
        size > 0,
    ensures
        chunks_spec(d, size).len() > 0,
{
}

pub proof fn lemma_ready_after_input(st: SyncSpec, pid: usize, input: Seq<u8>)
    requires
        sync_wf(st),
        pid < st.delays.len(),
        input.len() <= usize::MAX,
    ensures
        bundle_ready(add_input_spec(st, pid as int, input)) == ready_if(
            st,
            if adds_chunks(st, pid as int, input.len()) {
                Some(pid)
            } else {
                None
            },
            None,
        ),
{
    let st2 = add_input_spec(st, pid as int, input);
    let extra = if adds_chunks(st, pid as int, input.len()) {
        Some(pid)
    } else {
        None
    };
    if adds_chunks(st, pid as int, input.len()) {
        let d = st.delays[pid as int];
        assert(input.len() / (d as nat) <= input.len()) by (nonlinear_arith)
            requires
                d >= 1,
        ;
        let cs = (input.len() / (d as nat)) as usize;
        lemma_chunks_nonempty(input, cs as nat);
        assert(st2.inputs[pid as int].len() > 0);
    }
    assert forall|i: int| 0 <= i < st.delays.len() implies (st2.inputs[i].len() > 0 <==> ((
    #[trigger] st.inputs[i]).len() > 0 || (extra matches Some(e) && e == i))) && st2.dropped[i]
        == st.dropped[i] by {
        if i != pid {
            assert(st2.inputs[i] == st.inputs[i]);
        }
    }
    if bundle_ready(st2) {
        let w = choose|i: int| 0 <= i < st2.delays.len() && st2.inputs[i].len() > 0;
        assert(0 <= w < st.delays.len() && ((st.inputs[w]).len() > 0 || (extra matches Some(e) && e
            == w)));
    }
    if ready_if(st, extra, None) {
        let w = choose|i: int|
            0 <= i < st.delays.len() && ((#[trigger] st.inputs[i]).len() > 0 || (extra matches Some(
                e,
            ) && e == i));
        assert(st2.inputs[w].len() > 0);
    }
}

pub proof fn lemma_ready_after_drop(st: SyncSpec, pid: usize)
    requires
        sync_wf(st),
        pid < st.delays.len(),
    ensures
        bundle_ready(with_dropped(st, pid as int)) == ready_if(st, None, Some(pid)),
{
    let st2 = with_dropped(st, pid as int);
    assert forall|i: int| 0 <= i < st.delays.len() implies (st2.dropped[i] <==> (st.dropped[i] || i
        == pid)) && st2.inputs[i] == (#[trigger] st.inputs[i]) by {}
    if bundle_ready(st2) {
        let w = choose|i: int| 0 <= i < st2.delays.len() && st2.inputs[i].len() > 0;
        assert(st.inputs[w].len() > 0);
    }
    if ready_if(st, None, Some(pid)) {
        let w = choose|i: int|
            0 <= i < st.delays.len() && ((#[trigger] st.inputs[i]).len() > 0 || (None::<usize> matches Some(e)
                && e == i));
        assert(st2.inputs[w].len() > 0);
    }
}

#[derive(Debug, Clone)]
pub struct SimplestGameSync {
    player_input: Vec<VecDeque<Vec<u8>>>,
    sender_buffer: Vec<VecDeque<Vec<u8>>>,
    player_delays: Vec<usize>,
    dropped_players: Vec<bool>,
    game_data_size: usize,
}

impl View for SimplestGameSync {
    type V = SyncSpec;

    closed spec fn view(&self) -> SyncSpec {
        SyncSpec {
            inputs: queues_view(self.player_input@),
            senders: queues_view(self.sender_buffer@),
            delays: self.player_delays@,
            dropped: self.dropped_players@,
            game_data_size: self.game_data_size,
        }
    }
}

pub proof fn lemma_flush_upto(senders: Seq<Seq<Seq<u8>>>, delays: Seq<usize>, k: int)
    requires
        0 <= k <= senders.len(),
        delays.len() == senders.len(),
    ensures
        flush_upto(senders, delays, k).0.len() == senders.len(),
        forall|p: int|
            k <= p < senders.len() ==> #[trigger] flush_upto(senders, delays, k).0[p] == senders[p],
        forall|p: int|
            0 <= p < k ==> #[trigger] flush_upto(senders, delays, k).0[p] == if senders[p].len()
                >= delays[p] * senders.len() {
                senders[p].skip(delays[p] * senders.len())
            } else {
                senders[p]
            },
    decreases k,
{
    if k > 0 {
        lemma_flush_upto(senders, delays, k - 1);
    }
}

proof fn lemma_mul_le(d: usize, n: int)
    requires
        1 <= d,
        0 <= n,
    ensures
        n <= d * n,
{
    assert(n <= d * n) by (nonlinear_arith)
        requires
            1 <= d,
            0 <= n,
    ;
}

pub proof fn lemma_bundle_step_wf(st: SyncSpec)
    requires
        sync_wf(st),
        delays_positive(st.delays),
    ensures
        sync_wf(bundle_step(st).0),
        bundle_step(st).0.delays == st.delays,
        bundle_step(st).0.dropped == st.dropped,
        bundle_step(st).0.game_data_size == st.game_data_size,
{
    let n = st.delays.len() as int;
    let items = bundle_items(st);
    let filled = Seq::new(st.delays.len(), |s: int| st.senders[s] + items);
    lemma_flush_upto(filled, st.delays, n);
    let next = bundle_step(st).0;
    assert forall|p: int| 0 <= p < n implies (#[trigger] next.senders[p]).len() < next.delays[p]
        * n by {
        lemma_mul_le(st.delays[p], n);
    }
}

pub proof fn lemma_drain_wf(st: SyncSpec)
    requires
        sync_wf(st),
        !stalls(st),
    ensures
        sync_wf(drain_spec(st).0),
        drain_spec(st).0.delays == st.delays,
        drain_spec(st).0.dropped == st.dropped,
        drain_spec(st).0.game_data_size == st.game_data_size,
    decreases total_len(st.inputs),
{
    if bundle_ready(st) {
        lemma_extract_shrinks(st);
        lemma_bundle_step_wf(st);
        lemma_drain_wf(bundle_step(st).0);
    }
}

/// `data` cut into pieces of `size` bytes, appended to `queue`.
fn push_chunks(queue: &mut VecDeque<Vec<u8>>, data: &Vec<u8>, size: usize)
    requires
        size > 0,
    ensures
        final(queue)@.map_values(|c: Vec<u8>| c@) == old(queue)@.map_values(|c: Vec<u8>| c@)
            + chunks_spec(data@, size as nat),
{
    let ghost start = old(queue)@.map_values(|c: Vec<u8>| c@);
    let len = data.len();
    let mut pos: usize = 0;
    assert(data@.skip(0) =~= data@);
    while pos < len
        invariant
            pos <= len,
            len == data@.len(),
            size > 0,
            start + chunks_spec(data@, size as nat) == queue@.map_values(|c: Vec<u8>| c@)
                + chunks_spec(data@.skip(pos as int), size as nat),
        decreases len - pos,
    {
        let ghost rest = data@.skip(pos as int);
        let end = if len - pos <= size {
            len
        } else {
            pos + size
        };
        let piece = copy_bytes(vstd::slice::slice_subrange(data.as_slice(), pos, end));
        let ghost before = queue@.map_values(|c: Vec<u8>| c@);
        queue.push_back(piece);
        assert(queue@.map_values(|c: Vec<u8>| c@) =~= before.push(data@.subrange(
            pos as int,
            end as int,
        )));
        if len - pos <= size {
            assert(rest =~= data@.subrange(pos as int, end as int));
            assert(data@.skip(end as int) =~= Seq::<u8>::empty());
        } else {
            assert(rest.take(size as int) =~= data@.subrange(pos as int, end as int));
            assert(rest.skip(size as int) =~= data@.skip(end as int));
        }
        assert(before.push(data@.subrange(pos as int, end as int)) + chunks_spec(
            data@.skip(end as int),
            size as nat,
        ) =~= before + chunks_spec(rest, size as nat));
        pos = end;
    }
    assert(data@.skip(len as int) =~= Seq::<u8>::empty());
    assert(queue@.map_values(|c: Vec<u8>| c@) + Seq::<Seq<u8>>::empty() =~= queue@.map_values(
        |c: Vec<u8>| c@,
    ));
}

impl SimplestGameSync {
    pub closed spec fn wf(&self) -> bool {
        sync_wf(self@)
    }

    pub fn new(player_delays: Vec<usize>) -> (s: Self)
        requires
            delays_ok(player_delays@),
        ensures
            s.wf(),
            s@.delays == player_delays@,
            s@.inputs == Seq::new(player_delays@.len(), |i: int| Seq::<Seq<u8>>::empty()),
            s@.senders == Seq::new(player_delays@.len(), |i: int| Seq::<Seq<u8>>::empty()),
            s@.dropped == Seq::new(player_delays@.len(), |i: int| false),
            s@.game_data_size == 0,
    {
        let player_count = player_delays.len();
        let mut player_input: Vec<VecDeque<Vec<u8>>> = Vec::new();
        let mut sender_buffer: Vec<VecDeque<Vec<u8>>> = Vec::new();
        let mut dropped_players: Vec<bool> = Vec::new();
        let mut i: usize = 0;
        while i < player_count
            invariant
                i <= player_count,
                player_input@.len() == i,
                sender_buffer@.len() == i,
                dropped_players@.len() == i,
                forall|j: int| 0 <= j < i ==> (#[trigger] player_input@[j])@.len() == 0,
                forall|j: int| 0 <= j < i ==> (#[trigger] sender_buffer@[j])@.len() == 0,
                forall|j: int| 0 <= j < i ==> !(#[trigger] dropped_players@[j]),
            decreases player_count - i,
        {
            player_input.push(VecDeque::new());
            sender_buffer.push(VecDeque::new());
            dropped_players.push(false);
            i = i + 1;
        }
        let s = Self {
            player_input,
            sender_buffer,
            player_delays,
            dropped_players,
            game_data_size: 0,
        };
        assert forall|j: int| 0 <= j < player_count implies #[trigger] s@.inputs[j] =~= Seq::<
            Seq<u8>,
        >::empty() by {
            assert(s.player_input@[j]@.len() == 0);
        }
        assert forall|j: int| 0 <= j < player_count implies #[trigger] s@.senders[j] =~= Seq::<
            Seq<u8>,
        >::empty() by {
            assert(s.sender_buffer@[j]@.len() == 0);
        }
        assert(s@.inputs =~= Seq::new(player_count as nat, |i: int| Seq::<Seq<u8>>::empty()));
        assert(s@.senders =~= Seq::new(player_count as nat, |i: int| Seq::<Seq<u8>>::empty()));
        assert(s@.dropped =~= Seq::new(player_count as nat, |i: int| false));
        proof {
            assert forall|p: int| 0 <= p < player_count && 1 <= #[trigger] s@.delays[p] implies s@.senders[p].len()
                < s@.delays[p] * player_count by {
                lemma_mul_le(s@.delays[p], player_count as int);
            }
        }
        s
    }

    pub fn process_client_input(&mut self, player_id: usize, input: Vec<u8>) -> (r: Result<
        Vec<PlayerOutput>,
        GameSyncError,
    >)
        requires
            old(self).wf(),
            player_id < old(self)@.delays.len() && !old(self)@.dropped[player_id as int] ==> !stalls(
                add_input_spec(old(self)@, player_id as int, input@),
            ),
        ensures
            final(self).wf(),
            final(self)@.delays == old(self)@.delays,
            (final(self)@, raw_result_view(r)) == process_spec(old(self)@, player_id, input@),
            r matches Ok(v) ==> forall|k: int|
                0 <= k < v@.len() ==> (#[trigger] v@[k]).player_id < old(self)@.delays.len(),
    {
        // Validate player_id
        if player_id >= self.player_input.len() {
            return Err(
                GameSyncError::InvalidPlayerId {
                    player_id,
                    player_count: self.player_input.len(),
                },
            );
        }
        // a dropped player's input is not processed

        if self.dropped_players[player_id] {
            let empty: Vec<PlayerOutput> = Vec::new();
            assert(raws_view(empty@) =~= Seq::<(usize, Seq<u8>)>::empty());
            return Ok(empty);
        }
        // the input is cut into `delay` chunks

        let delay = self.player_delays[player_id];
        let ghost st0 = self@;
        if delay > 0 && input.len() > 0 {
            let chunk_size = input.len() / delay;
            if chunk_size > 0 {
                // the first accepted input fixes the chunk size
                if self.game_data_size == 0 {
                    self.game_data_size = chunk_size;
                }
                let ghost q0 = self.player_input@;
                push_chunks(&mut self.player_input[player_id], &input, chunk_size);
                assert(queues_view(self.player_input@) =~= queues_view(q0).update(
                    player_id as int,
                    queues_view(q0)[player_id as int] + chunks_spec(input@, chunk_size as nat),
                ));
            }
        }
        assert(self@ == add_input_spec(st0, player_id as int, input@));
        // Drain ready inputs and collect outputs

        let results = self.drain_ready_inputs();
        assert forall|k: int| 0 <= k < results@.len() implies (#[trigger] results@[k]).player_id
            < old(self)@.delays.len() by {
            assert(raws_view(results@)[k].0 == results@[k].player_id);
        }
        Ok(results)
    }

    /// Whether every delay is at least 1.
    fn delays_all_positive(&self) -> (b: bool)
        ensures
            b == delays_positive(self@.delays),
    {
        let mut i: usize = 0;
        while i < self.player_delays.len()
            invariant
                i <= self.player_delays@.len(),
                forall|j: int| 0 <= j < i ==> 1 <= #[trigger] self.player_delays@[j],
            decreases self.player_delays@.len() - i,
        {
            if self.player_delays[i] == 0 {
                return false;
            }
            i = i + 1;
        }
        true
    }

    /// Whether a bundle would be ready were `extra` to gain a chunk and
    /// `drop` to be marked dropped.
    #[verifier::spinoff_prover]
    fn ready_with(&self, extra: Option<usize>, drop: Option<usize>) -> (b: bool)
        requires
            self.wf(),
        ensures
            b == ready_if(self@, extra, drop),
    {
        let n = self.player_input.len();
        let mut all_ready = true;
        let mut any_input = false;
        let mut i: usize = 0;
        while i < n
            invariant
                i <= n,
                n == self@.delays.len(),
                self.wf(),
                all_ready == forall|j: int|
                    0 <= j < i ==> (#[trigger] self@.inputs[j]).len() > 0 || (extra matches Some(e)
                        && e == j) || self@.dropped[j] || (drop matches Some(d) && d == j),
                any_input == exists|j: int|
                    0 <= j < i && ((#[trigger] self@.inputs[j]).len() > 0 || (extra matches Some(e)
                        && e == j)),
            decreases n - i,
        {
            assert(self@.inputs[i as int].len() == self.player_input@[i as int]@.len());
            let is_extra = match extra {
                Some(e) => e == i,
                None => false,
            };
            let is_drop = match drop {
                Some(d) => d == i,
                None => false,
            };
            let has = self.player_input[i].len() > 0 || is_extra;
            if !(has || self.dropped_players[i] || is_drop) {
                all_ready = false;
            }
            let ghost ii = i as int;
            if has {
                any_input = true;
                assert(0 <= ii < i + 1 && ((self@.inputs[ii]).len() > 0 || (extra matches Some(e) && e
                    == ii)));
            } else {
                assert(!((self@.inputs[ii]).len() > 0 || (extra matches Some(e) && e == ii)));
            }
            if !any_input {
                assert forall|j: int| 0 <= j < i + 1 implies !((#[trigger] self@.inputs[j]).len() > 0
                    || (extra matches Some(e) && e == j)) by {
                    if j < i {
                    } else {
                        assert(j == ii);
                    }
                }
            }
            i = i + 1;
        }
        all_ready && any_input
    }

    /// Whether input `input` from `player_id` would make draining never
    /// end.
    pub fn input_stalls(&self, player_id: usize, input: &Vec<u8>) -> (b: bool)
        requires
            self.wf(),
        ensures
            b == (player_id < self@.delays.len() && !self@.dropped[player_id as int] && stalls(
                add_input_spec(self@, player_id as int, input@),
            )),
    {
        if player_id >= self.player_input.len() || self.dropped_players[player_id] {
            return false;
        }
        let ilen = input.len();
        proof {
            lemma_ready_after_input(self@, player_id, input@);
        }
        let delay = self.player_delays[player_id];
        let adds = delay > 0 && input.len() > 0 && input.len() / delay > 0;
        let extra = if adds {
            Some(player_id)
        } else {
            None
        };
        !self.delays_all_positive() && self.ready_with(extra, None)
    }

    /// Whether dropping `player_id` would make draining never end.
    pub fn drop_stalls(&self, player_id: usize) -> (b: bool)
        requires
            self.wf(),
        ensures
            b == (player_id < self@.dropped.len() && stalls(with_dropped(self@, player_id as int))),
    {
        if player_id >= self.dropped_players.len() {
            return false;
        }
        proof {
            lemma_ready_after_drop(self@, player_id);
        }
        !self.delays_all_positive() && self.ready_with(None, Some(player_id))
    }

    /// Get player delays (for wrapper layer access)
    pub(crate) fn player_delays(&self) -> (d: &[usize])
        ensures
            d@ == self@.delays,
    {
        self.player_delays.as_slice()
    }

    /// Chunk size fixed by the first accepted input (0 before).
    pub fn game_data_size(&self) -> (n: usize)
        ensures
            n == self@.game_data_size,
    {
        self.game_data_size
    }

    /// Whether a bundle can be formed.
    fn bundle_ready_now(&self) -> (b: bool)
        requires
            self.wf(),
        ensures
            b == bundle_ready(self@),
    {
        let n = self.player_input.len();
        let mut all_ready = true;
        let mut has_any_input = false;
        let mut i: usize = 0;
        while i < n
            invariant
                i <= n,
                n == self@.delays.len(),
                self.wf(),
                all_ready == (forall|j: int|
                    0 <= j < i ==> self@.inputs[j].len() > 0 || self@.dropped[j]),
                has_any_input == (exists|j: int| 0 <= j < i && self@.inputs[j].len() > 0),
            decreases n - i,
        {
            assert(self@.inputs[i as int].len() == self.player_input@[i as int]@.len());
            if !(self.player_input[i].len() > 0) && !self.dropped_players[i] {
                all_ready = false;
            }
            if self.player_input[i].len() > 0 {
                has_any_input = true;
            }
            i = i + 1;
        }
        all_ready && has_any_input
    }

    /// Takes one chunk from each player (zeros for a dropped player with
    /// none queued).
    fn extract_bundle(&mut self) -> (items: Vec<Vec<u8>>)
        requires
            old(self).wf(),
            bundle_ready(old(self)@),
        ensures
            items@.map_values(|c: Vec<u8>| c@) == bundle_items(old(self)@),
            final(self)@ == (SyncSpec { inputs: after_extract(old(self)@), ..old(self)@ }),
    {
        let n = self.player_input.len();
        let ghost st0 = self@;
        let mut items: Vec<Vec<u8>> = Vec::new();
        let mut i: usize = 0;
        while i < n
            invariant
                i <= n,
                n == st0.delays.len(),
                sync_wf(st0),
                bundle_ready(st0),
                self.player_delays@ == st0.delays,
                self.dropped_players@ == st0.dropped,
                self.game_data_size == st0.game_data_size,
                self.sender_buffer@ == old(self).sender_buffer@,
                self.player_input@.len() == n,
                forall|j: int|
                    0 <= j < n ==> #[trigger] queues_view(self.player_input@)[j] == if j < i {
                        after_extract(st0)[j]
                    } else {
                        st0.inputs[j]
                    },
                items@.map_values(|c: Vec<u8>| c@) =~= bundle_items(st0).take(i as int),
            decreases n - i,
        {
            let ghost q_before = queues_view(self.player_input@);
            let ghost items_before = items@.map_values(|c: Vec<u8>| c@);
            assert(q_before[i as int] == st0.inputs[i as int]);
            assert(q_before[i as int] == self.player_input@[i as int]@.map_values(|c: Vec<u8>| c@));
            match self.player_input[i].pop_front() {
                Some(chunk) => {
                    assert(chunk@ == st0.inputs[i as int][0]);
                    items.push(chunk);
                    assert(items@.map_values(|c: Vec<u8>| c@) =~= items_before.push(
                        bundle_items(st0)[i as int],
                    ));
                },
                None => {
                    if self.dropped_players[i] {
                        items.push(vec![0u8; self.game_data_size]);
                        assert(items@.last()@ =~= zeros(st0.game_data_size));
                        assert(items@.map_values(|c: Vec<u8>| c@) =~= items_before.push(
                            bundle_items(st0)[i as int],
                        ));
                    }
                },
            }
            assert(bundle_items(st0).take(i + 1) =~= bundle_items(st0).take(i as int).push(
                bundle_items(st0)[i as int],
            ));
            assert forall|j: int| 0 <= j < n implies #[trigger] queues_view(self.player_input@)[j]
                == if j < i + 1 {
                after_extract(st0)[j]
            } else {
                st0.inputs[j]
            } by {
                if j == i {
                    assert(queues_view(self.player_input@)[j] =~= after_extract(st0)[j]);
                } else {
                    assert(queues_view(self.player_input@)[j] == q_before[j]);
                }
            }
            i = i + 1;
        }
        assert(bundle_items(st0).take(n as int) =~= bundle_items(st0));
        assert(queues_view(self.player_input@) =~= after_extract(st0));
        items
    }

    /// Appends the bundle to every player's send buffer, then lets each
    /// player with enough queued receive one output.
    fn distribute_and_flush(&mut self, items: &Vec<Vec<u8>>, results: &mut Vec<PlayerOutput>)
        requires
            sync_wf(SyncSpec { inputs: old(self)@.senders, ..old(self)@ }),
            delays_positive(old(self)@.delays),
            items@.len() == old(self)@.delays.len(),
        ensures
            ({
                let filled = Seq::new(
                    old(self)@.delays.len(),
                    |s: int| old(self)@.senders[s] + items@.map_values(|c: Vec<u8>| c@),
                );
                let fl = flush_upto(filled, old(self)@.delays, old(self)@.delays.len() as int);
                &&& final(self)@ == (SyncSpec { senders: fl.0, ..old(self)@ })
                &&& raws_view(final(results)@) == raws_view(old(results)@) + fl.1
            }),
    {
        let n = self.sender_buffer.len();
        let ghost st0 = self@;
        let ghost itv = items@.map_values(|c: Vec<u8>| c@);
        let ghost filled = Seq::new(st0.delays.len(), |s: int| st0.senders[s] + itv);
        // every send buffer receives the bundle
        let mut s: usize = 0;
        while s < n
            invariant
                s <= n,
                n == st0.delays.len(),
                filled.len() == n,
                forall|j: int| 0 <= j < n ==> #[trigger] filled[j] == st0.senders[j] + itv,
                items@.len() == n,
                itv == items@.map_values(|c: Vec<u8>| c@),
                self.player_input@ == old(self).player_input@,
                self.player_delays@ == st0.delays,
                self.dropped_players@ == st0.dropped,
                self.game_data_size == st0.game_data_size,
                self.sender_buffer@.len() == n,
                forall|j: int|
                    0 <= j < n ==> #[trigger] queues_view(self.sender_buffer@)[j] == if j < s {
                        filled[j]
                    } else {
                        st0.senders[j]
                    },
            decreases n - s,
        {
            let mut k: usize = 0;
            let ghost b0 = queues_view(self.sender_buffer@)[s as int];
            let ghost all_before = queues_view(self.sender_buffer@);
            while k < n
                invariant
                    k <= n,
                    s < n,
                    n == st0.delays.len(),
                    items@.len() == n,
                    itv == items@.map_values(|c: Vec<u8>| c@),
                    self.player_input@ == old(self).player_input@,
                    self.player_delays@ == st0.delays,
                    self.dropped_players@ == st0.dropped,
                    self.game_data_size == st0.game_data_size,
                    self.sender_buffer@.len() == n,
                    forall|j: int|
                        0 <= j < n && j != s ==> #[trigger] queues_view(self.sender_buffer@)[j]
                            == all_before[j],
                    queues_view(self.sender_buffer@)[s as int] =~= b0 + itv.take(k as int),
                decreases n - k,
            {
                let c = copy_bytes(items[k].as_slice());
                let ghost qb = queues_view(self.sender_buffer@);
                self.sender_buffer[s].push_back(c);
                assert(itv.take(k + 1) =~= itv.take(k as int).push(itv[k as int]));
                assert forall|j: int| 0 <= j < n && j != s implies #[trigger] queues_view(
                    self.sender_buffer@,
                )[j] == all_before[j] by {
                    assert(queues_view(self.sender_buffer@)[j] == qb[j]);
                }
                assert(queues_view(self.sender_buffer@)[s as int] =~= qb[s as int].push(
                    itv[k as int],
                ));
                k = k + 1;
            }
            assert(itv.take(n as int) =~= itv);
            assert forall|j: int| 0 <= j < n implies #[trigger] queues_view(self.sender_buffer@)[j]
                == if j < s + 1 {
                filled[j]
            } else {
                st0.senders[j]
            } by {
                if j == s {
                    assert(b0 == st0.senders[j]);
                    assert(filled[j] == st0.senders[j] + itv);
                    assert(queues_view(self.sender_buffer@)[j] =~= filled[j]);
                } else {
                    assert(queues_view(self.sender_buffer@)[j] == all_before[j]);
                }
            }
            s = s + 1;
        }
        assert(queues_view(self.sender_buffer@) =~= filled);
        // each player in turn receives an output when enough is queued
        let ghost res0 = raws_view(results@);
        let mut pid: usize = 0;
        while pid < n
            invariant
                pid <= n,
                n == st0.delays.len(),
                sync_wf(SyncSpec { inputs: st0.senders, ..st0 }),
                delays_positive(st0.delays),
                self.player_input@ == old(self).player_input@,
                self.player_delays@ == st0.delays,
                self.dropped_players@ == st0.dropped,
                self.game_data_size == st0.game_data_size,
                self.sender_buffer@.len() == n,
                filled.len() == n,
                forall|j: int| 0 <= j < n ==> #[trigger] filled[j] == st0.senders[j] + itv,
                itv.len() == n,
                queues_view(self.sender_buffer@) == flush_upto(filled, st0.delays, pid as int).0,
                raws_view(results@) == res0 + flush_upto(filled, st0.delays, pid as int).1,
            decreases n - pid,
        {
            proof {
                lemma_flush_upto(filled, st0.delays, pid as int);
                lemma_mul_le(st0.delays[pid as int], n as int);
            }
            let require_len = self.player_delays[pid] * n;
            let ghost buf0 = filled[pid as int];
            let ghost before_all = queues_view(self.sender_buffer@);
            let ghost res_before = raws_view(results@);
            let mut drained = false;
            while self.sender_buffer[pid].len() >= require_len
                invariant
                    pid < n,
                    n == st0.delays.len(),
                    require_len == st0.delays[pid as int] * n,
                    n <= require_len,
                    buf0.len() < require_len + n,
                    self.player_input@ == old(self).player_input@,
                    self.player_delays@ == st0.delays,
                    self.dropped_players@ == st0.dropped,
                    self.game_data_size == st0.game_data_size,
                    self.sender_buffer@.len() == n,
                    forall|j: int|
                        0 <= j < n && j != pid ==> #[trigger] queues_view(self.sender_buffer@)[j]
                            == before_all[j],
                    !drained ==> queues_view(self.sender_buffer@)[pid as int] == buf0
                        && raws_view(results@) == res_before,
                    drained ==> buf0.len() >= require_len && queues_view(
                        self.sender_buffer@,
                    )[pid as int] == buf0.skip(require_len as int) && raws_view(results@)
                        == res_before.push((pid, buf0.take(require_len as int).flatten())),
                decreases queues_view(self.sender_buffer@)[pid as int].len(),
            {
                let ghost qb = queues_view(self.sender_buffer@);
                let mut output: Vec<u8> = Vec::new();
                let mut t: usize = 0;
                while t < require_len
                    invariant
                        t <= require_len,
                        pid < n,
                        !drained,
                        require_len <= qb[pid as int].len(),
                        qb[pid as int] == buf0,
                        self.player_input@ == old(self).player_input@,
                        self.player_delays@ == st0.delays,
                        self.dropped_players@ == st0.dropped,
                        self.game_data_size == st0.game_data_size,
                        self.sender_buffer@.len() == n,
                        forall|j: int|
                            0 <= j < n && j != pid ==> #[trigger] queues_view(
                                self.sender_buffer@,
                            )[j] == qb[j],
                        queues_view(self.sender_buffer@)[pid as int] == buf0.skip(t as int),
                        output@ == buf0.take(t as int).flatten(),
                    decreases require_len - t,
                {
                    let ghost qq = queues_view(self.sender_buffer@);
                    let ghost raw_q = self.sender_buffer@[pid as int]@;
                    assert(qq[pid as int] == raw_q.map_values(|c: Vec<u8>| c@));
                    assert(buf0.skip(t as int)[0] == buf0[t as int]);
                    assert(raw_q[0]@ == buf0[t as int]);
                    let chunk = self.sender_buffer[pid].pop_front();
                    match chunk {
                        Some(c) => {
                            let ghost cv = c@;
                            assert(cv == buf0[t as int]);
                            let mut ci: usize = 0;
                            let ghost out0 = output@;
                            while ci < c.len()
                                invariant
                                    ci <= c@.len(),
                                    output@ == out0 + c@.take(ci as int),
                                decreases c@.len() - ci,
                            {
                                output.push(c[ci]);
                                ci = ci + 1;
                                assert(output@ =~= out0 + c@.take(ci as int));
                            }
                            assert(c@.take(c@.len() as int) =~= c@);
                            assert(buf0.take(t + 1) =~= buf0.take(t as int).push(cv));
                            assert(buf0.take(t + 1).flatten() =~= buf0.take(t as int).flatten()
                                + cv) by {
                                buf0.take(t as int).lemma_flatten_push(cv);
                            }
                        },
                        None => {
                            assert(false);
                        },
                    }
                    assert(self.sender_buffer@[pid as int]@ =~= raw_q.drop_first());
                    assert(queues_view(self.sender_buffer@)[pid as int] =~= raw_q.drop_first().map_values(
                        |c: Vec<u8>| c@,
                    ));
                    assert forall|x: int|
                        0 <= x < raw_q.len() - 1 implies #[trigger] raw_q.drop_first()[x]@ == buf0.skip(
                        t + 1,
                    )[x] by {
                        assert(raw_q.drop_first()[x] == raw_q[x + 1]);
                        assert(raw_q.map_values(|c: Vec<u8>| c@)[x + 1] == raw_q[x + 1]@);
                        assert(buf0.skip(t as int)[x + 1] == buf0.skip(t + 1)[x]);
                    }
                    assert(queues_view(self.sender_buffer@)[pid as int] =~= buf0.skip(t + 1));
                    assert forall|j: int| 0 <= j < n && j != pid implies #[trigger] queues_view(
                        self.sender_buffer@,
                    )[j] == qb[j] by {
                        assert(queues_view(self.sender_buffer@)[j] == qq[j]);
                    }
                    t = t + 1;
                }
                results.push(RawOutput { player_id: pid, output });
                assert(raws_view(results@) =~= res_before.push(
                    (pid, buf0.take(require_len as int).flatten()),
                ));
                drained = true;
            }
            proof {
                lemma_flush_upto(filled, st0.delays, pid + 1);
                assert(flush_upto(filled, st0.delays, pid + 1).0 =~= queues_view(
                    self.sender_buffer@,
                ));
            }
            pid = pid + 1;
        }
        proof {
            assert(self@ == (SyncSpec {
                senders: flush_upto(filled, st0.delays, n as int).0,
                ..st0
            }));
        }
    }

    /// Drain ready inputs (all players have input or are dropped) and process them
    /// This can be called without new input to check if drop events allow sending data
    pub fn drain_ready_inputs(&mut self) -> (results: Vec<PlayerOutput>)
        requires
            old(self).wf(),
            !stalls(old(self)@),
        ensures
            final(self).wf(),
            final(self)@.delays == old(self)@.delays,
            (final(self)@, raws_view(results@)) == drain_spec(old(self)@),
            forall|k: int|
                0 <= k < results@.len() ==> (#[trigger] results@[k]).player_id < old(self)@.delays.len(),
    {
        let mut results: Vec<PlayerOutput> = Vec::new();
        let ghost st0 = self@;
        assert(raws_view(results@) =~= Seq::<(usize, Seq<u8>)>::empty());
        loop
            invariant
                st0 == old(self)@,
                sync_wf(st0),
                !stalls(st0),
                self.wf(),
                self@.delays == st0.delays,
                delays_positive(st0.delays) || self@ == st0,
                drain_spec(st0) == (drain_spec(self@).0, raws_view(results@) + drain_spec(
                    self@,
                ).1),
            decreases total_len(self@.inputs),
        {
            // every player has input or has dropped, and some input is queued
            if !self.bundle_ready_now() {
                assert(drain_spec(self@) == (self@, Seq::<(usize, Seq<u8>)>::empty()));
                assert(raws_view(results@) + Seq::<(usize, Seq<u8>)>::empty() =~= raws_view(
                    results@,
                ));
                assert(drain_spec(st0).1 =~= raws_view(results@));
                assert(drain_spec(st0).0 == self@);
                assert((self@, raws_view(results@)) == drain_spec(st0));
                proof {
                    lemma_drain_wf(st0);
                    lemma_drain_pids(st0);
                    assert forall|k: int| 0 <= k < results@.len() implies (#[trigger] results@[k]).player_id
                        < st0.delays.len() by {
                        assert(raws_view(results@)[k].0 == results@[k].player_id);
                    }
                }
                return results;
            }
            let ghost cur = self@;
            proof {
                lemma_extract_shrinks(cur);
                lemma_bundle_step_wf(cur);
            }
            let items = self.extract_bundle();
            assert(items@.len() == items@.map_values(|c: Vec<u8>| c@).len());
            let ghost res_before = raws_view(results@);
            self.distribute_and_flush(&items, &mut results);
            proof {
                assert(self@ == bundle_step(cur).0);
                assert(raws_view(results@) == res_before + bundle_step(cur).1);
                assert(drain_spec(cur) == (drain_spec(self@).0, bundle_step(cur).1 + drain_spec(
                    self@,
                ).1));
                assert(res_before + (bundle_step(cur).1 + drain_spec(self@).1) =~= raws_view(
                    results@,
                ) + drain_spec(self@).1);
            }
        }
    }

    /// Mark a player as dropped and drain any ready inputs
    /// Returns any outputs that can now be sent due to the drop
    pub fn mark_player_dropped(&mut self, player_id: usize) -> (r: Result<
        Vec<PlayerOutput>,
        GameSyncError,
    >)
        requires
            old(self).wf(),
            player_id < old(self)@.dropped.len() ==> !stalls(with_dropped(old(self)@, player_id as int)),
        ensures
            final(self).wf(),
            final(self)@.delays == old(self)@.delays,
            (final(self)@, raw_result_view(r)) == mark_dropped_spec(old(self)@, player_id),
            old(self)@.dropped.len() == old(self)@.delays.len(),
            r is Err <==> player_id >= old(self)@.delays.len(),
            r matches Ok(v) ==> forall|k: int|
                0 <= k < v@.len() ==> (#[trigger] v@[k]).player_id < old(self)@.delays.len(),
    {
        if player_id >= self.dropped_players.len() {
            return Err(
                GameSyncError::InvalidPlayerId {
                    player_id,
                    player_count: self.dropped_players.len(),
                },
            );
        }
        self.dropped_players.set(player_id, true);
        Ok(self.drain_ready_inputs())
    }

    /// Check if a player is dropped
    pub fn is_player_dropped(&self, player_id: usize) -> (b: bool)
        requires
            self.wf(),
        ensures
            b == ((player_id as int) < self@.dropped.len() && self@.dropped[player_id as int]),
            self@.dropped.len() == self@.delays.len(),
    {
        player_id < self.dropped_players.len() && self.dropped_players[player_id]
    }

    /// Check if all players are dropped
    pub fn all_players_dropped(&self) -> (b: bool)
        ensures
            b == (forall|i: int| 0 <= i < self@.dropped.len() ==> self@.dropped[i]),
            self.wf() ==> self@.dropped.len() == self@.delays.len(),
    {
        let mut i: usize = 0;
        while i < self.dropped_players.len()
            invariant
                i <= self.dropped_players@.len(),
                forall|j: int| 0 <= j < i ==> self.dropped_players@[j],
            decreases self.dropped_players@.len() - i,
        {
            if !self.dropped_players[i] {
                assert(!self@.dropped[i as int]);
                return false;
            }
            i = i + 1;
        }
        true
    }
}


pub proof fn lemma_flush_pids(senders: Seq<Seq<Seq<u8>>>, delays: Seq<usize>, k: int)
    ensures
        forall|j: int|
            0 <= j < flush_upto(senders, delays, k).1.len() ==> (#[trigger] flush_upto(
                senders,
                delays,
                k,
            ).1[j]).0 < k,
    decreases k,
{
    if k > 0 {
        lemma_flush_pids(senders, delays, k - 1);
        let prev = flush_upto(senders, delays, k - 1);
        assert forall|j: int| 0 <= j < flush_upto(senders, delays, k).1.len() implies (#[trigger] flush_upto(
            senders,
            delays,
            k,
        ).1[j]).0 < k by {
            if j < prev.1.len() {
                assert(flush_upto(senders, delays, k).1[j] == prev.1[j]);
            }
        }
    }
}

/// Every output of a drain is addressed to an existing player.
pub proof fn lemma_drain_pids(st: SyncSpec)
    requires
        sync_wf(st),
        !stalls(st),
    ensures
        forall|j: int|
            0 <= j < drain_spec(st).1.len() ==> (#[trigger] drain_spec(st).1[j]).0
                < st.delays.len(),
    decreases total_len(st.inputs),
{
    if bundle_ready(st) {
        lemma_extract_shrinks(st);
        lemma_bundle_step_wf(st);
        let step = bundle_step(st);
        lemma_drain_pids(step.0);
        let items = bundle_items(st);
        let filled = Seq::new(st.delays.len(), |s: int| st.senders[s] + items);
        lemma_flush_pids(filled, st.delays, st.delays.len() as int);
        assert forall|j: int| 0 <= j < drain_spec(st).1.len() implies (#[trigger] drain_spec(
            st,
        ).1[j]).0 < st.delays.len() by {
            if j >= step.1.len() {
                assert(drain_spec(st).1[j] == drain_spec(step.0).1[j - step.1.len()]);
            }
        }
    }
}

/// Mathematical state of the engine with its caches.
pub struct CachedSpec {
    pub sync: SyncSpec,
    /// What each player's client has cached of its own inputs.
    pub input_caches: Seq<Seq<Seq<u8>>>,
    /// What each player has received, as its client caches it.
    pub output_caches: Seq<Seq<Seq<u8>>>,
}

pub open spec fn cached_result_view(r: Result<Vec<CachedPlayerOutput>, GameSyncError>) -> Result<
    Seq<(usize, ResponseSpec)>,
    GameSyncError,
> {
    match r {
        Ok(v) => Ok(responses_view(v@)),
        Err(e) => Err(e),
    }
}

/// Raw outputs answered from the output caches.
pub open spec fn cache_outputs_spec(
    st: CachedSpec,
    sync: SyncSpec,
    raw: Result<Seq<(usize, Seq<u8>)>, GameSyncError>,
) -> (CachedSpec, Result<Seq<(usize, ResponseSpec)>, GameSyncError>) {
    match raw {
        Ok(raws) => {
            let f = respond_fold(st.output_caches, raws);
            (CachedSpec { sync, output_caches: f.0, ..st }, Ok(f.1))
        },
        Err(e) => (CachedSpec { sync, ..st }, Err(e)),
    }
}

/// Input from `pid`: refused for a player that does not exist or for a
/// cache position the client cache does not hold; otherwise resolved
/// through the client cache, processed, and every output answered from its
/// player's output cache.
pub open spec fn cached_process_spec(st: CachedSpec, pid: usize, input: InputSpec) -> (
    CachedSpec,
    Result<Seq<(usize, ResponseSpec)>, GameSyncError>,
) {
    let n = st.sync.delays.len();
    if pid >= n {
        (st, Err(GameSyncError::InvalidPlayerId { player_id: pid, player_count: n as usize }))
    } else if !input_resolvable(st.input_caches[pid as int], input) {
        (
            st,
            Err(
                GameSyncError::CachePositionNotFound {
                    player_id: pid,
                    position: match input {
                        InputSpec::Cache(pos) => pos,
                        InputSpec::Data(_) => 0,
                    },
                },
            ),
        )
    } else {
        let resolved = resolve_input_spec(st.input_caches[pid as int], input);
        let p = process_spec(st.sync, pid, resolved.1);
        cache_outputs_spec(
            CachedSpec { input_caches: st.input_caches.update(pid as int, resolved.0), ..st },
            p.0,
            p.1,
        )
    }
}

/// The cached engine's outputs are the raw engine's: input from an existing
/// player with a resolvable cache reference is first resolved through (and,
/// as Game Data, stored in) the player's input cache; the raw engine then
/// processes the resolved bytes, and every raw output `(q, data)` in order
/// is answered from `q`'s output cache as it stands after the outputs before
/// it (Game Cache of the newest slot holding `data`, else Game Data, which
/// the cache then stores; see `law_respond_cache_rule`).
pub proof fn law_cached_outputs(st: CachedSpec, pid: usize, input: InputSpec, k: int)
    requires
        pid < st.sync.delays.len(),
        input_resolvable(st.input_caches[pid as int], input),
        ({
            let raw = process_spec(st.sync, pid, resolve_input_spec(st.input_caches[pid as int], input).1).1;
            raw matches Ok(raws) && 0 <= k < raws.len()
        }),
    ensures
        ({
            let resolved = resolve_input_spec(st.input_caches[pid as int], input);
            let raws = process_spec(st.sync, pid, resolved.1).1->Ok_0;
            let c = cached_process_spec(st, pid, input);
            &&& c.0.input_caches == st.input_caches.update(pid as int, resolved.0)
            &&& c.0.sync == process_spec(st.sync, pid, resolved.1).0
            &&& c.1 matches Ok(rs) && rs.len() == raws.len() && rs[k] == (
                raws[k].0,
                respond_spec(respond_fold(st.output_caches, raws.take(k)).0[raws[k].0 as int], raws[k].1).1,
            )
        }),
{
    let resolved = resolve_input_spec(st.input_caches[pid as int], input);
    let raws = process_spec(st.sync, pid, resolved.1).1->Ok_0;
    crate::sync_core::law_respond_fold_each(st.output_caches, raws, k);
}

/// Whether input `input` from `pid` would make draining never end.
pub open spec fn input_stalls(st: CachedSpec, pid: usize, input: InputSpec) -> bool {
    &&& pid < st.sync.delays.len()
    &&& input_resolvable(st.input_caches[pid as int], input)
    &&& !st.sync.dropped[pid as int]
    &&& stalls(
        add_input_spec(st.sync, pid as int, resolve_input_spec(st.input_caches[pid as int], input).1),
    )
}

/// Whether dropping `pid` would make draining never end.
pub open spec fn drop_stalls(st: CachedSpec, pid: usize) -> bool {
    pid < st.sync.dropped.len() && stalls(with_dropped(st.sync, pid as int))
}

/// A player drops; the outputs that the drop lets through are answered from
/// the output caches.
pub open spec fn cached_mark_dropped_spec(st: CachedSpec, pid: usize) -> (
    CachedSpec,
    Result<Seq<(usize, ResponseSpec)>, GameSyncError>,
) {
    let m = mark_dropped_spec(st.sync, pid);
    cache_outputs_spec(st, m.0, m.1)
}

/// Wrapper layer that adds GameCache support to SimplestGameSync
#[derive(Debug, Clone)]
pub struct CachedGameSync {
    /// Core sync engine without cache
    pub sync: SimplestGameSync,
    /// Per-player input caches (client-side cache)
    input_caches: Vec<InputCache>,
    /// Per-player output caches (server-side cache)
    output_caches: Vec<InputCache>,
}

impl View for CachedGameSync {
    type V = CachedSpec;

    closed spec fn view(&self) -> CachedSpec {
        CachedSpec {
            sync: self.sync@,
            input_caches: caches_view(self.input_caches@),
            output_caches: caches_view(self.output_caches@),
        }
    }
}

/// A list of `n` empty caches.
pub(crate) fn empty_caches(n: usize) -> (v: Vec<InputCache>)
    ensures
        v@.len() == n,
        caches_wf(v@),
        caches_view(v@) == Seq::new(n as nat, |i: int| Seq::<Seq<u8>>::empty()),
{
    let mut v: Vec<InputCache> = Vec::new();
    let mut i: usize = 0;
    while i < n
        invariant
            i <= n,
            v@.len() == i,
            caches_wf(v@),
            forall|j: int| 0 <= j < i ==> (#[trigger] v@[j])@ == Seq::<Seq<u8>>::empty(),
        decreases n - i,
    {
        v.push(InputCache::new());
        i = i + 1;
    }
    assert(caches_view(v@) =~= Seq::new(n as nat, |i: int| Seq::<Seq<u8>>::empty()));
    v
}

impl CachedGameSync {
    pub closed spec fn wf(&self) -> bool {
        &&& self.sync.wf()
        &&& self.input_caches@.len() == self.sync@.delays.len()
        &&& self.output_caches@.len() == self.sync@.delays.len()
        &&& caches_wf(self.input_caches@)
        &&& caches_wf(self.output_caches@)
    }

    /// Create a new cached game sync manager
    pub fn new(player_delays: Vec<usize>) -> (s: Self)
        requires
            delays_ok(player_delays@),
        ensures
            s.wf(),
            s@.sync.delays == player_delays@,
            s@.sync.inputs == Seq::new(player_delays@.len(), |i: int| Seq::<Seq<u8>>::empty()),
            s@.sync.senders == Seq::new(player_delays@.len(), |i: int| Seq::<Seq<u8>>::empty()),
            s@.sync.dropped == Seq::new(player_delays@.len(), |i: int| false),
            s@.sync.game_data_size == 0,
            s@.input_caches == Seq::new(player_delays@.len(), |i: int| Seq::<Seq<u8>>::empty()),
            s@.output_caches == Seq::new(player_delays@.len(), |i: int| Seq::<Seq<u8>>::empty()),
    {
        let player_count = player_delays.len();
        Self {
            sync: SimplestGameSync::new(player_delays),
            input_caches: empty_caches(player_count),
            output_caches: empty_caches(player_count),
        }
    }

    /// Process client input with cache support
    pub fn process_client_input(&mut self, player_id: usize, input: ClientInput) -> (r: Result<
        Vec<CachedPlayerOutput>,
        GameSyncError,
    >)
        requires
            old(self).wf(),
            !input_stalls(old(self)@, player_id, input@),
        ensures
            final(self).wf(),
            (final(self)@, cached_result_view(r)) == cached_process_spec(
                old(self)@,
                player_id,
                input@,
            ),
    {
        // Validate player_id
        let player_count = self.sync.player_delays().len();
        if player_id >= player_count {
            return Err(GameSyncError::InvalidPlayerId { player_id, player_count });
        }
        let ghost st0 = self@;
        let ghost inv = input@;
        // Resolve input data from cache if needed
        let input_data = match input {
            ClientInput::GameData(data) => {
                // Store in client's input cache
                let copy = copy_bytes(data.as_slice());
                let ghost ic0 = self.input_caches@;
                self.input_caches[player_id].push(copy);
                assert(caches_wf(self.input_caches@)) by {
                    assert forall|i: int| 0 <= i < self.input_caches@.len() implies #[trigger] self.input_caches@[i].wf() by {
                        if i != player_id {
                            assert(self.input_caches@[i] == ic0[i]);
                        }
                    }
                }
                data
            },
            ClientInput::GameCache(pos) => {
                match self.input_caches[player_id].get(pos) {
                    Some(d) => copy_bytes(d),
                    None => {
                        return Err(
                            GameSyncError::CachePositionNotFound { player_id, position: pos },
                        );
                    },
                }
            },
        };
        let ghost resolved = resolve_input_spec(st0.input_caches[player_id as int], inv);
        assert(caches_view(self.input_caches@) =~= st0.input_caches.update(
            player_id as int,
            resolved.0,
        ));
        assert(input_data@ == resolved.1);
        // Process with core sync engine
        let raw_outputs = match self.sync.process_client_input(player_id, input_data) {
            Ok(v) => v,
            Err(e) => {
                return Err(e);
            },
        };

        // Convert outputs to cached responses
        let results = respond_all(&mut self.output_caches, &raw_outputs);
        Ok(results)
    }

    /// Whether input `input` from `player_id` would make draining never
    /// end.
    pub fn input_would_stall(&self, player_id: usize, input: &ClientInput) -> (b: bool)
        requires
            self.wf(),
        ensures
            b == input_stalls(self@, player_id, input@),
    {
        if player_id >= self.input_caches.len() {
            return false;
        }
        match input {
            ClientInput::GameData(data) => self.sync.input_stalls(player_id, data),
            ClientInput::GameCache(pos) => {
                match self.input_caches[player_id].get(*pos) {
                    Some(d) => {
                        let bytes = copy_bytes(d);
                        self.sync.input_stalls(player_id, &bytes)
                    },
                    None => false,
                }
            },
        }
    }

    /// Whether dropping `player_id` would make draining never end.
    pub fn drop_would_stall(&self, player_id: usize) -> (b: bool)
        requires
            self.wf(),
        ensures
            b == drop_stalls(self@, player_id),
    {
        self.sync.drop_stalls(player_id)
    }

    /// Get player count
    pub fn player_count(&self) -> (n: usize)
        requires
            self.wf(),
        ensures
            n == self@.sync.delays.len(),
    {
        self.sync.player_delays().len()
    }

    /// Get player delay
    pub fn get_player_delay(&self, player_id: usize) -> (d: usize)
        requires
            self.wf(),
            player_id < self@.sync.delays.len(),
        ensures
            d == self@.sync.delays[player_id as int],
    {
        self.sync.player_delays()[player_id]
    }

    /// Mark a player as dropped and drain any ready inputs
    /// Returns any outputs that can now be sent due to the drop
    pub fn mark_player_dropped(&mut self, player_id: usize) -> (r: Result<
        Vec<CachedPlayerOutput>,
        GameSyncError,
    >)
        requires
            old(self).wf(),
            !drop_stalls(old(self)@, player_id),
        ensures
            final(self).wf(),
            (final(self)@, cached_result_view(r)) == cached_mark_dropped_spec(old(self)@, player_id),
            old(self)@.sync.dropped.len() == old(self)@.sync.delays.len(),
            r is Err <==> player_id >= old(self)@.sync.delays.len(),
    {
        let raw_outputs = match self.sync.mark_player_dropped(player_id) {
            Ok(v) => v,
            Err(e) => {
                return Err(e);
            },
        };

        // Convert outputs to cached responses
        let results = respond_all(&mut self.output_caches, &raw_outputs);
        Ok(results)
    }

    /// Check if all players are dropped
    pub fn all_players_dropped(&self) -> (b: bool)
        ensures
            b == (forall|i: int| 0 <= i < self@.sync.dropped.len() ==> self@.sync.dropped[i]),
            self.wf() ==> self@.sync.dropped.len() == self@.sync.delays.len(),
    {
        assert(self@.sync == self.sync@);
        self.sync.all_players_dropped()
    }

    /// Check if a player is dropped
    pub fn is_player_dropped(&self, player_id: usize) -> (b: bool)
        requires
            self.wf(),
        ensures
            b == ((player_id as int) < self@.sync.dropped.len()
                && self@.sync.dropped[player_id as int]),
            self@.sync.dropped.len() == self@.sync.delays.len(),
    {
        self.sync.is_player_dropped(player_id)
    }
}

} // verus!
