//! Synchronisation through master input queues: every player's 2-byte
//! frames wait in its master queue until every player has one; then they are
//! handed, frame by frame, to every player's send queue. A player with delay
//! `d` receives `2 * d` bytes of every player at a time, player after player.
//! A player whose delay exceeds the smallest starts with zero frames in its
//! master queue.
use std::collections::VecDeque;
use vstd::prelude::*;

pub use crate::sync_core::{ClientInput, ServerResponse};
pub use crate::sync_core::PlayerResponse as PlayerOutput;

use crate::simple_game_sync::{delays_ok, frames_of, lemma_min_delay, min_delay, padding_frames};
use crate::sync_core::{
    caches_view, caches_wf, compute_schedule, copy_bytes, count_occ, input_resolvable,
    law_respond_fold_each, respond_spec,
    lemma_count_occ_take, lemma_schedule_counts, raws_view, resolve_input_spec, respond_all,
    respond_fold, responses_view, schedule, InputCache, InputSpec, RawOutput, ResponseSpec,
    CACHE_SLOTS,
};

verus! {

/// Mathematical state of the manager.
pub struct GameSyncSpec {
    pub delays: Seq<usize>,
    /// Each player's client-side input cache.
    pub client_caches: Seq<Seq<Seq<u8>>>,
    /// master[q]: frames from player q not yet handed to the send queues.
    pub master: Seq<Seq<Seq<u8>>>,
    /// send[p][q]: bytes from player q waiting to be sent to player p.
    pub send: Seq<Seq<Seq<u8>>>,
    /// What each player has received, as its client caches it.
    pub out_caches: Seq<Seq<Seq<u8>>>,
}

/// The length of the shortest of the first `k` (k >= 1) master queues.
pub open spec fn shortest_queue(master: Seq<Seq<Seq<u8>>>, k: int) -> int
    decreases k,
{
    if k <= 1 {
        master[0].len() as int
    } else {
        let m = shortest_queue(master, k - 1);
        let x = master[k - 1].len() as int;
        if x < m {
            x
        } else {
            m
        }
    }
}

/// The first `k` frames of every master queue move to every send queue.
pub open spec fn hand_out_spec(st: GameSyncSpec, k: int) -> GameSyncSpec {
    let n = st.delays.len();
    GameSyncSpec {
        master: Seq::new(n, |q: int| st.master[q].skip(k)),
        send: Seq::new(
            n,
            |p: int| Seq::new(n, |q: int| st.send[p][q] + st.master[q].take(k).flatten()),
        ),
        ..st
    }
}

pub proof fn lemma_shortest_queue(master: Seq<Seq<Seq<u8>>>, k: int)
    requires
        1 <= k <= master.len(),
    ensures
        shortest_queue(master, k) >= 0,
        forall|q: int| 0 <= q < k ==> shortest_queue(master, k) <= #[trigger] master[q].len(),
    decreases k,
{
    if k > 1 {
        lemma_shortest_queue(master, k - 1);
    }
}

/// As many frames as every master queue holds are handed out.
pub open spec fn distribute_spec(st: GameSyncSpec) -> GameSyncSpec {
    hand_out_spec(st, shortest_queue(st.master, st.delays.len() as int))
}

/// One round of handing out: the front frame of every master queue goes to
/// every send queue.
pub open spec fn round_spec(st: GameSyncSpec) -> GameSyncSpec {
    let n = st.delays.len();
    GameSyncSpec {
        master: Seq::new(n, |q: int| st.master[q].drop_first()),
        send: Seq::new(n, |p: int| Seq::new(n, |q: int| st.send[p][q] + st.master[q][0])),
        ..st
    }
}

pub proof fn lemma_hand_out_step(st: GameSyncSpec, t: int)
    requires
        0 <= t,
        st.master.len() == st.delays.len(),
        st.send.len() == st.delays.len(),
        forall|p: int| 0 <= p < st.delays.len() ==> (#[trigger] st.send[p]).len() == st.delays.len(),
        forall|q: int| 0 <= q < st.delays.len() ==> t < (#[trigger] st.master[q]).len(),
    ensures
        round_spec(hand_out_spec(st, t)) == hand_out_spec(st, t + 1),
{
    let n = st.delays.len();
    let h = hand_out_spec(st, t);
    let a = round_spec(h);
    let b = hand_out_spec(st, t + 1);
    assert forall|q: int| 0 <= q < n implies #[trigger] a.master[q] =~= b.master[q] by {}
    assert forall|p: int| 0 <= p < n implies #[trigger] a.send[p] =~= b.send[p] by {
        assert forall|q: int| 0 <= q < n implies #[trigger] a.send[p][q] =~= b.send[p][q] by {
            let m = st.master[q];
            assert(m.take(t + 1) =~= m.take(t).push(m[t]));
            m.take(t).lemma_flatten_push(m[t]);
            assert(h.master[q][0] == m[t]);
        }
    }
    assert(a.master =~= b.master);
    assert(a.send =~= b.send);
}

/// min over the first `k` (k >= 1) buffers of `len / unit`.
pub open spec fn fill_ready(bufs: Seq<Seq<u8>>, unit: int, k: int) -> int
    decreases k,
{
    if k <= 1 {
        (bufs[0].len() as int) / unit
    } else {
        let m = fill_ready(bufs, unit, k - 1);
        let x = (bufs[k - 1].len() as int) / unit;
        if x < m {
            x
        } else {
            m
        }
    }
}

pub proof fn lemma_fill_ready(bufs: Seq<Seq<u8>>, unit: int, k: int)
    requires
        1 <= k <= bufs.len(),
        unit >= 1,
    ensures
        fill_ready(bufs, unit, k) >= 0,
        forall|q: int| 0 <= q < k ==> fill_ready(bufs, unit, k) * unit <= #[trigger] bufs[q].len(),
    decreases k,
{
    if k > 1 {
        lemma_fill_ready(bufs, unit, k - 1);
    }
    assert forall|q: int| 0 <= q < k implies fill_ready(bufs, unit, k) * unit <= #[trigger] bufs[q].len() by {
        let m = fill_ready(bufs, unit, k);
        let x = (bufs[q].len() as int) / unit;
        assert(x * unit <= bufs[q].len()) by (nonlinear_arith)
            requires
                x == (bufs[q].len() as int) / unit,
                unit >= 1,
        ;
        if q == k - 1 {
            assert(m <= x);
            assert(m * unit <= x * unit) by (nonlinear_arith)
                requires
                    m <= x,
                    unit >= 1,
            ;
        } else {
            let m1 = fill_ready(bufs, unit, k - 1);
            assert(m <= m1);
            assert(m1 * unit <= bufs[q].len());
            assert(m * unit <= m1 * unit) by (nonlinear_arith)
                requires
                    m <= m1,
                    unit >= 1,
            ;
        }
    }
}

/// How many outputs a send queue holds for a player with delay `d`.
pub open spec fn send_ready_count(bufs: Seq<Seq<u8>>, d: usize) -> int {
    fill_ready(bufs, 2 * d, bufs.len() as int)
}

/// Whether every buffer holds `2 * d` bytes.
pub open spec fn can_send_spec(bufs: Seq<Seq<u8>>, d: usize) -> bool {
    forall|q: int| 0 <= q < bufs.len() ==> 2 * d <= #[trigger] bufs[q].len()
}

/// One output for a player with delay `d`: the first `2 * d` bytes of each
/// buffer, buffer after buffer; they leave the buffers.
pub open spec fn combine_spec(bufs: Seq<Seq<u8>>, d: usize) -> (Seq<Seq<u8>>, Seq<u8>) {
    (
        Seq::new(bufs.len(), |q: int| bufs[q].skip(2 * d)),
        Seq::new(bufs.len(), |q: int| bufs[q].take(2 * d)).flatten(),
    )
}

/// The outputs taken, in schedule order, from the players' send queues.
pub open spec fn walk_spec(send: Seq<Seq<Seq<u8>>>, delays: Seq<usize>, sched: Seq<usize>) -> (
    Seq<Seq<Seq<u8>>>,
    Seq<(usize, Seq<u8>)>,
)
    decreases sched.len(),
{
    if sched.len() == 0 {
        (send, Seq::empty())
    } else {
        let prev = walk_spec(send, delays, sched.drop_last());
        let p = sched.last();
        let e = combine_spec(prev.0[p as int], delays[p as int]);
        (prev.0.update(p as int, e.0), prev.1.push((p, e.1)))
    }
}

/// The pending output counts.
pub open spec fn counts_spec(st: GameSyncSpec) -> Seq<usize> {
    Seq::new(st.delays.len(), |p: int| send_ready_count(st.send[p], st.delays[p]) as usize)
}

/// The same priority for every player: ready players are served in rounds,
/// in player order.
pub open spec fn equal_priorities(n: nat) -> Seq<usize> {
    Seq::new(n, |i: int| 0usize)
}

/// Every player that can be served is served, round after round; each
/// output answered from the player's output cache.
pub open spec fn send_all_spec(st: GameSyncSpec) -> (GameSyncSpec, Seq<(usize, ResponseSpec)>) {
    let sched = schedule(counts_spec(st), equal_priorities(st.delays.len()));
    let w = walk_spec(st.send, st.delays, sched);
    let f = respond_fold(st.out_caches, w.1);
    (GameSyncSpec { send: w.0, out_caches: f.0, ..st }, f.1)
}

/// Input from `pid`: resolved through the client cache, cut into frames that
/// join the player's master queue; then frames are handed out and every
/// ready output sent.
pub open spec fn process_spec(st: GameSyncSpec, pid: usize, input: InputSpec) -> (
    GameSyncSpec,
    Seq<(usize, ResponseSpec)>,
) {
    let r = resolve_input_spec(st.client_caches[pid as int], input);
    let st1 = GameSyncSpec {
        client_caches: st.client_caches.update(pid as int, r.0),
        master: st.master.update(pid as int, st.master[pid as int] + frames_of(r.1)),
        ..st
    };
    send_all_spec(distribute_spec(st1))
}

proof fn lemma_flatten_len(s: Seq<Seq<u8>>, l: nat)
    requires
        forall|i: int| 0 <= i < s.len() ==> (#[trigger] s[i]).len() == l,
    ensures
        s.flatten().len() == s.len() * l,
    decreases s.len(),
{
    if s.len() > 0 {
        lemma_flatten_len(s.drop_first(), l);
        assert(s.flatten() == s.first() + s.drop_first().flatten());
        assert(s.len() * l == l + (s.len() - 1) * l) by (nonlinear_arith);
    }
}

/// Walking a schedule that serves each player no more often than its
/// buffers allow: each output goes to the scheduled player and carries
/// `2 * delay` bytes from each of the `n` buffers.
proof fn lemma_walk(send: Seq<Seq<Seq<u8>>>, delays: Seq<usize>, sched: Seq<usize>)
    requires
        send.len() == delays.len(),
        send.len() <= usize::MAX,
        forall|p: int| 0 <= p < send.len() ==> (#[trigger] send[p]).len() == send.len(),
        forall|j: int| 0 <= j < sched.len() ==> (#[trigger] sched[j] as int) < send.len(),
        forall|p: int, q: int|
            0 <= p < send.len() && 0 <= q < send.len() ==> count_occ(sched, p as usize) * (2
                * delays[p]) <= (#[trigger] send[p][q]).len(),
    ensures
        walk_spec(send, delays, sched).0.len() == send.len(),
        walk_spec(send, delays, sched).1.len() == sched.len(),
        forall|p: int| 0 <= p < send.len() ==> (#[trigger] walk_spec(send, delays, sched).0[p]).len() == send.len(),
        forall|p: int, q: int|
            0 <= p < send.len() && 0 <= q < send.len() ==> (#[trigger] walk_spec(send, delays, sched).0[p][q]).len()
                == send[p][q].len() - count_occ(sched, p as usize) * (2 * delays[p]),
        forall|k: int|
            0 <= k < sched.len() ==> (#[trigger] walk_spec(send, delays, sched).1[k]).0 == sched[k]
                && walk_spec(send, delays, sched).1[k].1.len() == send.len() * (2 * delays[sched[k] as int]),
    decreases sched.len(),
{
    let n = send.len();
    if sched.len() > 0 {
        let s0 = sched.drop_last();
        assert forall|p: int, q: int| 0 <= p < n && 0 <= q < n implies count_occ(s0, p as usize) * (2
            * delays[p]) <= (#[trigger] send[p][q]).len() by {
            let c0 = count_occ(s0, p as usize);
            let c = count_occ(sched, p as usize);
            let u = 2 * delays[p];
            assert(c0 <= c);
            assert(c0 * u <= c * u) by (nonlinear_arith)
                requires
                    c0 <= c,
                    u >= 0,
            ;
        }
        lemma_walk(send, delays, s0);
        let prev = walk_spec(send, delays, s0);
        let p = sched.last();
        let u = 2 * delays[p as int];
        let e = combine_spec(prev.0[p as int], delays[p as int]);
        let w = walk_spec(send, delays, sched);
        assert(w == (prev.0.update(p as int, e.0), prev.1.push((p, e.1))));
        assert forall|q: int| 0 <= q < n implies (#[trigger] prev.0[p as int][q]).len() >= u by {
            let c0 = count_occ(s0, p);
            assert(count_occ(sched, p) == c0 + 1);
            assert((c0 + 1) * u == c0 * u + u) by (nonlinear_arith);
        }
        let pieces = Seq::new(n, |q: int| prev.0[p as int][q].take(u as int));
        lemma_flatten_len(pieces, u as nat);
        assert forall|pp: int, q: int| 0 <= pp < n && 0 <= q < n implies (#[trigger] w.0[pp][q]).len()
            == send[pp][q].len() - count_occ(sched, pp as usize) * (2 * delays[pp]) by {
            let c0 = count_occ(s0, pp as usize);
            assert(prev.0[pp][q].len() == send[pp][q].len() - c0 * (2 * delays[pp]));
            if pp == p {
                assert(count_occ(sched, pp as usize) == c0 + 1);
                assert(w.0[pp] == e.0);
                assert(w.0[pp][q] == prev.0[pp][q].skip(u as int));
                assert((c0 + 1) * u == c0 * u + u) by (nonlinear_arith);
            } else {
                assert((pp as usize) != p);
                assert(count_occ(sched, pp as usize) == c0);
                assert(w.0[pp] == prev.0[pp]);
            }
        }
        assert forall|k: int| 0 <= k < sched.len() implies (#[trigger] w.1[k]).0 == sched[k] && w.1[k].1.len()
            == n * (2 * delays[sched[k] as int]) by {
            if k < sched.len() - 1 {
                assert(w.1[k] == prev.1[k]);
                assert(sched[k] == s0[k]);
            }
        }
    } else {
        assert forall|p: int, q: int| 0 <= p < n && 0 <= q < n implies (#[trigger] walk_spec(
            send,
            delays,
            sched,
        ).0[p][q]).len() == send[p][q].len() - count_occ(sched, p as usize) * (2 * delays[p]) by {
            assert(count_occ(sched, p as usize) == 0);
            assert(0 * (2 * delays[p]) == 0);
        }
    }
}

/// The raw outputs of one send: the send queues walked in schedule order.
pub open spec fn send_raw(st: GameSyncSpec) -> Seq<(usize, Seq<u8>)> {
    walk_spec(st.send, st.delays, schedule(counts_spec(st), equal_priorities(st.delays.len()))).1
}

/// Every output the manager sends goes to an existing player and carries
/// `2 * delay` bytes of that player from each of the `n` players' buffers,
/// `n * 2 * delay` in all; it is answered from that player's output cache as
/// it stands after the outputs before it (see `law_respond_cache_rule`).
pub proof fn law_send_outputs(st: GameSyncSpec, k: int)
    requires
        st.delays.len() >= 1,
        st.send.len() == st.delays.len(),
        forall|p: int| 0 <= p < st.delays.len() ==> 1 <= #[trigger] st.delays[p],
        forall|p: int| 0 <= p < st.delays.len() ==> (#[trigger] st.send[p]).len() == st.delays.len(),
        forall|p: int, q: int|
            0 <= p < st.delays.len() && 0 <= q < st.delays.len() ==> (#[trigger] st.send[p][q]).len()
                <= usize::MAX,
        st.delays.len() <= usize::MAX,
        0 <= k < send_raw(st).len(),
    ensures
        send_all_spec(st).1.len() == send_raw(st).len(),
        (send_raw(st)[k].0 as int) < st.delays.len(),
        send_raw(st)[k].1.len() == st.delays.len() * (2 * st.delays[send_raw(st)[k].0 as int]),
        send_all_spec(st).1[k] == (
            send_raw(st)[k].0,
            respond_spec(
                respond_fold(st.out_caches, send_raw(st).take(k)).0[send_raw(st)[k].0 as int],
                send_raw(st)[k].1,
            ).1,
        ),
{
    let n = st.delays.len();
    let counts = counts_spec(st);
    let sched = schedule(counts, equal_priorities(n));
    lemma_schedule_counts(counts, equal_priorities(n));
    assert forall|p: int, q: int| 0 <= p < n && 0 <= q < n implies count_occ(sched, p as usize) * (2
        * st.delays[p]) <= (#[trigger] st.send[p][q]).len() by {
        let u = 2 * st.delays[p];
        lemma_fill_ready(st.send[p], u, n as int);
        let f = fill_ready(st.send[p], u, n as int);
        assert(f * u <= st.send[p][0].len());
        assert(f <= f * u) by (nonlinear_arith)
            requires
                f >= 0,
                u >= 1,
        ;
        assert(counts[p] == f as usize);
        assert(count_occ(sched, p as usize) == counts[p]);
    }
    lemma_walk(st.send, st.delays, sched);
    law_respond_fold_each(st.out_caches, send_raw(st), k);
}

/// What `process_client_input` accepts: an existing player, Game Data of
/// `delay * 2` bytes or a Game Cache position the client cache holds.
pub open spec fn input_ok(st: GameSyncSpec, pid: usize, input: InputSpec) -> bool {
    &&& (pid as int) < st.delays.len()
    &&& input_resolvable(st.client_caches[pid as int], input)
    &&& input matches InputSpec::Data(d) ==> d.len() == 2 * st.delays[pid as int]
}

/// The state right after creation: empty caches and send queues; every
/// player's master queue holds `delay - min_delay` zero frames.
pub open spec fn initial_spec(delays: Seq<usize>) -> GameSyncSpec {
    let n = delays.len();
    let m = min_delay(delays, n as int);
    GameSyncSpec {
        delays,
        client_caches: Seq::new(n, |i: int| Seq::<Seq<u8>>::empty()),
        master: Seq::new(n, |q: int| padding_frames(delays[q] - m)),
        send: Seq::new(n, |p: int| Seq::new(n, |q: int| Seq::<u8>::empty())),
        out_caches: Seq::new(n, |i: int| Seq::<Seq<u8>>::empty()),
    }
}

pub open spec fn frames_view(q: VecDeque<Vec<u8>>) -> Seq<Seq<u8>> {
    q@.map_values(|c: Vec<u8>| c@)
}

pub open spec fn bytes_view(v: Seq<VecDeque<u8>>) -> Seq<Seq<u8>> {
    v.map_values(|b: VecDeque<u8>| b@)
}

/// Master input queue for a single player
#[derive(Debug, Clone)]
struct MasterInputQueue {
    /// Queue of raw input data (2 bytes per frame)
    queue: VecDeque<Vec<u8>>,
    /// Client's individual input cache
    client_cache: InputCache,
    /// Expected input size for this player (delay * 2)
    expected_input_size: usize,
}

impl MasterInputQueue {
    fn new(delay: usize) -> (m: Self)
        requires
            delay * 2 <= usize::MAX,
        ensures
            m.client_cache.wf(),
            m.client_cache@ == Seq::<Seq<u8>>::empty(),
            frames_view(m.queue) == Seq::<Seq<u8>>::empty(),
            m.expected_input_size == delay * 2,
    {
        let m = Self {
            queue: VecDeque::new(),
            client_cache: InputCache::new(),
            expected_input_size: delay * 2,
        };
        assert(frames_view(m.queue) =~= Seq::<Seq<u8>>::empty());
        m
    }

    /// Add input to the master queue (splits multi-frame input into 2-byte chunks)
    fn push(&mut self, input: Vec<u8>)
        ensures
            frames_view(final(self).queue) == frames_view(old(self).queue) + frames_of(input@),
            final(self).client_cache == old(self).client_cache,
            final(self).expected_input_size == old(self).expected_input_size,
    {
        let ghost f0 = frames_view(self.queue);
        let mut i: usize = 0;
        let ghost mut k: int = 0;
        while i <= input.len() && input.len() - i >= 2
            invariant
                i == 2 * k,
                0 <= k,
                i <= input@.len(),
                self.client_cache == old(self).client_cache,
                self.expected_input_size == old(self).expected_input_size,
                frames_view(self.queue) =~= f0 + frames_of(input@).take(k),
            decreases input@.len() - i,
        {
            let mut frame: Vec<u8> = Vec::new();
            frame.push(input[i]);
            frame.push(input[i + 1]);
            let ghost fb = frames_view(self.queue);
            assert(frame@ =~= input@.subrange(i as int, i + 2));
            self.queue.push_back(frame);
            assert(frames_of(input@).take(k + 1) =~= frames_of(input@).take(k).push(
                input@.subrange(i as int, i + 2),
            ));
            assert(frames_view(self.queue) =~= fb.push(input@.subrange(i as int, i + 2)));
            i = i + 2;
            proof {
                k = k + 1;
            }
        }
        assert(k == input@.len() / 2);
        assert(frames_of(input@).take(k) =~= frames_of(input@));
    }

    /// Get the current size of the queue
    fn len(&self) -> (n: usize)
        ensures
            n == frames_view(self.queue).len(),
    {
        self.queue.len()
    }
}

/// Per-player send queue (independent transmission buffer)
#[derive(Debug, Clone)]
struct PlayerSendQueue {
    /// Buffers for each player's input data
    /// player_buffers[i] contains the input data from player i
    player_buffers: Vec<VecDeque<u8>>,
    /// Delay value for this player (1 = 1/60s, 2 = 2/60s, etc.)
    delay: usize,
    /// Bytes per frame (always 2 for standard input)
    bytes_per_frame: usize,
}

impl PlayerSendQueue {
    spec fn wf(&self) -> bool {
        &&& self.bytes_per_frame == 2
        &&& 1 <= self.delay
        &&& self.delay * 2 <= usize::MAX
    }

    fn new(player_count: usize, delay: usize) -> (s: Self)
        requires
            1 <= delay,
            delay * 2 <= usize::MAX,
        ensures
            s.wf(),
            s.delay == delay,
            s.player_buffers@.len() == player_count,
            bytes_view(s.player_buffers@) == Seq::new(player_count as nat, |i: int| Seq::<u8>::empty()),
    {
        let mut player_buffers: Vec<VecDeque<u8>> = Vec::new();
        let mut i: usize = 0;
        while i < player_count
            invariant
                i <= player_count,
                player_buffers@.len() == i,
                forall|j: int| 0 <= j < i ==> (#[trigger] player_buffers@[j])@.len() == 0,
            decreases player_count - i,
        {
            player_buffers.push(VecDeque::new());
            i = i + 1;
        }
        assert forall|j: int| 0 <= j < player_count implies #[trigger] bytes_view(player_buffers@)[j]
            =~= Seq::<u8>::empty() by {
            assert(player_buffers@[j]@.len() == 0);
        }
        assert(bytes_view(player_buffers@) =~= Seq::new(
            player_count as nat,
            |i: int| Seq::<u8>::empty(),
        ));
        Self { player_buffers, delay, bytes_per_frame: 2 }
    }

    /// Add input data from a specific player to this send queue
    fn push_input(&mut self, player_id: usize, data: &[u8])
        requires
            player_id < old(self).player_buffers@.len(),
        ensures
            final(self).delay == old(self).delay,
            final(self).bytes_per_frame == old(self).bytes_per_frame,
            final(self).player_buffers@.len() == old(self).player_buffers@.len(),
            bytes_view(final(self).player_buffers@) == bytes_view(old(self).player_buffers@).update(
                player_id as int,
                bytes_view(old(self).player_buffers@)[player_id as int] + data@,
            ),
    {
        let ghost b0 = bytes_view(self.player_buffers@);
        let mut i: usize = 0;
        while i < data.len()
            invariant
                i <= data@.len(),
                player_id < self.player_buffers@.len(),
                self.delay == old(self).delay,
                self.bytes_per_frame == old(self).bytes_per_frame,
                b0 == bytes_view(old(self).player_buffers@),
                (player_id as int) < b0.len(),
                self.player_buffers@.len() == old(self).player_buffers@.len(),
                bytes_view(self.player_buffers@) =~= b0.update(
                    player_id as int,
                    b0[player_id as int] + data@.take(i as int),
                ),
            decreases data@.len() - i,
        {
            let ghost bb = self.player_buffers@;
            self.player_buffers[player_id].push_back(data[i]);
            proof {
                assert(data@.take(i + 1) =~= data@.take(i as int).push(data@[i as int]));
                let target = b0.update(player_id as int, b0[player_id as int] + data@.take(i + 1));
                assert(bytes_view(bb).len() == bb.len());
                assert(b0.len() == bb.len());
                assert forall|q: int| 0 <= q < bb.len() implies #[trigger] bytes_view(self.player_buffers@)[q]
                    == target[q] by {
                    assert(bytes_view(bb)[q] == bb[q]@);
                    assert(bytes_view(self.player_buffers@)[q] == self.player_buffers@[q]@);
                    assert(bytes_view(bb)[q] == b0.update(player_id as int, b0[player_id as int] + data@.take(i as int))[q]);
                    if q == player_id {
                        assert(bytes_view(bb)[q] == b0[q] + data@.take(i as int));
                        assert(b0[q] + data@.take(i + 1) =~= (b0[q] + data@.take(i as int)).push(data@[i as int]));
                        assert(self.player_buffers@[q]@ =~= bb[q]@.push(data@[i as int]));
                        assert(target[q] == b0[q] + data@.take(i + 1));
                        assert(bytes_view(self.player_buffers@)[q] == target[q]);
                    } else {
                        assert(self.player_buffers@[q] == bb[q]);
                        assert(target[q] == b0[q]);
                        assert(bytes_view(self.player_buffers@)[q] == target[q]);
                    }
                }
                assert(bytes_view(self.player_buffers@) =~= target);
            }
            i = i + 1;
        }
        assert(data@.take(data@.len() as int) =~= data@);
    }

    /// Check if we have enough data to send
    /// For delay N, we need N * bytes_per_frame from each player
    fn can_send(&self) -> (ok: bool)
        requires
            self.wf(),
        ensures
            ok == can_send_spec(bytes_view(self.player_buffers@), self.delay),
    {
        let required_bytes = self.delay * self.bytes_per_frame;
        let mut q: usize = 0;
        while q < self.player_buffers.len()
            invariant
                q <= self.player_buffers@.len(),
                required_bytes == 2 * self.delay,
                forall|x: int| 0 <= x < q ==> required_bytes <= (#[trigger] self.player_buffers@[x])@.len(),
            decreases self.player_buffers@.len() - q,
        {
            if self.player_buffers[q].len() < required_bytes {
                assert(bytes_view(self.player_buffers@)[q as int] == self.player_buffers@[q as int]@);
                return false;
            }
            q = q + 1;
        }
        assert forall|x: int| 0 <= x < bytes_view(self.player_buffers@).len() implies 2 * self.delay
            <= #[trigger] bytes_view(self.player_buffers@)[x].len() by {
            assert(bytes_view(self.player_buffers@)[x] == self.player_buffers@[x]@);
        }
        true
    }

    /// How many outputs the buffers hold.
    fn ready_count(&self) -> (c: usize)
        requires
            self.wf(),
            self.player_buffers@.len() >= 1,
        ensures
            c == send_ready_count(bytes_view(self.player_buffers@), self.delay),
    {
        let ghost bv = bytes_view(self.player_buffers@);
        let n = self.player_buffers.len();
        let unit = self.delay * self.bytes_per_frame;
        assert(bv[0].len() == self.player_buffers@[0]@.len());
        let mut m = self.player_buffers[0].len() / unit;
        let mut q: usize = 1;
        while q < n
            invariant
                1 <= q <= n,
                n == self.player_buffers@.len(),
                bv == bytes_view(self.player_buffers@),
                unit == 2 * self.delay,
                unit >= 2,
                m == fill_ready(bv, unit as int, q as int),
            decreases n - q,
        {
            assert(bv[q as int].len() == self.player_buffers@[q as int]@.len());
            let x = self.player_buffers[q].len() / unit;
            if x < m {
                m = x;
            }
            q = q + 1;
        }
        m
    }

    /// Extract the required amount of data from all player buffers
    /// Returns combined data if ready, None otherwise
    fn extract_combined(&mut self) -> (out: Option<Vec<u8>>)
        requires
            old(self).wf(),
        ensures
            final(self).delay == old(self).delay,
            final(self).bytes_per_frame == old(self).bytes_per_frame,
            final(self).player_buffers@.len() == old(self).player_buffers@.len(),
            can_send_spec(bytes_view(old(self).player_buffers@), old(self).delay) ==> out.is_some()
                && (bytes_view(final(self).player_buffers@), out.unwrap()@) == combine_spec(
                bytes_view(old(self).player_buffers@),
                old(self).delay,
            ),
            !can_send_spec(bytes_view(old(self).player_buffers@), old(self).delay) ==> out.is_none()
                && final(self).player_buffers == old(self).player_buffers,
    {
        if !self.can_send() {
            return None;
        }
        let bytes_to_extract = self.delay * self.bytes_per_frame;
        let ghost orig = bytes_view(self.player_buffers@);
        let ghost parts = Seq::new(orig.len(), |q: int| orig[q].take(2 * self.delay));
        let n = self.player_buffers.len();
        let mut combined: Vec<u8> = Vec::new();
        let mut q: usize = 0;
        while q < n
            invariant
                q <= n,
                n == self.player_buffers@.len(),
                orig.len() == n,
                bytes_to_extract == 2 * self.delay,
                self.delay == old(self).delay,
                self.bytes_per_frame == old(self).bytes_per_frame,
                parts == Seq::new(orig.len(), |x: int| orig[x].take(bytes_to_extract as int)),
                forall|x: int| 0 <= x < n ==> bytes_to_extract <= (#[trigger] orig[x]).len(),
                forall|x: int|
                    0 <= x < n ==> #[trigger] bytes_view(self.player_buffers@)[x] == if x < q {
                        orig[x].skip(bytes_to_extract as int)
                    } else {
                        orig[x]
                    },
                combined@ == parts.take(q as int).flatten(),
            decreases n - q,
        {
            let ghost before = combined@;
            let ghost bb = self.player_buffers@;
            assert(bytes_view(bb)[q as int] == bb[q as int]@);
            assert(orig[q as int].skip(0) =~= orig[q as int]);
            let mut t: usize = 0;
            while t < bytes_to_extract
                invariant
                    t <= bytes_to_extract,
                    q < n,
                    n == self.player_buffers@.len(),
                    bytes_to_extract <= orig[q as int].len(),
                    self.delay == old(self).delay,
                    self.bytes_per_frame == old(self).bytes_per_frame,
                    self.player_buffers@[q as int]@ == orig[q as int].skip(t as int),
                    forall|x: int| 0 <= x < n && x != q ==> #[trigger] self.player_buffers@[x] == bb[x],
                    combined@ == before + orig[q as int].take(t as int),
                decreases bytes_to_extract - t,
            {
                let ghost cur = self.player_buffers@[q as int]@;
                assert(cur[0] == orig[q as int][t as int]);
                let byte = self.player_buffers[q].pop_front();
                match byte {
                    Some(b) => {
                        combined.push(b);
                    },
                    None => {
                        assert(false);
                    },
                }
                assert(orig[q as int].take(t + 1) =~= orig[q as int].take(t as int).push(orig[q as int][t as int]));
                assert(self.player_buffers@[q as int]@ =~= orig[q as int].skip(t + 1));
                t = t + 1;
            }
            proof {
                assert(parts.take(q + 1) =~= parts.take(q as int).push(parts[q as int]));
                parts.take(q as int).lemma_flatten_push(parts[q as int]);
                assert forall|x: int| 0 <= x < n implies #[trigger] bytes_view(self.player_buffers@)[x]
                    == if x < q + 1 {
                    orig[x].skip(bytes_to_extract as int)
                } else {
                    orig[x]
                } by {
                    assert(bytes_view(self.player_buffers@)[x] == self.player_buffers@[x]@);
                    assert(bytes_view(bb)[x] == bb[x]@);
                    if x != q {
                        assert(self.player_buffers@[x] == bb[x]);
                    }
                }
            }
            q = q + 1;
        }
        assert(parts.take(n as int) =~= parts);
        assert(bytes_view(self.player_buffers@) =~= combine_spec(orig, self.delay).0);
        Some(combined)
    }
}

impl PlayerSendQueue {
    /// Appends the front frame of every master queue to the buffer of its
    /// player.
    fn push_fronts(&mut self, masters: &Vec<MasterInputQueue>)
        requires
            old(self).player_buffers@.len() == masters@.len(),
            forall|q: int| 0 <= q < masters@.len() ==> frames_view((#[trigger] masters@[q]).queue).len() >= 1,
        ensures
            final(self).delay == old(self).delay,
            final(self).bytes_per_frame == old(self).bytes_per_frame,
            final(self).player_buffers@.len() == old(self).player_buffers@.len(),
            bytes_view(final(self).player_buffers@) == Seq::new(
                masters@.len(),
                |q: int| bytes_view(old(self).player_buffers@)[q] + frames_view(masters@[q].queue)[0],
            ),
    {
        let ghost b0 = bytes_view(self.player_buffers@);
        let n = masters.len();
        let mut player_id: usize = 0;
        while player_id < n
            invariant
                player_id <= n,
                n == masters@.len(),
                self.player_buffers@.len() == n,
                b0 == bytes_view(old(self).player_buffers@),
                b0.len() == n,
                self.delay == old(self).delay,
                self.bytes_per_frame == old(self).bytes_per_frame,
                forall|q: int| 0 <= q < n ==> frames_view((#[trigger] masters@[q]).queue).len() >= 1,
                forall|q: int|
                    0 <= q < n ==> #[trigger] bytes_view(self.player_buffers@)[q] == if q < player_id {
                        b0[q] + frames_view(masters@[q].queue)[0]
                    } else {
                        b0[q]
                    },
            decreases n - player_id,
        {
            let ghost bb = bytes_view(self.player_buffers@);
            assert(frames_view(masters@[player_id as int].queue)[0] == masters@[player_id as int].queue@[0]@);
            let data = &masters[player_id].queue[0];
            self.push_input(player_id, data.as_slice());
            assert forall|q: int| 0 <= q < n implies #[trigger] bytes_view(self.player_buffers@)[q]
                == if q < player_id + 1 {
                b0[q] + frames_view(masters@[q].queue)[0]
            } else {
                b0[q]
            } by {
                assert(bytes_view(self.player_buffers@)[q] == bb.update(
                    player_id as int,
                    bb[player_id as int] + data@,
                )[q]);
            }
            player_id = player_id + 1;
        }
        assert(bytes_view(self.player_buffers@) =~= Seq::new(
            masters@.len(),
            |q: int| b0[q] + frames_view(masters@[q].queue)[0],
        ));
    }
}

/// Game synchronization manager with delay-based architecture
#[derive(Debug, Clone)]
pub struct GameSyncManager {
    /// Number of players in the game
    player_count: usize,
    /// Master input queues for each player
    master_queues: Vec<MasterInputQueue>,
    /// Independent send queues for each player
    send_queues: Vec<PlayerSendQueue>,
    /// Player delays (in frames)
    player_delays: Vec<usize>,
    /// Per-player output cache (what each player has received)
    player_output_caches: Vec<InputCache>,
    /// Minimum delay among all players
    min_delay: usize,
}

impl View for GameSyncManager {
    type V = GameSyncSpec;

    closed spec fn view(&self) -> GameSyncSpec {
        GameSyncSpec {
            delays: self.player_delays@,
            client_caches: self.master_queues@.map_values(|m: MasterInputQueue| m.client_cache@),
            master: self.master_queues@.map_values(|m: MasterInputQueue| frames_view(m.queue)),
            send: self.send_queues@.map_values(|s: PlayerSendQueue| bytes_view(s.player_buffers@)),
            out_caches: caches_view(self.player_output_caches@),
        }
    }
}

impl GameSyncManager {
    pub closed spec fn wf(&self) -> bool {
        let n = self.player_count;
        &&& n >= 1
        &&& self.player_delays@.len() == n
        &&& self.master_queues@.len() == n
        &&& self.send_queues@.len() == n
        &&& self.player_output_caches@.len() == n
        &&& caches_wf(self.player_output_caches@)
        &&& delays_ok(self.player_delays@)
        &&& self.min_delay == min_delay(self.player_delays@, n as int)
        &&& forall|p: int| 0 <= p < n ==> (#[trigger] self.master_queues@[p]).client_cache.wf()
        &&& forall|p: int|
            0 <= p < n ==> (#[trigger] self.master_queues@[p]).expected_input_size
                == self.player_delays@[p] * 2
        &&& forall|p: int| 0 <= p < n ==> (#[trigger] self.send_queues@[p]).wf()
        &&& forall|p: int| 0 <= p < n ==> (#[trigger] self.send_queues@[p]).delay == self.player_delays@[p]
        &&& forall|p: int| 0 <= p < n ==> (#[trigger] self.send_queues@[p]).player_buffers@.len() == n
    }

    /// Facts about the view that follow from well-formedness.
    proof fn lemma_view(&self)
        requires
            self.wf(),
        ensures
            self@.delays.len() == self.player_count,
            self@.client_caches.len() == self.player_count,
            self@.master.len() == self.player_count,
            self@.send.len() == self.player_count,
            self@.out_caches.len() == self.player_count,
            delays_ok(self@.delays),
            forall|p: int| 0 <= p < self.player_count ==> (#[trigger] self@.send[p]).len() == self.player_count,
            forall|p: int| 0 <= p < self.player_count ==> (#[trigger] self@.client_caches[p]).len() <= CACHE_SLOTS,
            forall|p: int| 0 <= p < self.player_count ==> (#[trigger] self@.out_caches[p]).len() <= CACHE_SLOTS,
    {
        assert forall|p: int| 0 <= p < self.player_count implies (#[trigger] self@.send[p]).len() == self.player_count by {
            assert(self@.send[p] == bytes_view(self.send_queues@[p].player_buffers@));
        }
        assert forall|p: int| 0 <= p < self.player_count implies (#[trigger] self@.client_caches[p]).len() <= CACHE_SLOTS by {
            assert(self.master_queues@[p].client_cache.wf());
            assert(self@.client_caches[p] == self.master_queues@[p].client_cache@);
        }
        assert forall|p: int| 0 <= p < self.player_count implies (#[trigger] self@.out_caches[p]).len() <= CACHE_SLOTS by {
            assert(self.player_output_caches@[p].wf());
            assert(self@.out_caches[p] == self.player_output_caches@[p]@);
        }
    }

    /// Create a new game sync manager with player delays
    /// delays: array of delay values for each player (1 = 1/60s, 2 = 2/60s, etc.)
    pub fn new(delays: Vec<usize>) -> (m: Self)
        requires
            delays_ok(delays@),
        ensures
            m.wf(),
            m@ == initial_spec(delays@),
    {
        let player_count = delays.len();
        let mut min_delay_v = delays[0];
        let mut k: usize = 1;
        while k < player_count
            invariant
                1 <= k <= player_count,
                player_count == delays@.len(),
                min_delay_v == min_delay(delays@, k as int),
            decreases player_count - k,
        {
            if delays[k] < min_delay_v {
                min_delay_v = delays[k];
            }
            k = k + 1;
        }
        let mut master_queues: Vec<MasterInputQueue> = Vec::new();
        let mut send_queues: Vec<PlayerSendQueue> = Vec::new();
        let mut i: usize = 0;
        while i < player_count
            invariant
                i <= player_count,
                player_count == delays@.len(),
                delays_ok(delays@),
                master_queues@.len() == i,
                send_queues@.len() == i,
                forall|p: int| 0 <= p < i ==> (#[trigger] master_queues@[p]).client_cache.wf(),
                forall|p: int| 0 <= p < i ==> (#[trigger] master_queues@[p]).client_cache@ == Seq::<Seq<u8>>::empty(),
                forall|p: int| 0 <= p < i ==> frames_view((#[trigger] master_queues@[p]).queue) == Seq::<Seq<u8>>::empty(),
                forall|p: int| 0 <= p < i ==> (#[trigger] master_queues@[p]).expected_input_size == delays@[p] * 2,
                forall|p: int| 0 <= p < i ==> (#[trigger] send_queues@[p]).wf(),
                forall|p: int| 0 <= p < i ==> (#[trigger] send_queues@[p]).delay == delays@[p],
                forall|p: int| 0 <= p < i ==> (#[trigger] send_queues@[p]).player_buffers@.len() == player_count,
                forall|p: int|
                    0 <= p < i ==> bytes_view((#[trigger] send_queues@[p]).player_buffers@) == Seq::new(
                        player_count as nat,
                        |j: int| Seq::<u8>::empty(),
                    ),
            decreases player_count - i,
        {
            master_queues.push(MasterInputQueue::new(delays[i]));
            send_queues.push(PlayerSendQueue::new(player_count, delays[i]));
            i = i + 1;
        }
        let player_output_caches = crate::simplest_game_sync::empty_caches(player_count);
        let ghost dv = delays@;
        proof {
            lemma_min_delay(dv, player_count as int);
        }
        let mut manager = Self {
            player_count,
            master_queues,
            send_queues,
            player_delays: delays,
            player_output_caches,
            min_delay: min_delay_v,
        };
        let ghost st0 = manager@;
        let ghost sp = initial_spec(dv);
        proof {
            assert(st0.delays == dv);
            assert(st0.client_caches =~= sp.client_caches) by {
                assert forall|q: int| 0 <= q < player_count implies #[trigger] st0.client_caches[q]
                    == sp.client_caches[q] by {
                    assert(st0.client_caches[q] == manager.master_queues@[q].client_cache@);
                }
            }
            assert(st0.out_caches =~= sp.out_caches);
            assert(st0.send =~= sp.send) by {
                assert forall|p: int| 0 <= p < player_count implies #[trigger] st0.send[p] =~= sp.send[p] by {
                    assert(st0.send[p] == bytes_view(manager.send_queues@[p].player_buffers@));
                }
            }
            assert forall|q: int| 0 <= q < player_count implies #[trigger] st0.master[q] == Seq::<Seq<u8>>::empty() by {
                assert(st0.master[q] == frames_view(manager.master_queues@[q].queue));
            }
        }
        // Apply preemptive padding
        manager.apply_preemptive_padding();
        proof {
            assert(manager@.master =~= sp.master) by {
                assert forall|q: int| 0 <= q < player_count implies #[trigger] manager@.master[q] =~= sp.master[q] by {
                    assert(st0.master[q] + padding_frames(dv[q] - min_delay_v) =~= padding_frames(dv[q] - min_delay_v));
                }
            }
        }
        manager
    }

    /// Hands the front frame of every master queue to every send queue.
    fn hand_out_round(&mut self)
        requires
            old(self).wf(),
            forall|q: int| 0 <= q < old(self).player_count ==> (#[trigger] old(self)@.master[q]).len() >= 1,
        ensures
            final(self).wf(),
            final(self).player_count == old(self).player_count,
            final(self)@ == round_spec(old(self)@),
    {
        let n = self.player_count;
        let ghost st0 = self@;
        proof {
            self.lemma_view();
            assert forall|q: int| 0 <= q < n implies frames_view((#[trigger] self.master_queues@[q]).queue).len() >= 1 by {
                assert(st0.master[q] == frames_view(self.master_queues@[q].queue));
            }
        }
        let mut p: usize = 0;
        while p < n
            invariant
                p <= n,
                n == self.player_count,
                n == old(self).player_count,
                self.wf(),
                st0 == old(self)@,
                st0.send.len() == n,
                st0.master.len() == n,
                self.master_queues == old(self).master_queues,
                forall|q: int| 0 <= q < n ==> frames_view((#[trigger] self.master_queues@[q]).queue).len() >= 1,
                self@.delays == st0.delays,
                self@.client_caches == st0.client_caches,
                self@.master == st0.master,
                self@.out_caches == st0.out_caches,
                forall|x: int|
                    0 <= x < n ==> #[trigger] self@.send[x] == if x < p {
                        Seq::new(n as nat, |q: int| st0.send[x][q] + st0.master[q][0])
                    } else {
                        st0.send[x]
                    },
            decreases n - p,
        {
            let ghost sq = self.send_queues@;
            let ghost before = self@;
            self.send_queues[p].push_fronts(&self.master_queues);
            proof {
                assert forall|x: int| 0 <= x < n && x != p implies #[trigger] self.send_queues@[x] == sq[x] by {}
                assert forall|x: int| 0 <= x < n implies #[trigger] self@.send[x] == if x < p + 1 {
                    Seq::new(n as nat, |q: int| st0.send[x][q] + st0.master[q][0])
                } else {
                    st0.send[x]
                } by {
                    assert(self@.send[x] == bytes_view(self.send_queues@[x].player_buffers@));
                    assert(before.send[x] == bytes_view(sq[x].player_buffers@));
                    if x == p {
                        assert forall|q: int| 0 <= q < n implies #[trigger] st0.master[q][0]
                            == frames_view(self.master_queues@[q].queue)[0] by {
                            assert(st0.master[q] == frames_view(self.master_queues@[q].queue));
                        }
                        assert(self@.send[x] =~= Seq::new(n as nat, |q: int| st0.send[x][q] + st0.master[q][0]));
                    }
                }
                assert(self@.delays =~= st0.delays);
            }
            p = p + 1;
        }
        // Remove the processed frame from all master queues
        let mut q: usize = 0;
        while q < n
            invariant
                q <= n,
                n == self.player_count,
                n == old(self).player_count,
                self.wf(),
                st0 == old(self)@,
                st0.master.len() == n,
                forall|x: int| 0 <= x < n ==> (#[trigger] st0.master[x]).len() >= 1,
                self@.delays == st0.delays,
                self@.client_caches == st0.client_caches,
                self@.out_caches == st0.out_caches,
                self@.send == round_spec(st0).send,
                forall|x: int|
                    0 <= x < n ==> #[trigger] self@.master[x] == if x < q {
                        st0.master[x].drop_first()
                    } else {
                        st0.master[x]
                    },
            decreases n - q,
        {
            let ghost mq = self.master_queues@;
            let ghost before = self@;
            assert(before.master[q as int] == frames_view(mq[q as int].queue));
            self.master_queues[q].queue.pop_front();
            proof {
                assert forall|x: int| 0 <= x < n && x != q implies #[trigger] self.master_queues@[x] == mq[x] by {}
                assert forall|x: int| 0 <= x < n implies #[trigger] self@.master[x] == if x < q + 1 {
                    st0.master[x].drop_first()
                } else {
                    st0.master[x]
                } by {
                    assert(self@.master[x] == frames_view(self.master_queues@[x].queue));
                    assert(before.master[x] == frames_view(mq[x].queue));
                    if x == q {
                        assert(frames_view(self.master_queues@[x].queue) =~= frames_view(mq[x].queue).drop_first());
                    }
                }
                assert(self@.client_caches =~= before.client_caches) by {
                    assert forall|x: int| 0 <= x < n implies #[trigger] self@.client_caches[x] == before.client_caches[x] by {
                        assert(self@.client_caches[x] == self.master_queues@[x].client_cache@);
                        assert(before.client_caches[x] == mq[x].client_cache@);
                    }
                }
            }
            q = q + 1;
        }
        assert(self@.master =~= round_spec(st0).master);
    }

    /// Distribute new inputs from master queues to all send queues
    /// Only distributes when all players have at least one input ready
    fn distribute_to_send_queues(&mut self)
        requires
            old(self).wf(),
        ensures
            final(self).wf(),
            final(self).player_count == old(self).player_count,
            final(self)@ == distribute_spec(old(self)@),
    {
        let n = self.player_count;
        let ghost st0 = self@;
        proof {
            self.lemma_view();
        }
        // Find the minimum master queue length
        assert(st0.master[0] == frames_view(self.master_queues@[0].queue));
        let mut min_master_len = self.master_queues[0].len();
        let mut q: usize = 1;
        while q < n
            invariant
                1 <= q <= n,
                n == self.player_count,
                self.wf(),
                self@ == st0,
                st0.master.len() == n,
                min_master_len == shortest_queue(st0.master, q as int),
            decreases n - q,
        {
            assert(st0.master[q as int] == frames_view(self.master_queues@[q as int].queue));
            let x = self.master_queues[q].len();
            if x < min_master_len {
                min_master_len = x;
            }
            q = q + 1;
        }
        proof {
            lemma_shortest_queue(st0.master, n as int);
            let h0 = hand_out_spec(st0, 0);
            assert(h0.master =~= st0.master) by {
                assert forall|x: int| 0 <= x < n implies #[trigger] h0.master[x] =~= st0.master[x] by {}
            }
            assert(h0.send =~= st0.send) by {
                assert forall|x: int| 0 <= x < n implies #[trigger] h0.send[x] =~= st0.send[x] by {
                    assert forall|y: int| 0 <= y < n implies #[trigger] h0.send[x][y] =~= st0.send[x][y] by {
                        assert(st0.master[y].take(0) =~= Seq::<Seq<u8>>::empty());
                    }
                }
            }
            assert(h0 == st0);
        }
        if min_master_len == 0 {
            return;
        }
        // Distribute one frame at a time
        let mut t: usize = 0;
        while t < min_master_len
            invariant
                t <= min_master_len,
                n == self.player_count,
                n == old(self).player_count,
                self.wf(),
                st0 == old(self)@,
                st0.master.len() == n,
                st0.send.len() == n,
                st0.delays.len() == n,
                forall|p: int| 0 <= p < n ==> (#[trigger] st0.send[p]).len() == n,
                forall|x: int| 0 <= x < n ==> min_master_len <= (#[trigger] st0.master[x]).len(),
                self@ == hand_out_spec(st0, t as int),
            decreases min_master_len - t,
        {
            proof {
                lemma_hand_out_step(st0, t as int);
            }
            self.hand_out_round();
            t = t + 1;
        }
    }

    /// Process a client's input
    /// Returns a list of outputs to send to specific players
    pub fn process_client_input(&mut self, player_id: usize, input: ClientInput) -> (outputs: Vec<
        PlayerOutput,
    >)
        requires
            old(self).wf(),
            input_ok(old(self)@, player_id, input@),
        ensures
            final(self).wf(),
            (final(self)@, responses_view(outputs@)) == process_spec(old(self)@, player_id, input@),
    {
        let ghost st0 = self@;
        let ghost inv = input@;
        proof {
            self.lemma_view();
        }
        // Resolve the actual input data (delay * 2 bytes)
        let ghost mq = self.master_queues@;
        let input_data = match input {
            ClientInput::GameData(data) => {
                // Update the client's cache
                let copy = copy_bytes(data.as_slice());
                self.master_queues[player_id].client_cache.push(copy);
                data
            },
            ClientInput::GameCache(position) => {
                // Restore data from the client's cache
                match self.master_queues[player_id].client_cache.get(position) {
                    Some(d) => copy_bytes(d),
                    None => {
                        assert(false);
                        Vec::new()
                    },
                }
            },
        };
        let ghost r = resolve_input_spec(st0.client_caches[player_id as int], inv);
        assert(input_data@ == r.1);
        // Add input to master queue (will be split into 2-byte frames)
        let ghost mq1 = self.master_queues@;
        self.master_queues[player_id].push(input_data);
        proof {
            let n = self.player_count;
            assert forall|x: int| 0 <= x < n && x != player_id implies #[trigger] self.master_queues@[x] == mq[x] by {
                assert(mq1[x] == mq[x]);
            }
            let st1 = GameSyncSpec {
                client_caches: st0.client_caches.update(player_id as int, r.0),
                master: st0.master.update(player_id as int, st0.master[player_id as int] + frames_of(r.1)),
                ..st0
            };
            assert(self@.client_caches =~= st1.client_caches) by {
                assert forall|x: int| 0 <= x < n implies #[trigger] self@.client_caches[x] == st1.client_caches[x] by {
                    assert(self@.client_caches[x] == self.master_queues@[x].client_cache@);
                    assert(st0.client_caches[x] == mq[x].client_cache@);
                }
            }
            assert(self@.master =~= st1.master) by {
                assert forall|x: int| 0 <= x < n implies #[trigger] self@.master[x] == st1.master[x] by {
                    assert(self@.master[x] == frames_view(self.master_queues@[x].queue));
                    assert(st0.master[x] == frames_view(mq[x].queue));
                    assert(frames_view(mq1[player_id as int].queue) == frames_view(mq[player_id as int].queue));
                }
            }
            assert(self@.delays =~= st1.delays);
            assert(self@ == st1);
            assert forall|p: int| 0 <= p < n implies (#[trigger] self.master_queues@[p]).client_cache.wf()
                && self.master_queues@[p].expected_input_size == self.player_delays@[p] * 2 by {}
        }
        // Distribute to send queues
        self.distribute_to_send_queues();
        // Try to send data to players who are ready
        self.try_send_to_all_players()
    }

    /// Try to send data to all players who have enough data in their send queues
    fn try_send_to_all_players(&mut self) -> (outputs: Vec<PlayerOutput>)
        requires
            old(self).wf(),
        ensures
            final(self).wf(),
            (final(self)@, responses_view(outputs@)) == send_all_spec(old(self)@),
    {
        let n = self.player_count;
        let ghost st0 = self@;
        proof {
            self.lemma_view();
        }
        // how many outputs each player can receive
        let mut counts: Vec<usize> = Vec::new();
        let mut prio: Vec<usize> = Vec::new();
        let mut p: usize = 0;
        while p < n
            invariant
                p <= n,
                n == self.player_count,
                self.wf(),
                self@ == st0,
                counts@.len() == p,
                prio@.len() == p,
                forall|x: int| 0 <= x < p ==> #[trigger] counts@[x] == counts_spec(st0)[x],
                forall|x: int| 0 <= x < p ==> #[trigger] counts@[x] as int == send_ready_count(st0.send[x], st0.delays[x]),
                forall|x: int| 0 <= x < p ==> #[trigger] prio@[x] == 0,
            decreases n - p,
        {
            assert(bytes_view(self.send_queues@[p as int].player_buffers@) == st0.send[p as int]);
            counts.push(self.send_queues[p].ready_count());
            prio.push(0);
            p = p + 1;
        }
        assert(counts@ =~= counts_spec(st0));
        assert(prio@ =~= equal_priorities(st0.delays.len()));
        assert forall|x: int| 0 <= x < n implies #[trigger] counts_spec(st0)[x] as int == send_ready_count(st0.send[x], st0.delays[x]) by {
            assert(counts@[x] as int == send_ready_count(st0.send[x], st0.delays[x]));
        }
        proof {
            lemma_schedule_counts(counts@, prio@);
        }
        let sched = compute_schedule(counts, &prio);
        // the outputs are taken from the send queues in schedule order
        let mut raws: Vec<RawOutput> = Vec::new();
        let mut i: usize = 0;
        assert(sched@.take(0) =~= Seq::<usize>::empty());
        assert(raws_view(raws@) =~= Seq::<(usize, Seq<u8>)>::empty());
        while i < sched.len()
            invariant
                i <= sched@.len(),
                n == self.player_count,
                self.wf(),
                sched@ == schedule(counts_spec(st0), equal_priorities(st0.delays.len())),
                forall|x: usize| (x as int) < n ==> #[trigger] count_occ(sched@, x) == counts_spec(st0)[x as int],
                forall|j: int| 0 <= j < sched@.len() ==> (#[trigger] sched@[j] as int) < n,
                self@.delays == st0.delays,
                self@.client_caches == st0.client_caches,
                self@.master == st0.master,
                self@.out_caches == st0.out_caches,
                (self@.send, raws_view(raws@)) == walk_spec(st0.send, st0.delays, sched@.take(i as int)),
                forall|x: int, q: int|
                    0 <= x < n && 0 <= q < n ==> #[trigger] self@.send[x][q].len() == st0.send[x][q].len()
                        - 2 * st0.delays[x] * count_occ(sched@.take(i as int), x as usize),
                forall|j: int| 0 <= j < raws@.len() ==> (#[trigger] raws@[j]).player_id < n,
                st0.send.len() == n,
                st0.delays.len() == n,
                forall|x: int| 0 <= x < n ==> (#[trigger] st0.send[x]).len() == n,
                delays_ok(st0.delays),
                forall|x: int| 0 <= x < n ==> #[trigger] counts_spec(st0)[x] as int == send_ready_count(st0.send[x], st0.delays[x]),
            decreases sched@.len() - i,
        {
            let pid = sched[i];
            proof {
                lemma_count_occ_take(sched@, i as int, pid);
                let d = st0.delays[pid as int];
                let unit = 2 * d;
                lemma_fill_ready(st0.send[pid as int], unit, n as int);
                let c = count_occ(sched@.take(i as int), pid);
                let total = counts_spec(st0)[pid as int];
                assert(c + 1 <= total);
                assert forall|q: int| 0 <= q < n implies unit <= #[trigger] self@.send[pid as int][q].len() by {
                    assert(total * unit <= st0.send[pid as int][q].len());
                    assert(unit <= st0.send[pid as int][q].len() - unit * c) by (nonlinear_arith)
                        requires
                            c + 1 <= total,
                            total * unit <= st0.send[pid as int][q].len(),
                            unit >= 1,
                            c >= 0,
                    ;
                }
                assert(self@.send[pid as int] == bytes_view(self.send_queues@[pid as int].player_buffers@));
                assert(can_send_spec(self@.send[pid as int], self.send_queues@[pid as int].delay));
            }
            let ghost before = self@;
            let ghost raws_before = raws_view(raws@);
            let ghost sq = self.send_queues@;
            let extracted = self.send_queues[pid].extract_combined();
            let combined = match extracted {
                Some(c) => c,
                None => {
                    assert(false);
                    Vec::new()
                },
            };
            raws.push(RawOutput { player_id: pid, output: combined });
            proof {
                let taken = sched@.take(i + 1);
                assert(taken.drop_last() =~= sched@.take(i as int));
                assert(taken.last() == pid);
                let e = combine_spec(before.send[pid as int], st0.delays[pid as int]);
                assert(self@.send =~= before.send.update(pid as int, e.0)) by {
                    assert forall|x: int| 0 <= x < n implies #[trigger] self@.send[x] == before.send.update(pid as int, e.0)[x] by {
                        if x != pid {
                            assert(self.send_queues@[x] == sq[x]);
                        }
                    }
                }
                assert(raws_view(raws@) =~= raws_before.push((pid, e.1)));
                assert(self@.delays =~= before.delays);
                assert forall|x: int, q: int|
                    0 <= x < n && 0 <= q < n implies #[trigger] self@.send[x][q].len() == st0.send[x][q].len()
                        - 2 * st0.delays[x] * count_occ(sched@.take(i + 1), x as usize) by {
                    lemma_count_occ_take(sched@, i as int, x as usize);
                    let c = count_occ(sched@.take(i as int), x as usize);
                    if x == pid {
                        assert(self@.send[x][q].len() == before.send[x][q].len() - 2 * st0.delays[x]);
                        assert(2 * st0.delays[x] * (c + 1) == 2 * st0.delays[x] * c + 2 * st0.delays[x]) by (nonlinear_arith);
                    } else {
                        assert(self@.send[x] == before.send[x]);
                    }
                }
            }
            i = i + 1;
        }
        assert(sched@.take(sched@.len() as int) =~= sched@);
        let ghost w = walk_spec(st0.send, st0.delays, sched@);
        let outputs = respond_all(&mut self.player_output_caches, &raws);
        proof {
            assert(self@.send == w.0);
            assert(self@ == send_all_spec(st0).0);
        }
        outputs
    }

    /// Get the delay value for a specific player
    pub fn get_player_delay(&self, player_id: usize) -> (d: usize)
        requires
            self.wf(),
            (player_id as int) < self@.delays.len(),
        ensures
            d == self@.delays[player_id as int],
    {
        self.player_delays[player_id]
    }

    /// Get the number of players
    pub fn player_count(&self) -> (n: usize)
        requires
            self.wf(),
        ensures
            n == self@.delays.len(),
    {
        self.player_count
    }

    /// Number of frames of a player that wait in its master queue.
    pub fn master_queue_len(&self, player_id: usize) -> (n: usize)
        requires
            self.wf(),
            (player_id as int) < self@.delays.len(),
        ensures
            n == self@.master[player_id as int].len(),
    {
        self.master_queues[player_id].len()
    }

    /// Apply preemptive padding at game start
    /// Players with higher delay get empty inputs [00 00] in their master queue
    fn apply_preemptive_padding(&mut self)
        requires
            old(self).wf(),
        ensures
            final(self).wf(),
            final(self).player_count == old(self).player_count,
            final(self).min_delay == old(self).min_delay,
            final(self)@ == (GameSyncSpec {
                master: Seq::new(
                    old(self)@.delays.len(),
                    |q: int| old(self)@.master[q] + padding_frames(old(self)@.delays[q] - old(self).min_delay),
                ),
                ..old(self)@
            }),
    {
        let n = self.player_count;
        let ghost st0 = self@;
        proof {
            self.lemma_view();
            lemma_min_delay(st0.delays, n as int);
            assert(st0.master =~= Seq::new(
                n as nat,
                |q: int|
                    if q < 0 {
                        st0.master[q] + padding_frames(st0.delays[q] - self.min_delay)
                    } else {
                        st0.master[q]
                    },
            ));
        }
        let mut player_id: usize = 0;
        while player_id < n
            invariant
                player_id <= n,
                n == self.player_count,
                n == old(self).player_count,
                self.wf(),
                self.min_delay == old(self).min_delay,
                st0 == old(self)@,
                st0.delays.len() == n,
                st0.master.len() == n,
                forall|p: int| 0 <= p < n ==> self.min_delay <= #[trigger] st0.delays[p],
                self@ == (GameSyncSpec {
                    master: Seq::new(
                        n as nat,
                        |q: int|
                            if q < player_id {
                                st0.master[q] + padding_frames(st0.delays[q] - self.min_delay)
                            } else {
                                st0.master[q]
                            },
                    ),
                    ..st0
                }),
            decreases n - player_id,
        {
            assert(self@.delays[player_id as int] == self.player_delays@[player_id as int]);
            let padding = self.player_delays[player_id] - self.min_delay;
            let mut t: usize = 0;
            proof {
                assert(st0.master[player_id as int] + padding_frames(0) =~= st0.master[player_id as int]);
                assert(self@.master =~= Seq::new(
                    n as nat,
                    |q: int|
                        if q < player_id {
                            st0.master[q] + padding_frames(st0.delays[q] - self.min_delay)
                        } else if q == player_id {
                            st0.master[q] + padding_frames(0)
                        } else {
                            st0.master[q]
                        },
                ));
            }
            while t < padding
                invariant
                    t <= padding,
                    player_id < n,
                    n == self.player_count,
                    self.wf(),
                    self.min_delay == old(self).min_delay,
                    st0.delays.len() == n,
                    st0.master.len() == n,
                    self@ == (GameSyncSpec {
                        master: Seq::new(
                            n as nat,
                            |q: int|
                                if q < player_id {
                                    st0.master[q] + padding_frames(st0.delays[q] - self.min_delay)
                                } else if q == player_id {
                                    st0.master[q] + padding_frames(t as int)
                                } else {
                                    st0.master[q]
                                },
                        ),
                        ..st0
                    }),
                decreases padding - t,
            {
                let mut empty_input: Vec<u8> = Vec::new();
                empty_input.push(0x00);
                empty_input.push(0x00);
                let ghost before = self@;
                let ghost mq = self.master_queues@;
                assert(frames_of(empty_input@) =~= seq![seq![0u8, 0u8]]) by {
                    assert(empty_input@.subrange(0, 2) =~= seq![0u8, 0u8]);
                }
                self.master_queues[player_id].push(empty_input);
                proof {
                    assert forall|q: int| 0 <= q < n && q != player_id implies #[trigger] self.master_queues@[q]
                        == mq[q] by {}
                    assert(padding_frames(t + 1) =~= padding_frames(t as int).push(seq![0u8, 0u8]));
                    assert(self@.master =~= Seq::new(
                        n as nat,
                        |q: int|
                            if q < player_id {
                                st0.master[q] + padding_frames(st0.delays[q] - self.min_delay)
                            } else if q == player_id {
                                st0.master[q] + padding_frames(t + 1)
                            } else {
                                st0.master[q]
                            },
                    )) by {
                        assert forall|q: int| 0 <= q < n implies #[trigger] self@.master[q] == (if q < player_id {
                            st0.master[q] + padding_frames(st0.delays[q] - self.min_delay)
                        } else if q == player_id {
                            st0.master[q] + padding_frames(t + 1)
                        } else {
                            st0.master[q]
                        }) by {
                            assert(self@.master[q] == frames_view(self.master_queues@[q].queue));
                            assert(before.master[q] == frames_view(mq[q].queue));
                            if q == player_id {
                                assert(st0.master[q] + padding_frames(t + 1) =~= (st0.master[q] + padding_frames(t as int)).push(seq![0u8, 0u8]));
                            }
                        }
                    }
                    assert(self@.client_caches =~= before.client_caches) by {
                        assert forall|q: int| 0 <= q < n implies #[trigger] self@.client_caches[q] == before.client_caches[q] by {
                            assert(self@.client_caches[q] == self.master_queues@[q].client_cache@);
                            assert(before.client_caches[q] == mq[q].client_cache@);
                        }
                    }
                }
                t = t + 1;
            }
            proof {
                assert(self@.master =~= Seq::new(
                    n as nat,
                    |q: int|
                        if q < player_id + 1 {
                            st0.master[q] + padding_frames(st0.delays[q] - self.min_delay)
                        } else {
                            st0.master[q]
                        },
                ));
            }
            player_id = player_id + 1;
        }
        assert(self@.master =~= Seq::new(
            old(self)@.delays.len(),
            |q: int| old(self)@.master[q] + padding_frames(old(self)@.delays[q] - old(self).min_delay),
        ));
    }
}

} // verus!
