//! Synchronisation with per-player send buffers: every 2-byte frame a player
//! sends goes to every player's send buffer; a player with delay `d`
//! receives `d` frames of every player at a time, interleaved frame by frame.
//! Among the players that can receive, those with the smallest delay are
//! served first.
use std::collections::VecDeque;
use vstd::prelude::*;

pub use crate::sync_core::{ClientInput, ServerResponse};
pub use crate::sync_core::PlayerResponse as PlayerOutput;

use crate::sync_core::{
    caches_view, caches_wf, compute_schedule, copy_bytes, count_occ, input_resolvable,
    lemma_count_occ_take, lemma_respond_fold_len, lemma_schedule_counts, raws_view,
    resolve_input_spec, respond_all, respond_fold, responses_view, schedule, InputCache,
    InputSpec, RawOutput, ResponseSpec, CACHE_SLOTS, law_respond_fold_each, respond_spec,
};

verus! {

/// `data` cut into 2-byte frames (a trailing odd byte is dropped).
pub open spec fn frames_of(data: Seq<u8>) -> Seq<Seq<u8>> {
    Seq::new(data.len() / 2, |i: int| data.subrange(2 * i, 2 * i + 2))
}

/// Frame `r` of every source buffer, in player order.
pub open spec fn frame_row(bufs: Seq<Seq<Seq<u8>>>, r: int) -> Seq<Seq<u8>> {
    Seq::new(bufs.len(), |q: int| bufs[q][r])
}

/// Frames `0..r` of every buffer, interleaved frame by frame.
pub open spec fn interleave_rounds(bufs: Seq<Seq<Seq<u8>>>, r: int) -> Seq<u8>
    decreases r,
{
    if r <= 0 {
        Seq::empty()
    } else {
        interleave_rounds(bufs, r - 1) + frame_row(bufs, r - 1).flatten()
    }
}

/// One output for a player with delay `d`: the first `d` frames of each
/// source, interleaved; they leave the buffers.
pub open spec fn extract_spec(bufs: Seq<Seq<Seq<u8>>>, d: usize) -> (Seq<Seq<Seq<u8>>>, Seq<u8>) {
    (Seq::new(bufs.len(), |q: int| bufs[q].skip(d as int)), interleave_rounds(bufs, d as int))
}

/// min over the first `k` (k >= 1) buffers of `len / d`.
pub open spec fn min_ready(bufs: Seq<Seq<Seq<u8>>>, d: usize, k: int) -> int
    decreases k,
{
    if k <= 1 {
        (bufs[0].len() as int) / (d as int)
    } else {
        let m = min_ready(bufs, d, k - 1);
        let x = (bufs[k - 1].len() as int) / (d as int);
        if x < m {
            x
        } else {
            m
        }
    }
}

/// How many outputs the buffers hold for a player with delay `d`.
pub open spec fn ready_count(bufs: Seq<Seq<Seq<u8>>>, d: usize) -> int {
    min_ready(bufs, d, bufs.len() as int)
}

/// The outputs taken, in schedule order, from the players' send buffers.
pub open spec fn walk(send: Seq<Seq<Seq<Seq<u8>>>>, delays: Seq<usize>, sched: Seq<usize>) -> (
    Seq<Seq<Seq<Seq<u8>>>>,
    Seq<(usize, Seq<u8>)>,
)
    decreases sched.len(),
{
    if sched.len() == 0 {
        (send, Seq::empty())
    } else {
        let prev = walk(send, delays, sched.drop_last());
        let p = sched.last();
        let e = extract_spec(prev.0[p as int], delays[p as int]);
        (prev.0.update(p as int, e.0), prev.1.push((p, e.1)))
    }
}

/// Mathematical state of the manager.
pub struct SimpleSpec {
    pub delays: Seq<usize>,
    /// Each player's client-side input cache.
    pub client_caches: Seq<Seq<Seq<u8>>>,
    /// send[p][q]: frames from player q waiting to be sent to player p.
    pub send: Seq<Seq<Seq<Seq<u8>>>>,
    /// What each player has received, as its client caches it.
    pub out_caches: Seq<Seq<Seq<u8>>>,
}

/// The pending output counts.
pub open spec fn counts_spec(st: SimpleSpec) -> Seq<usize> {
    Seq::new(st.delays.len(), |p: int| ready_count(st.send[p], st.delays[p]) as usize)
}

/// Every player that can be served is served, smallest delays first; each
/// output answered from the player's output cache.
pub open spec fn generate_spec(st: SimpleSpec) -> (SimpleSpec, Seq<(usize, ResponseSpec)>) {
    let sched = schedule(counts_spec(st), st.delays);
    let w = walk(st.send, st.delays, sched);
    let f = respond_fold(st.out_caches, w.1);
    (SimpleSpec { send: w.0, out_caches: f.0, ..st }, f.1)
}

/// Input from `pid`: resolved through the client cache, cut into frames
/// that go to every player's send buffer, then every ready output sent.
pub open spec fn process_spec(st: SimpleSpec, pid: usize, input: InputSpec) -> (
    SimpleSpec,
    Seq<(usize, ResponseSpec)>,
) {
    let r = resolve_input_spec(st.client_caches[pid as int], input);
    let fr = frames_of(r.1);
    let send1 = Seq::new(
        st.delays.len(),
        |p: int| st.send[p].update(pid as int, st.send[p][pid as int] + fr),
    );
    generate_spec(
        SimpleSpec {
            client_caches: st.client_caches.update(pid as int, r.0),
            send: send1,
            ..st
        },
    )
}

/// What `process_client_input` accepts: an existing player, Game Data of
/// `delay * 2` bytes or a Game Cache position the client cache holds.
pub open spec fn input_ok(st: SimpleSpec, pid: usize, input: InputSpec) -> bool {
    &&& (pid as int) < st.delays.len()
    &&& input_resolvable(st.client_caches[pid as int], input)
    &&& input matches InputSpec::Data(d) ==> d.len() == 2 * st.delays[pid as int]
}

/// The smallest delay.
pub open spec fn min_delay(delays: Seq<usize>, k: int) -> usize
    decreases k,
{
    if k <= 1 {
        delays[0]
    } else {
        let m = min_delay(delays, k - 1);
        if delays[k - 1] < m {
            delays[k - 1]
        } else {
            m
        }
    }
}

/// `k` frames of zero input.
pub open spec fn padding_frames(k: int) -> Seq<Seq<u8>> {
    Seq::new(k as nat, |i: int| seq![0u8, 0u8])
}

/// The delays that a manager accepts: at least one player, each delay
/// positive with `delay * 2` representable.
pub open spec fn delays_ok(delays: Seq<usize>) -> bool {
    &&& delays.len() >= 1
    &&& forall|i: int| 0 <= i < delays.len() ==> 1 <= #[trigger] delays[i] && delays[i] * 2 <= usize::MAX
}

/// Per-player input state
#[derive(Debug, Clone)]
struct PlayerInput {
    /// Input frames (2-byte chunks)
    frames: Vec<Vec<u8>>,
    /// Client's input cache
    client_cache: InputCache,
    /// Expected input size (delay * 2)
    input_size: usize,
    /// Delay value
    delay: usize,
    /// Number of frames already distributed to send buffers
    distributed_count: usize,
}

pub open spec fn bufs_view(v: Seq<VecDeque<Vec<u8>>>) -> Seq<Seq<Seq<u8>>> {
    v.map_values(|q: VecDeque<Vec<u8>>| q@.map_values(|c: Vec<u8>| c@))
}

impl PlayerInput {
    spec fn wf(&self) -> bool {
        &&& self.client_cache.wf()
        &&& 1 <= self.delay
        &&& self.input_size == self.delay * 2
        &&& self.distributed_count == self.frames@.len()
    }

    fn new(delay: usize) -> (p: Self)
        requires
            1 <= delay,
            delay * 2 <= usize::MAX,
        ensures
            p.wf(),
            p.delay == delay,
            p.client_cache@ == Seq::<Seq<u8>>::empty(),
            p.frames@.len() == 0,
    {
        Self {
            frames: Vec::new(),
            client_cache: InputCache::new(),
            input_size: delay * 2,
            delay,
            distributed_count: 0,
        }
    }

    /// Add input (splits into 2-byte chunks)
    fn add_input(&mut self, data: &Vec<u8>)
        ensures
            final(self).frames@.map_values(|c: Vec<u8>| c@) == old(self).frames@.map_values(
                |c: Vec<u8>| c@,
            ) + frames_of(data@),
            final(self).client_cache == old(self).client_cache,
            final(self).input_size == old(self).input_size,
            final(self).delay == old(self).delay,
            final(self).distributed_count == old(self).distributed_count,
    {
        let ghost f0 = self.frames@.map_values(|c: Vec<u8>| c@);
        let mut i: usize = 0;
        let ghost mut k: int = 0;
        while i <= data.len() && data.len() - i >= 2
            invariant
                i == 2 * k,
                0 <= k,
                i <= data@.len(),
                self.client_cache == old(self).client_cache,
                self.input_size == old(self).input_size,
                self.delay == old(self).delay,
                self.distributed_count == old(self).distributed_count,
                self.frames@.map_values(|c: Vec<u8>| c@) =~= f0 + frames_of(data@).take(k),
            decreases data@.len() - i,
        {
            let mut frame: Vec<u8> = Vec::new();
            frame.push(data[i]);
            frame.push(data[i + 1]);
            let ghost fb = self.frames@.map_values(|c: Vec<u8>| c@);
            assert(frame@ =~= data@.subrange(i as int, i + 2));
            self.frames.push(frame);
            assert(frames_of(data@).take(k + 1) =~= frames_of(data@).take(k).push(
                data@.subrange(i as int, i + 2),
            ));
            assert(self.frames@.map_values(|c: Vec<u8>| c@) =~= fb.push(
                data@.subrange(i as int, i + 2),
            ));
            i = i + 2;
            proof {
                k = k + 1;
            }
        }
        assert(k == data@.len() / 2);
        assert(frames_of(data@).take(k) =~= frames_of(data@));
    }
}

/// Per-player output state
#[derive(Debug, Clone)]
struct PlayerOutputState {
    /// Send buffer: holds frames to send to this player
    /// Each sub-vec is for one source player's frames
    send_buffers: Vec<VecDeque<Vec<u8>>>,
    /// Delay value
    delay: usize,
}

impl PlayerOutputState {
    fn new(player_count: usize, delay: usize) -> (s: Self)
        ensures
            s.delay == delay,
            s.send_buffers@.len() == player_count,
            bufs_view(s.send_buffers@) == Seq::new(
                player_count as nat,
                |i: int| Seq::<Seq<u8>>::empty(),
            ),
    {
        let mut send_buffers: Vec<VecDeque<Vec<u8>>> = Vec::new();
        let mut i: usize = 0;
        while i < player_count
            invariant
                i <= player_count,
                send_buffers@.len() == i,
                forall|j: int| 0 <= j < i ==> (#[trigger] send_buffers@[j])@.len() == 0,
            decreases player_count - i,
        {
            send_buffers.push(VecDeque::new());
            i = i + 1;
        }
        assert forall|j: int| 0 <= j < player_count implies #[trigger] bufs_view(send_buffers@)[j]
            =~= Seq::<Seq<u8>>::empty() by {
            assert(send_buffers@[j]@.len() == 0);
        }
        assert(bufs_view(send_buffers@) =~= Seq::new(
            player_count as nat,
            |i: int| Seq::<Seq<u8>>::empty(),
        ));
        Self { send_buffers, delay }
    }

    /// How many outputs the buffers hold.
    fn ready_count(&self) -> (c: usize)
        requires
            self.send_buffers@.len() >= 1,
            self.delay >= 1,
        ensures
            c == ready_count(bufs_view(self.send_buffers@), self.delay),
    {
        let ghost bv = bufs_view(self.send_buffers@);
        let n = self.send_buffers.len();
        assert(bv[0].len() == self.send_buffers@[0]@.len());
        let mut m = self.send_buffers[0].len() / self.delay;
        let mut q: usize = 1;
        while q < n
            invariant
                1 <= q <= n,
                n == self.send_buffers@.len(),
                bv == bufs_view(self.send_buffers@),
                self.delay >= 1,
                m == min_ready(bv, self.delay, q as int),
            decreases n - q,
        {
            assert(bv[q as int].len() == self.send_buffers@[q as int]@.len());
            let x = self.send_buffers[q].len() / self.delay;
            if x < m {
                m = x;
            }
            q = q + 1;
        }
        m
    }

    /// Extract and combine frames
    fn extract_combined(&mut self) -> (combined: Vec<u8>)
        requires
            forall|q: int|
                0 <= q < old(self).send_buffers@.len() ==> old(self).delay <= (#[trigger] old(
                    self,
                ).send_buffers@[q])@.len(),
        ensures
            final(self).delay == old(self).delay,
            final(self).send_buffers@.len() == old(self).send_buffers@.len(),
            (bufs_view(final(self).send_buffers@), combined@) == extract_spec(
                bufs_view(old(self).send_buffers@),
                old(self).delay,
            ),
    {
        let ghost orig = bufs_view(self.send_buffers@);
        let n = self.send_buffers.len();
        let mut combined: Vec<u8> = Vec::new();
        let mut r: usize = 0;
        while r < self.delay
            invariant
                r <= self.delay,
                self.delay == old(self).delay,
                n == self.send_buffers@.len(),
                orig.len() == n,
                forall|q: int| 0 <= q < n ==> self.delay <= (#[trigger] orig[q]).len(),
                forall|q: int| 0 <= q < n ==> #[trigger] bufs_view(self.send_buffers@)[q] == orig[q].skip(r as int),
                combined@ == interleave_rounds(orig, r as int),
            decreases self.delay - r,
        {
            let ghost c0 = combined@;
            let mut q: usize = 0;
            while q < n
                invariant
                    q <= n,
                    r < self.delay,
                    self.delay == old(self).delay,
                    n == self.send_buffers@.len(),
                    orig.len() == n,
                    forall|x: int| 0 <= x < n ==> self.delay <= (#[trigger] orig[x]).len(),
                    forall|x: int|
                        0 <= x < n ==> #[trigger] bufs_view(self.send_buffers@)[x] == if x < q {
                            orig[x].skip(r + 1)
                        } else {
                            orig[x].skip(r as int)
                        },
                    combined@ == c0 + frame_row(orig, r as int).take(q as int).flatten(),
                decreases n - q,
            {
                let ghost bb = bufs_view(self.send_buffers@);
                let ghost raw_q = self.send_buffers@[q as int]@;
                assert(bb[q as int] == raw_q.map_values(|c: Vec<u8>| c@));
                assert(orig[q as int].skip(r as int)[0] == orig[q as int][r as int]);
                assert(raw_q[0]@ == orig[q as int][r as int]);
                let frame = self.send_buffers[q].pop_front();
                match frame {
                    Some(f) => {
                        let ghost before = combined@;
                        let mut k: usize = 0;
                        while k < f.len()
                            invariant
                                k <= f@.len(),
                                combined@ == before + f@.take(k as int),
                            decreases f@.len() - k,
                        {
                            combined.push(f[k]);
                            k = k + 1;
                            assert(combined@ =~= before + f@.take(k as int));
                        }
                        assert(f@.take(f@.len() as int) =~= f@);
                        let ghost row = frame_row(orig, r as int);
                        assert(row.take(q + 1) =~= row.take(q as int).push(f@));
                        assert(row.take(q + 1).flatten() =~= row.take(q as int).flatten() + f@) by {
                            row.take(q as int).lemma_flatten_push(f@);
                        }
                    },
                    None => {
                        assert(false);
                    },
                }
                assert(self.send_buffers@[q as int]@ =~= raw_q.drop_first());
                assert forall|x: int| 0 <= x < n implies #[trigger] bufs_view(self.send_buffers@)[x]
                    == if x < q + 1 {
                    orig[x].skip(r + 1)
                } else {
                    orig[x].skip(r as int)
                } by {
                    if x == q {
                        assert forall|y: int| 0 <= y < raw_q.len() - 1 implies #[trigger] raw_q.drop_first()[y]@
                            == orig[x].skip(r + 1)[y] by {
                            assert(raw_q.drop_first()[y] == raw_q[y + 1]);
                            assert(bb[x][y + 1] == raw_q[y + 1]@);
                        }
                        assert(bufs_view(self.send_buffers@)[x] =~= orig[x].skip(r + 1));
                    } else {
                        assert(bufs_view(self.send_buffers@)[x] == bb[x]);
                    }
                }
                q = q + 1;
            }
            assert(frame_row(orig, r as int).take(n as int) =~= frame_row(orig, r as int));
            r = r + 1;
        }
        assert(bufs_view(self.send_buffers@) =~= Seq::new(
            orig.len(),
            |q: int| orig[q].skip(self.delay as int),
        ));
        combined
    }
}

/// Simple Game Sync Manager
#[derive(Debug, Clone)]
pub struct SimpleGameSync {
    player_count: usize,
    inputs: Vec<PlayerInput>,
    outputs: Vec<PlayerOutputState>,
    /// Output cache of each player (combined data it has received)
    output_caches: Vec<InputCache>,
    #[allow(dead_code)]
    use_preemptive_padding: bool,
}

impl View for SimpleGameSync {
    type V = SimpleSpec;

    closed spec fn view(&self) -> SimpleSpec {
        SimpleSpec {
            delays: self.inputs@.map_values(|p: PlayerInput| p.delay),
            client_caches: self.inputs@.map_values(|p: PlayerInput| p.client_cache@),
            send: self.outputs@.map_values(|o: PlayerOutputState| bufs_view(o.send_buffers@)),
            out_caches: caches_view(self.output_caches@),
        }
    }
}

pub proof fn lemma_min_ready(bufs: Seq<Seq<Seq<u8>>>, d: usize, k: int)
    requires
        1 <= k <= bufs.len(),
        d >= 1,
    ensures
        min_ready(bufs, d, k) >= 0,
        forall|q: int| 0 <= q < k ==> min_ready(bufs, d, k) * d <= #[trigger] bufs[q].len(),
    decreases k,
{
    if k > 1 {
        lemma_min_ready(bufs, d, k - 1);
    }
    assert forall|q: int| 0 <= q < k implies min_ready(bufs, d, k) * d <= #[trigger] bufs[q].len() by {
        let m = min_ready(bufs, d, k);
        let x = (bufs[q].len() as int) / (d as int);
        assert(x * d <= bufs[q].len()) by (nonlinear_arith)
            requires
                x == (bufs[q].len() as int) / (d as int),
                d >= 1,
        ;
        if q == k - 1 {
            assert(m <= x);
            assert(m * d <= x * d) by (nonlinear_arith)
                requires
                    m <= x,
                    d >= 1,
            ;
        } else {
            let m1 = min_ready(bufs, d, k - 1);
            assert(m <= m1);
            assert(m1 * d <= bufs[q].len());
            assert(m * d <= m1 * d) by (nonlinear_arith)
                requires
                    m <= m1,
                    d >= 1,
            ;
        }
    }
}

impl SimpleGameSync {
    pub closed spec fn wf(&self) -> bool {
        let n = self.player_count;
        &&& n >= 1
        &&& self.inputs@.len() == n
        &&& self.outputs@.len() == n
        &&& self.output_caches@.len() == n
        &&& caches_wf(self.output_caches@)
        &&& forall|p: int| 0 <= p < n ==> (#[trigger] self.inputs@[p]).wf()
        &&& forall|p: int| 0 <= p < n ==> (#[trigger] self.outputs@[p]).send_buffers@.len() == n
        &&& forall|p: int| 0 <= p < n ==> (#[trigger] self.outputs@[p]).delay == self.inputs@[p].delay
    }

    /// Create new sync manager with preemptive padding enabled (default)
    pub fn new(delays: Vec<usize>) -> (s: Self)
        requires
            delays_ok(delays@),
        ensures
            s.wf(),
            s@ == initial_spec(delays@, true),
    {
        Self::new_with_options(delays, true)
    }

    /// Create new sync manager without preemptive padding
    pub fn new_without_padding(delays: Vec<usize>) -> (s: Self)
        requires
            delays_ok(delays@),
        ensures
            s.wf(),
            s@ == initial_spec(delays@, false),
    {
        Self::new_with_options(delays, false)
    }

    /// Create new sync manager with custom options
    pub fn new_with_options(delays: Vec<usize>, use_preemptive_padding: bool) -> (s: Self)
        requires
            delays_ok(delays@),
        ensures
            s.wf(),
            s@ == initial_spec(delays@, use_preemptive_padding),
    {
        let player_count = delays.len();
        // smallest delay
        let mut min_delay_v = delays[0];
        let mut k: usize = 1;
        while k < player_count
            invariant
                1 <= k <= player_count,
                player_count == delays@.len(),
                min_delay_v == min_delay(delays@, k as int),
            decreases player_count - k,
        {
            if delays[k] < min_delay_v {
                min_delay_v = delays[k];
            }
            k = k + 1;
        }
        proof {
            lemma_min_delay(delays@, player_count as int);
        }
        let mut inputs: Vec<PlayerInput> = Vec::new();
        let mut outputs: Vec<PlayerOutputState> = Vec::new();
        let mut i: usize = 0;
        while i < player_count
            invariant
                i <= player_count,
                player_count == delays@.len(),
                delays_ok(delays@),
                inputs@.len() == i,
                outputs@.len() == i,
                forall|p: int| 0 <= p < i ==> (#[trigger] inputs@[p]).wf(),
                forall|p: int| 0 <= p < i ==> (#[trigger] inputs@[p]).delay == delays@[p],
                forall|p: int| 0 <= p < i ==> (#[trigger] inputs@[p]).client_cache@ == Seq::<Seq<u8>>::empty(),
                forall|p: int| 0 <= p < i ==> (#[trigger] inputs@[p]).frames@.len() == 0,
                forall|p: int| 0 <= p < i ==> (#[trigger] outputs@[p]).delay == delays@[p],
                forall|p: int|
                    0 <= p < i ==> bufs_view((#[trigger] outputs@[p]).send_buffers@) == Seq::new(
                        player_count as nat,
                        |j: int| Seq::<Seq<u8>>::empty(),
                    ),
                forall|p: int| 0 <= p < i ==> (#[trigger] outputs@[p]).send_buffers@.len() == player_count,
            decreases player_count - i,
        {
            inputs.push(PlayerInput::new(delays[i]));
            outputs.push(PlayerOutputState::new(player_count, delays[i]));
            i = i + 1;
        }
        let output_caches = crate::simplest_game_sync::empty_caches(player_count);
        let mut manager = Self {
            player_count,
            inputs,
            outputs,
            output_caches,
            use_preemptive_padding,
        };
        assert(manager@.delays =~= delays@);
        assert(manager@.client_caches =~= Seq::new(player_count as nat, |i: int| Seq::<Seq<u8>>::empty()));
        assert(manager@.send =~= Seq::new(
            player_count as nat,
            |p: int| Seq::new(player_count as nat, |q: int| Seq::<Seq<u8>>::empty()),
        ));
        if use_preemptive_padding {
            // every player with a larger delay than the smallest starts with
            // empty input frames, already in every send buffer
            let mut i: usize = 0;
            while i < player_count
                invariant
                    i <= player_count,
                    player_count == delays@.len(),
                    delays_ok(delays@),
                    min_delay_v == min_delay(delays@, player_count as int),
                    forall|p: int| 0 <= p < player_count ==> min_delay_v <= #[trigger] delays@[p],
                    manager.wf(),
                    manager.player_count == player_count,
                    manager@.delays == delays@,
                    manager@.client_caches == Seq::new(player_count as nat, |i: int| Seq::<Seq<u8>>::empty()),
                    manager@.out_caches == Seq::new(player_count as nat, |i: int| Seq::<Seq<u8>>::empty()),
                    forall|p: int, q: int|
                        0 <= p < player_count && 0 <= q < player_count ==> #[trigger] manager@.send[p][q]
                            == if q < i {
                            padding_frames(delays@[q] - min_delay_v)
                        } else {
                            Seq::<Seq<u8>>::empty()
                        },
                    manager@.send.len() == player_count,
                    forall|p: int| 0 <= p < player_count ==> (#[trigger] manager@.send[p]).len() == player_count,
                decreases player_count - i,
            {
                let padding = delays[i] - min_delay_v;
                let mut t: usize = 0;
                while t < padding
                    invariant
                        t <= padding,
                        i < player_count,
                        player_count == delays@.len(),
                        delays_ok(delays@),
                        manager.wf(),
                        manager.player_count == player_count,
                        manager@.delays == delays@,
                        manager@.client_caches == Seq::new(player_count as nat, |i: int| Seq::<Seq<u8>>::empty()),
                        manager@.out_caches == Seq::new(player_count as nat, |i: int| Seq::<Seq<u8>>::empty()),
                        forall|p: int, q: int|
                            0 <= p < player_count && 0 <= q < player_count ==> #[trigger] manager@.send[p][q]
                                == if q < i {
                                padding_frames(delays@[q] - min_delay_v)
                            } else if q == i {
                                padding_frames(t as int)
                            } else {
                                Seq::<Seq<u8>>::empty()
                            },
                        manager@.send.len() == player_count,
                        forall|p: int| 0 <= p < player_count ==> (#[trigger] manager@.send[p]).len() == player_count,
                    decreases padding - t,
                {
                    manager.push_frame_everywhere(i, 0u8, 0u8);
                    assert forall|p: int, q: int|
                        0 <= p < player_count && 0 <= q < player_count implies #[trigger] manager@.send[p][q]
                            == if q < i {
                            padding_frames(delays@[q] - min_delay_v)
                        } else if q == i {
                            padding_frames(t + 1)
                        } else {
                            Seq::<Seq<u8>>::empty()
                        } by {
                        if q == i {
                            assert(padding_frames(t + 1) =~= padding_frames(t as int).push(seq![0u8, 0u8]));
                        }
                    }
                    t = t + 1;
                }
                i = i + 1;
            }
            assert(manager@.send =~= initial_spec(delays@, true).send) by {
                assert forall|p: int| 0 <= p < player_count implies #[trigger] manager@.send[p] =~= initial_spec(delays@, true).send[p] by {}
            }
        } else {
            assert(manager@.send =~= initial_spec(delays@, false).send) by {
                assert forall|p: int| 0 <= p < player_count implies #[trigger] manager@.send[p] =~= initial_spec(delays@, false).send[p] by {}
            }
        }
        proof {
            let sp = initial_spec(delays@, use_preemptive_padding);
            assert(manager@.delays =~= sp.delays);
            assert(manager@.client_caches =~= sp.client_caches);
            assert(manager@.out_caches =~= sp.out_caches);
        }
        manager
    }

    /// Facts about the view that follow from well-formedness.
    proof fn lemma_view(&self)
        requires
            self.wf(),
        ensures
            self@.delays.len() == self.player_count,
            self@.client_caches.len() == self.player_count,
            self@.send.len() == self.player_count,
            self@.out_caches.len() == self.player_count,
            forall|p: int| 0 <= p < self.player_count ==> (#[trigger] self@.send[p]).len() == self.player_count,
            forall|p: int| 0 <= p < self.player_count ==> 1 <= #[trigger] self@.delays[p],
            forall|p: int| 0 <= p < self.player_count ==> (#[trigger] self@.client_caches[p]).len() <= CACHE_SLOTS,
            forall|p: int| 0 <= p < self.player_count ==> (#[trigger] self@.out_caches[p]).len() <= CACHE_SLOTS,
    {
        assert forall|p: int| 0 <= p < self.player_count implies (#[trigger] self@.send[p]).len() == self.player_count by {
            assert(self@.send[p] == bufs_view(self.outputs@[p].send_buffers@));
        }
        assert forall|p: int| 0 <= p < self.player_count implies 1 <= #[trigger] self@.delays[p] by {
            assert(self@.delays[p] == self.inputs@[p].delay);
        }
        assert forall|p: int| 0 <= p < self.player_count implies (#[trigger] self@.client_caches[p]).len() <= CACHE_SLOTS by {
            assert(self@.client_caches[p] == self.inputs@[p].client_cache@);
        }
        assert forall|p: int| 0 <= p < self.player_count implies (#[trigger] self@.out_caches[p]).len() <= CACHE_SLOTS by {
            assert(self.output_caches@[p].wf());
            assert(self@.out_caches[p] == self.output_caches@[p]@);
        }
    }

    /// Appends the frame [a b] from player `q` to every send buffer (and to
    /// the player's record of its frames).
    fn push_frame_everywhere(&mut self, q: usize, a: u8, b: u8)
        requires
            old(self).wf(),
            q < old(self).player_count,
        ensures
            final(self).wf(),
            final(self).player_count == old(self).player_count,
            final(self)@ == (SimpleSpec {
                send: Seq::new(
                    old(self)@.delays.len(),
                    |p: int| old(self)@.send[p].update(q as int, old(self)@.send[p][q as int].push(seq![a, b])),
                ),
                ..old(self)@
            }),
    {
        proof {
            old(self).lemma_view();
        }
        let mut frame: Vec<u8> = Vec::new();
        frame.push(a);
        frame.push(b);
        let ghost fv = frame@;
        assert(fv =~= seq![a, b]);
        let ghost in0 = self.inputs@;
        self.inputs[q].add_input(&frame);
        self.inputs[q].distributed_count = self.inputs[q].frames.len();
        assert forall|x: int| 0 <= x < in0.len() implies (#[trigger] self.inputs@[x]).delay == in0[x].delay
            && self.inputs@[x].client_cache == in0[x].client_cache && self.inputs@[x].wf() by {
            if x != q {
                assert(self.inputs@[x] == in0[x]);
            }
        }
        let ghost st1 = self@;
        assert(st1 == old(self)@) by {
            assert(st1.delays =~= old(self)@.delays);
            assert(st1.client_caches =~= old(self)@.client_caches);
        }
        let n = self.player_count;
        let mut p: usize = 0;
        while p < n
            invariant
                p <= n,
                n == self.player_count,
                n == old(self).player_count,
                q < n,
                fv == seq![a, b],
                frame@ == fv,
                self.inputs@.len() == n,
                forall|x: int| 0 <= x < n ==> (#[trigger] self.inputs@[x]).wf(),
                self.output_caches == old(self).output_caches,
                self.outputs@.len() == n,
                old(self).wf(),
                st1.send.len() == n,
                forall|x: int| 0 <= x < n ==> (#[trigger] st1.send[x]).len() == n,
                forall|x: int| 0 <= x < n ==> (#[trigger] self.outputs@[x]).send_buffers@.len() == n,
                forall|x: int| 0 <= x < n ==> (#[trigger] self.outputs@[x]).delay == self.inputs@[x].delay,
                self@.delays == st1.delays,
                self@.client_caches == st1.client_caches,
                self@.out_caches == st1.out_caches,
                forall|x: int|
                    0 <= x < n ==> #[trigger] self@.send[x] == if x < p {
                        st1.send[x].update(q as int, st1.send[x][q as int].push(fv))
                    } else {
                        st1.send[x]
                    },
            decreases n - p,
        {
            let ghost before = self@;
            let ghost ob = self.outputs@;
            let ghost raw = ob[p as int].send_buffers@[q as int]@;
            let c = copy_bytes(frame.as_slice());
            self.outputs[p].send_buffers[q].push_back(c);
            assert(self.outputs@[p as int].send_buffers@[q as int]@ =~= raw.push(c));
            assert(bufs_view(self.outputs@[p as int].send_buffers@) =~= bufs_view(ob[p as int].send_buffers@).update(
                q as int,
                bufs_view(ob[p as int].send_buffers@)[q as int].push(fv),
            )) by {
                assert(bufs_view(self.outputs@[p as int].send_buffers@)[q as int] =~= raw.push(c).map_values(|v: Vec<u8>| v@));
                assert(raw.push(c).map_values(|v: Vec<u8>| v@) =~= raw.map_values(|v: Vec<u8>| v@).push(fv));
                assert forall|y: int| 0 <= y < n && y != q implies #[trigger] self.outputs@[p as int].send_buffers@[y] == ob[p as int].send_buffers@[y] by {}
            }
            assert forall|x: int| 0 <= x < n implies #[trigger] self@.send[x] == if x < p + 1 {
                st1.send[x].update(q as int, st1.send[x][q as int].push(fv))
            } else {
                st1.send[x]
            } by {
                if x == p {
                    assert(before.send[x] == st1.send[x]);
                    assert(before.send[x] == bufs_view(ob[x].send_buffers@));
                    assert(self@.send[x] == bufs_view(self.outputs@[x].send_buffers@));
                } else {
                    assert(self.outputs@[x] == ob[x]);
                    assert(self@.send[x] == before.send[x]);
                }
            }
            assert(self@.delays =~= before.delays);
            assert(self@.client_caches =~= before.client_caches);
            p = p + 1;
        }
        assert(self@.send =~= Seq::new(
            old(self)@.delays.len(),
            |x: int| old(self)@.send[x].update(q as int, old(self)@.send[x][q as int].push(seq![a, b])),
        ));
    }

    /// Process client input and return outputs
    pub fn process_client_input(&mut self, player_id: usize, input: ClientInput) -> (outputs: Vec<
        PlayerOutput,
    >)
        requires
            old(self).wf(),
            input_ok(old(self)@, player_id, input@),
        ensures
            final(self).wf(),
            (final(self)@, responses_view(outputs@)) == process_spec(old(self)@, player_id, input@),
    {
        let ghost st0 = self@;
        let ghost inv = input@;
        // Resolve input data
        let input_data = match input {
            ClientInput::GameData(data) => {
                let copy = copy_bytes(data.as_slice());
                self.inputs[player_id].client_cache.push(copy);
                data
            },
            ClientInput::GameCache(pos) => {
                match self.inputs[player_id].client_cache.get(pos) {
                    Some(d) => copy_bytes(d),
                    None => {
                        assert(false);
                        Vec::new()
                    },
                }
            },
        };
        let ghost r = resolve_input_spec(st0.client_caches[player_id as int], inv);
        assert(input_data@ == r.1);
        let ghost st1 = self@;
        assert(st1 == (SimpleSpec {
            client_caches: st0.client_caches.update(player_id as int, r.0),
            ..st0
        })) by {
            assert(st1.client_caches =~= st0.client_caches.update(player_id as int, r.0));
            assert(st1.delays =~= st0.delays);
        }
        // Add to input buffer and distribute the new frames to every send buffer
        let mut i: usize = 0;
        let ghost mut k: int = 0;
        let ghost fr = frames_of(input_data@);
        proof {
            self.lemma_view();
            let s0 = Seq::new(
                st1.delays.len(),
                |p: int| st1.send[p].update(player_id as int, st1.send[p][player_id as int] + fr.take(0)),
            );
            assert forall|p: int| 0 <= p < st1.delays.len() implies #[trigger] s0[p] =~= st1.send[p] by {
                assert(st1.send[p][player_id as int] + fr.take(0) =~= st1.send[p][player_id as int]);
            }
            assert(s0 =~= st1.send);
            assert(self@ == (SimpleSpec { send: s0, ..st1 }));
        }
        while i <= input_data.len() && input_data.len() - i >= 2
            invariant
                i == 2 * k,
                0 <= k,
                i <= input_data@.len(),
                fr == frames_of(input_data@),
                player_id < self.player_count,
                self.wf(),
                self.player_count == old(self).player_count,
                self@ == (SimpleSpec {
                    send: Seq::new(
                        st1.delays.len(),
                        |p: int| st1.send[p].update(player_id as int, st1.send[p][player_id as int] + fr.take(k)),
                    ),
                    ..st1
                }),
                st1.send.len() == self.player_count,
                st1.delays.len() == self.player_count,
                forall|x: int| 0 <= x < self.player_count ==> (#[trigger] st1.send[x]).len() == self.player_count,
            decreases input_data@.len() - i,
        {
            let ghost before = self@;
            self.push_frame_everywhere(player_id, input_data[i], input_data[i + 1]);
            assert(fr[k] =~= seq![input_data@[i as int], input_data@[i + 1]]);
            assert(fr.take(k + 1) =~= fr.take(k).push(fr[k]));
            assert(self@.send =~= Seq::new(
                st1.delays.len(),
                |p: int| st1.send[p].update(player_id as int, st1.send[p][player_id as int] + fr.take(k + 1)),
            )) by {
                assert forall|p: int| 0 <= p < st1.delays.len() implies #[trigger] self@.send[p] =~= st1.send[p].update(player_id as int, st1.send[p][player_id as int] + fr.take(k + 1)) by {
                    assert(before.send[p] == st1.send[p].update(player_id as int, st1.send[p][player_id as int] + fr.take(k)));
                    assert(self@.send[p] == before.send[p].update(player_id as int, before.send[p][player_id as int].push(seq![input_data@[i as int], input_data@[i + 1]])));
                    assert(self@.send[p][player_id as int] =~= st1.send[p][player_id as int] + fr.take(k + 1));
                }
            }
            i = i + 2;
            proof {
                k = k + 1;
            }
        }
        assert(k == input_data@.len() / 2);
        assert(fr.take(k) =~= fr);
        // Try to generate outputs
        self.try_generate_outputs()
    }

    /// Try to generate outputs for all ready players
    fn try_generate_outputs(&mut self) -> (results: Vec<PlayerOutput>)
        requires
            old(self).wf(),
        ensures
            final(self).wf(),
            (final(self)@, responses_view(results@)) == generate_spec(old(self)@),
    {
        let n = self.player_count;
        let ghost st0 = self@;
        proof {
            self.lemma_view();
        }
        // how many outputs each player can receive
        let mut counts: Vec<usize> = Vec::new();
        let mut prio: Vec<usize> = Vec::new();
        let mut p: usize = 0;
        while p < n
            invariant
                p <= n,
                n == self.player_count,
                self.wf(),
                self@ == st0,
                counts@.len() == p,
                prio@.len() == p,
                forall|x: int| 0 <= x < p ==> #[trigger] counts@[x] == counts_spec(st0)[x],
                forall|x: int| 0 <= x < p ==> #[trigger] counts@[x] as int == ready_count(st0.send[x], st0.delays[x]),
                forall|x: int| 0 <= x < p ==> #[trigger] prio@[x] == st0.delays[x],
            decreases n - p,
        {
            assert(bufs_view(self.outputs@[p as int].send_buffers@) == st0.send[p as int]);
            counts.push(self.outputs[p].ready_count());
            prio.push(self.outputs[p].delay);
            p = p + 1;
        }
        assert(counts@ =~= counts_spec(st0));
        assert(prio@ =~= st0.delays);
        assert forall|x: int| 0 <= x < n implies #[trigger] counts_spec(st0)[x] as int == ready_count(st0.send[x], st0.delays[x]) by {
            assert(counts@[x] as int == ready_count(st0.send[x], st0.delays[x]));
        }
        proof {
            lemma_schedule_counts(counts@, prio@);
        }
        let sched = compute_schedule(counts, &prio);
        // the outputs are taken from the send buffers in schedule order
        let mut raws: Vec<RawOutput> = Vec::new();
        let mut i: usize = 0;
        assert(sched@.take(0) =~= Seq::<usize>::empty());
        assert(raws_view(raws@) =~= Seq::<(usize, Seq<u8>)>::empty());
        while i < sched.len()
            invariant
                i <= sched@.len(),
                n == self.player_count,
                self.wf(),
                sched@ == schedule(counts_spec(st0), st0.delays),
                forall|x: usize| (x as int) < n ==> #[trigger] count_occ(sched@, x) == counts_spec(st0)[x as int],
                forall|j: int| 0 <= j < sched@.len() ==> (#[trigger] sched@[j] as int) < n,
                self@.delays == st0.delays,
                self@.client_caches == st0.client_caches,
                self@.out_caches == st0.out_caches,
                (self@.send, raws_view(raws@)) == walk(st0.send, st0.delays, sched@.take(i as int)),
                forall|x: int, q: int|
                    0 <= x < n && 0 <= q < n ==> #[trigger] self@.send[x][q].len() == st0.send[x][q].len()
                        - st0.delays[x] * count_occ(sched@.take(i as int), x as usize),
                forall|j: int| 0 <= j < raws@.len() ==> (#[trigger] raws@[j]).player_id < n,
                st0.send.len() == n,
                st0.delays.len() == n,
                forall|x: int| 0 <= x < n ==> (#[trigger] st0.send[x]).len() == n,
                forall|x: int| 0 <= x < n ==> 1 <= #[trigger] st0.delays[x],
                forall|x: int| 0 <= x < n ==> #[trigger] counts_spec(st0)[x] as int == ready_count(st0.send[x], st0.delays[x]),
            decreases sched@.len() - i,
        {
            let pid = sched[i];
            proof {
                lemma_count_occ_take(sched@, i as int, pid);
                lemma_min_ready(st0.send[pid as int], st0.delays[pid as int], n as int);
                let c = count_occ(sched@.take(i as int), pid);
                let total = counts_spec(st0)[pid as int];
                let d = st0.delays[pid as int];
                assert(c + 1 <= total);
                assert forall|q: int| 0 <= q < n implies d <= #[trigger] self@.send[pid as int][q].len() by {
                    assert(total * d <= st0.send[pid as int][q].len());
                    assert(d <= st0.send[pid as int][q].len() - d * c) by (nonlinear_arith)
                        requires
                            c + 1 <= total,
                            total * d <= st0.send[pid as int][q].len(),
                            d >= 1,
                            c >= 0,
                    ;
                }
                assert forall|q: int| 0 <= q < n implies self.outputs@[pid as int].delay <= (#[trigger] self.outputs@[pid as int].send_buffers@[q])@.len() by {
                    assert(self@.send[pid as int][q] == bufs_view(self.outputs@[pid as int].send_buffers@)[q]);
                }
            }
            let ghost before = self@;
            let ghost raws_before = raws_view(raws@);
            let ghost ob = self.outputs@;
            let combined = self.outputs[pid].extract_combined();
            raws.push(RawOutput { player_id: pid, output: combined });
            proof {
                let taken = sched@.take(i + 1);
                assert(taken.drop_last() =~= sched@.take(i as int));
                assert(taken.last() == pid);
                assert(before.send[pid as int] == bufs_view(ob[pid as int].send_buffers@));
                assert(self@.send =~= before.send.update(pid as int, extract_spec(before.send[pid as int], st0.delays[pid as int]).0)) by {
                    assert forall|x: int| 0 <= x < n implies #[trigger] self@.send[x] == before.send.update(pid as int, extract_spec(before.send[pid as int], st0.delays[pid as int]).0)[x] by {
                        if x != pid {
                            assert(self.outputs@[x] == ob[x]);
                        }
                    }
                }
                assert(raws_view(raws@) =~= raws_before.push((pid, extract_spec(before.send[pid as int], st0.delays[pid as int]).1)));
                assert(self@.delays =~= before.delays);
                assert(self@.client_caches =~= before.client_caches);
                assert forall|x: int, q: int|
                    0 <= x < n && 0 <= q < n implies #[trigger] self@.send[x][q].len() == st0.send[x][q].len()
                        - st0.delays[x] * count_occ(sched@.take(i + 1), x as usize) by {
                    lemma_count_occ_take(sched@, i as int, x as usize);
                    let c = count_occ(sched@.take(i as int), x as usize);
                    if x == pid {
                        assert(self@.send[x][q].len() == before.send[x][q].len() - st0.delays[x]);
                        assert(st0.delays[x] * (c + 1) == st0.delays[x] * c + st0.delays[x]) by (nonlinear_arith);
                    } else {
                        assert(self@.send[x] == before.send[x]);
                    }
                }
            }
            i = i + 1;
        }
        assert(sched@.take(sched@.len() as int) =~= sched@);
        let ghost w = walk(st0.send, st0.delays, sched@);
        let results = respond_all(&mut self.output_caches, &raws);
        proof {
            assert(self@.send == w.0);
            assert(self@ == generate_spec(st0).0);
        }
        results
    }

    /// Get player delay
    pub fn get_player_delay(&self, player_id: usize) -> (d: usize)
        requires
            self.wf(),
            (player_id as int) < self@.delays.len(),
        ensures
            d == self@.delays[player_id as int],
    {
        self.inputs[player_id].delay
    }

    /// Get player count
    pub fn player_count(&self) -> (n: usize)
        requires
            self.wf(),
        ensures
            n == self@.delays.len(),
    {
        self.player_count
    }
}

proof fn lemma_row_flatten_len(bufs: Seq<Seq<Seq<u8>>>, r: int, k: int)
    requires
        0 <= k <= bufs.len(),
        forall|q: int| 0 <= q < bufs.len() ==> (#[trigger] bufs[q][r]).len() == 2,
    ensures
        frame_row(bufs, r).take(k).flatten().len() == 2 * k,
    decreases k,
{
    if k > 0 {
        lemma_row_flatten_len(bufs, r, k - 1);
        let t = frame_row(bufs, r).take(k);
        assert(t.drop_last() =~= frame_row(bufs, r).take(k - 1));
        t.drop_last().lemma_flatten_push(t.last());
        assert(t.drop_last().push(t.last()) =~= t);
    }
}

proof fn lemma_interleave_len(bufs: Seq<Seq<Seq<u8>>>, r: int)
    requires
        0 <= r,
        forall|q: int| 0 <= q < bufs.len() ==> r <= (#[trigger] bufs[q]).len(),
        forall|q: int, i: int|
            0 <= q < bufs.len() && 0 <= i < bufs[q].len() ==> (#[trigger] bufs[q][i]).len() == 2,
    ensures
        interleave_rounds(bufs, r).len() == r * (2 * bufs.len()),
    decreases r,
{
    if r > 0 {
        lemma_interleave_len(bufs, r - 1);
        lemma_row_flatten_len(bufs, r - 1, bufs.len() as int);
        assert(frame_row(bufs, r - 1).take(bufs.len() as int) =~= frame_row(bufs, r - 1));
        assert(r * (2 * bufs.len()) == (r - 1) * (2 * bufs.len()) + 2 * bufs.len()) by (nonlinear_arith);
        assert(interleave_rounds(bufs, r) == interleave_rounds(bufs, r - 1) + frame_row(bufs, r - 1).flatten());
    } else {
        assert(0 * (2 * bufs.len()) == 0);
    }
}

/// Walking a schedule that serves each player no more often than its
/// buffers allow: a player's `c`-th output is the next `delay` frames of
/// every source, from frame `c * delay` on, interleaved frame by frame.
proof fn lemma_simple_walk(send: Seq<Seq<Seq<Seq<u8>>>>, delays: Seq<usize>, sched: Seq<usize>)
    requires
        send.len() == delays.len(),
        send.len() <= usize::MAX,
        forall|p: int| 0 <= p < send.len() ==> (#[trigger] send[p]).len() == send.len(),
        forall|j: int| 0 <= j < sched.len() ==> (#[trigger] sched[j] as int) < send.len(),
        forall|p: int, q: int|
            0 <= p < send.len() && 0 <= q < send.len() ==> count_occ(sched, p as usize) * delays[p]
                <= (#[trigger] send[p][q]).len(),
    ensures
        walk(send, delays, sched).0.len() == send.len(),
        walk(send, delays, sched).1.len() == sched.len(),
        forall|p: int| 0 <= p < send.len() ==> (#[trigger] walk(send, delays, sched).0[p]).len() == send.len(),
        forall|p: int, q: int|
            0 <= p < send.len() && 0 <= q < send.len() ==> #[trigger] walk(send, delays, sched).0[p][q]
                == send[p][q].skip(count_occ(sched, p as usize) * delays[p]),
        forall|k: int|
            0 <= k < sched.len() ==> #[trigger] walk(send, delays, sched).1[k] == (
                sched[k],
                interleave_rounds(walk(send, delays, sched.take(k)).0[sched[k] as int], delays[sched[k] as int] as int),
            ),
    decreases sched.len(),
{
    let n = send.len();
    if sched.len() > 0 {
        let s0 = sched.drop_last();
        assert forall|p: int, q: int| 0 <= p < n && 0 <= q < n implies count_occ(s0, p as usize)
            * delays[p] <= (#[trigger] send[p][q]).len() by {
            let c0 = count_occ(s0, p as usize);
            let c = count_occ(sched, p as usize);
            let u = delays[p];
            assert(c0 <= c);
            assert(c0 * u <= c * u) by (nonlinear_arith)
                requires
                    c0 <= c,
            ;
        }
        lemma_simple_walk(send, delays, s0);
        let prev = walk(send, delays, s0);
        let p = sched.last();
        let u = delays[p as int];
        let e = extract_spec(prev.0[p as int], u);
        let w = walk(send, delays, sched);
        assert(w == (prev.0.update(p as int, e.0), prev.1.push((p, e.1))));
        assert forall|pp: int, q: int| 0 <= pp < n && 0 <= q < n implies #[trigger] w.0[pp][q]
            == send[pp][q].skip(count_occ(sched, pp as usize) * delays[pp]) by {
            let c0 = count_occ(s0, pp as usize);
            if pp == p {
                assert(count_occ(sched, pp as usize) == c0 + 1);
                assert((c0 + 1) * u == c0 * u + u) by (nonlinear_arith);
                assert(w.0[pp][q] =~= send[pp][q].skip(c0 * u).skip(u as int));
                assert(send[pp][q].skip(c0 * u).skip(u as int) =~= send[pp][q].skip((c0 + 1) * u));
            } else {
                assert((pp as usize) != p);
                assert(count_occ(sched, pp as usize) == c0);
            }
        }
        assert forall|k: int| 0 <= k < sched.len() implies #[trigger] w.1[k] == (
            sched[k],
            interleave_rounds(walk(send, delays, sched.take(k)).0[sched[k] as int], delays[sched[k] as int] as int),
        ) by {
            if k < sched.len() - 1 {
                assert(w.1[k] == prev.1[k]);
                assert(sched[k] == s0[k]);
                assert(s0.take(k) =~= sched.take(k));
            } else {
                assert(sched.take(k) =~= s0);
            }
        }
    } else {
        assert forall|p: int, q: int| 0 <= p < n && 0 <= q < n implies #[trigger] walk(
            send,
            delays,
            sched,
        ).0[p][q] == send[p][q].skip(count_occ(sched, p as usize) * delays[p]) by {
            assert(count_occ(sched, p as usize) == 0);
            assert(0 * delays[p] == 0);
            assert(send[p][q].skip(0) =~= send[p][q]);
        }
    }
}

/// The raw outputs of one round of sending.
pub open spec fn generate_raw(st: SimpleSpec) -> Seq<(usize, Seq<u8>)> {
    walk(st.send, st.delays, schedule(counts_spec(st), st.delays)).1
}

/// Frame interleaving: the output that goes to a player `p` for the `c`-th
/// time before it holds, from every source `q` in player order, the frames
/// `c * delay .. (c + 1) * delay` of what `q` sent to `p`, interleaved frame
/// by frame (frame 0 of every source, then frame 1, ...), so `n * delay * 2`
/// bytes; each source's frames reach `p` in the order they arrived. It is
/// answered from `p`'s output cache as it stands after the outputs before it.
#[verifier::spinoff_prover]
#[verifier::rlimit(40)]
pub proof fn law_frame_interleaving(st: SimpleSpec, k: int)
    requires
        st.delays.len() >= 1,
        st.delays.len() <= usize::MAX,
        st.send.len() == st.delays.len(),
        forall|p: int| 0 <= p < st.delays.len() ==> 1 <= #[trigger] st.delays[p],
        forall|p: int| 0 <= p < st.delays.len() ==> (#[trigger] st.send[p]).len() == st.delays.len(),
        forall|p: int, q: int, i: int|
            0 <= p < st.delays.len() && 0 <= q < st.delays.len() && 0 <= i < st.send[p][q].len()
                ==> (#[trigger] st.send[p][q][i]).len() == 2,
        forall|p: int, q: int|
            0 <= p < st.delays.len() && 0 <= q < st.delays.len() ==> (#[trigger] st.send[p][q]).len()
                <= usize::MAX,
        0 <= k < generate_raw(st).len(),
    ensures
        ({
            let n = st.delays.len();
            let raw = generate_raw(st);
            let p = raw[k].0 as int;
            let d = st.delays[p];
            let sched = schedule(counts_spec(st), st.delays);
            let c = count_occ(sched.take(k), p as usize);
            &&& p < n
            &&& forall|q: int| 0 <= q < n ==> (c + 1) * d <= #[trigger] st.send[p][q].len()
            &&& raw[k].1 == interleave_rounds(Seq::new(n, |q: int| st.send[p][q].skip(c * d)), d as int)
            &&& raw[k].1.len() == n * d * 2
            &&& generate_spec(st).1[k] == (
                raw[k].0,
                respond_spec(respond_fold(st.out_caches, raw.take(k)).0[p], raw[k].1).1,
            )
        }),
{
    let n = st.delays.len();
    let counts = counts_spec(st);
    let sched = schedule(counts, st.delays);
    lemma_schedule_counts(counts, st.delays);
    assert forall|p: int, q: int| 0 <= p < n && 0 <= q < n implies count_occ(sched, p as usize)
        * st.delays[p] <= (#[trigger] st.send[p][q]).len() by {
        lemma_min_ready(st.send[p], st.delays[p], n as int);
        assert(counts[p] == min_ready(st.send[p], st.delays[p], n as int) as usize);
    }
    lemma_simple_walk(st.send, st.delays, sched);
    let raw = generate_raw(st);
    let p = raw[k].0 as int;
    let d = st.delays[p];
    let c = count_occ(sched.take(k), p as usize);
    assert forall|pp: int, q: int| 0 <= pp < n && 0 <= q < n implies count_occ(sched.take(k), pp as usize)
        * st.delays[pp] <= (#[trigger] st.send[pp][q]).len() by {
        let ck = count_occ(sched.take(k), pp as usize);
        let ca = count_occ(sched, pp as usize);
        if k > 0 {
            lemma_count_occ_take(sched, k - 1, pp as usize);
        } else {
            assert(sched.take(k).len() == 0);
        }
        assert(ck * st.delays[pp] <= ca * st.delays[pp]) by (nonlinear_arith)
            requires
                ck <= ca,
        ;
    }
    lemma_simple_walk(st.send, st.delays, sched.take(k));
    lemma_count_occ_take(sched, k, p as usize);
    assert(sched.take(k + 1).drop_last() =~= sched.take(k));
    assert(count_occ(sched.take(k + 1), p as usize) == c + 1);
    assert forall|q: int| 0 <= q < n implies (c + 1) * d <= #[trigger] st.send[p][q].len() by {
        assert((c + 1) * d <= count_occ(sched, p as usize) * d) by (nonlinear_arith)
            requires
                c + 1 <= count_occ(sched, p as usize),
        ;
    }
    let bufs = walk(st.send, st.delays, sched.take(k)).0[p];
    assert(bufs =~= Seq::new(n, |q: int| st.send[p][q].skip(c * d)));
    assert forall|q: int| 0 <= q < bufs.len() implies d <= (#[trigger] bufs[q]).len() by {
        assert((c + 1) * d == c * d + d) by (nonlinear_arith);
    }
    assert forall|q: int, i: int| 0 <= q < bufs.len() && 0 <= i < bufs[q].len() implies (
    #[trigger] bufs[q][i]).len() == 2 by {
        assert(bufs[q][i] == st.send[p][q][c * d + i]);
    }
    lemma_interleave_len(bufs, d as int);
    assert(d * (2 * n) == n * d * 2) by (nonlinear_arith);
    law_respond_fold_each(st.out_caches, raw, k);
}

pub proof fn lemma_min_delay(delays: Seq<usize>, k: int)
    requires
        1 <= k <= delays.len(),
    ensures
        forall|p: int| 0 <= p < k ==> min_delay(delays, k) <= #[trigger] delays[p],
        exists|p: int| 0 <= p < k && min_delay(delays, k) == delays[p],
    decreases k,
{
    if k > 1 {
        lemma_min_delay(delays, k - 1);
        if delays[k - 1] < min_delay(delays, k - 1) {
            assert(min_delay(delays, k) == delays[k - 1]);
        } else {
            let p = choose|p: int| 0 <= p < k - 1 && min_delay(delays, k - 1) == delays[p];
            assert(min_delay(delays, k) == delays[p]);
        }
    } else {
        assert(min_delay(delays, k) == delays[0]);
    }
}

/// The state right after creation: empty caches; with padding, every send
/// buffer holds `delay - min_delay` empty frames from each player.
pub open spec fn initial_spec(delays: Seq<usize>, padding: bool) -> SimpleSpec {
    let n = delays.len();
    let m = min_delay(delays, n as int);
    SimpleSpec {
        delays,
        client_caches: Seq::new(n, |i: int| Seq::<Seq<u8>>::empty()),
        send: Seq::new(
            n,
            |p: int|
                Seq::new(
                    n,
                    |q: int|
                        if padding {
                            padding_frames(delays[q] - m)
                        } else {
                            Seq::<Seq<u8>>::empty()
                        },
                ),
        ),
        out_caches: Seq::new(n, |i: int| Seq::<Seq<u8>>::empty()),
    }
}

} // verus!
