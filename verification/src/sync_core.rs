//! Pieces shared by the game synchronisation engines: the client input and
//! server response messages, the 256-slot FIFO cache that both sides keep, the
//! per-player response step that turns combined data into Game Data or Game
//! Cache messages, and the order in which ready players are served.
use std::collections::VecDeque;
use vstd::prelude::*;

verus! {

/// Number of slots of every Kaillera cache.
pub const CACHE_SLOTS: usize = 256;

/// Client input message type
#[derive(Debug, Clone, PartialEq)]
pub enum ClientInput {
    /// Game Data: contains the actual input bytes
    GameData(Vec<u8>),
    /// Game Cache: references a position in the client's cache
    GameCache(u8),
}

/// Server response message type
#[derive(Debug, Clone, PartialEq)]
pub enum ServerResponse {
    /// Game Data: contains the full combined input bytes
    GameData(Vec<u8>),
    /// Game Cache: references a position in the server's cache
    GameCache(u8),
}

/// Mathematical form of a server response.
pub enum ResponseSpec {
    Data(Seq<u8>),
    Cache(u8),
}

impl View for ServerResponse {
    type V = ResponseSpec;

    open spec fn view(&self) -> ResponseSpec {
        match self {
            ServerResponse::GameData(d) => ResponseSpec::Data(d@),
            ServerResponse::GameCache(p) => ResponseSpec::Cache(*p),
        }
    }
}

/// Mathematical form of a client input.
pub enum InputSpec {
    Data(Seq<u8>),
    Cache(u8),
}

impl View for ClientInput {
    type V = InputSpec;

    open spec fn view(&self) -> InputSpec {
        match self {
            ClientInput::GameData(d) => InputSpec::Data(d@),
            ClientInput::GameCache(p) => InputSpec::Cache(*p),
        }
    }
}

/// A response addressed to one player.
#[derive(Debug, Clone, PartialEq)]
pub struct PlayerResponse {
    pub player_id: usize,
    pub response: ServerResponse,
}

impl View for PlayerResponse {
    type V = (usize, ResponseSpec);

    open spec fn view(&self) -> (usize, ResponseSpec) {
        (self.player_id, self.response@)
    }
}

/// The view of a list of addressed responses.
pub open spec fn responses_view(v: Seq<PlayerResponse>) -> Seq<(usize, ResponseSpec)> {
    v.map_values(|r: PlayerResponse| r@)
}

// ---------------------------------------------------------------------------
// The cache
// ---------------------------------------------------------------------------

/// The slots after storing `data`: appended at the end, the oldest slot
/// dropped first when all 256 are taken.
pub open spec fn cache_push_spec(slots: Seq<Seq<u8>>, data: Seq<u8>) -> Seq<Seq<u8>> {
    if slots.len() >= CACHE_SLOTS {
        slots.drop_first().push(data)
    } else {
        slots.push(data)
    }
}

/// Index of the newest slot that holds `data`, or -1.
pub open spec fn last_index_of(slots: Seq<Seq<u8>>, data: Seq<u8>) -> int
    decreases slots.len(),
{
    if slots.len() == 0 {
        -1
    } else if slots.last() == data {
        slots.len() - 1
    } else {
        last_index_of(slots.drop_last(), data)
    }
}

/// The position at which a cache lookup finds `data`: the newest slot that
/// holds it.
pub open spec fn cache_find_spec(slots: Seq<Seq<u8>>, data: Seq<u8>) -> Option<u8> {
    let i = last_index_of(slots, data);
    if i < 0 {
        None
    } else {
        Some(i as u8)
    }
}

pub proof fn lemma_last_index_of(slots: Seq<Seq<u8>>, data: Seq<u8>)
    ensures
        -1 <= last_index_of(slots, data) < slots.len(),
        last_index_of(slots, data) >= 0 ==> slots[last_index_of(slots, data)] == data,
        forall|j: int|
            last_index_of(slots, data) < j < slots.len() ==> #[trigger] slots[j] != data,
    decreases slots.len(),
{
    if slots.len() > 0 && slots.last() != data {
        lemma_last_index_of(slots.drop_last(), data);
        assert forall|j: int| last_index_of(slots, data) < j < slots.len() implies #[trigger] slots[j]
            != data by {
            if j < slots.len() - 1 {
                assert(slots[j] == slots.drop_last()[j]);
            }
        }
    }
}

/// The server's reply to combined data: a cache hit names the slot, a miss
/// sends the data and stores it.
pub open spec fn respond_spec(cache: Seq<Seq<u8>>, data: Seq<u8>) -> (Seq<Seq<u8>>, ResponseSpec) {
    match cache_find_spec(cache, data) {
        Some(pos) => (cache, ResponseSpec::Cache(pos)),
        None => (cache_push_spec(cache, data), ResponseSpec::Data(data)),
    }
}

/// What a receiver that keeps the same cache makes of a response: the data
/// it stands for, and its cache afterwards.
pub open spec fn decode_spec(cache: Seq<Seq<u8>>, r: ResponseSpec) -> (Seq<Seq<u8>>, Seq<u8>) {
    match r {
        ResponseSpec::Data(d) => (cache_push_spec(cache, d), d),
        ResponseSpec::Cache(pos) => (cache, cache[pos as int]),
    }
}

/// What a cache gives back for an input: Game Data stores its bytes, Game
/// Cache reads a slot (defined only for a slot that exists).
pub open spec fn resolve_input_spec(cache: Seq<Seq<u8>>, input: InputSpec) -> (Seq<Seq<u8>>, Seq<u8>) {
    match input {
        InputSpec::Data(d) => (cache_push_spec(cache, d), d),
        InputSpec::Cache(pos) => (cache, cache[pos as int]),
    }
}

/// Whether a Game Cache input names a slot that the cache holds.
pub open spec fn input_resolvable(cache: Seq<Seq<u8>>, input: InputSpec) -> bool {
    match input {
        InputSpec::Data(_) => true,
        InputSpec::Cache(pos) => (pos as int) < cache.len(),
    }
}

/// A receiver that mirrors the sender's cache recovers exactly the data that
/// was sent, and ends with the same cache as the sender: a Game Cache reply
/// names a slot that holds the data, a Game Data reply carries it.
pub proof fn lemma_respond_decode(cache: Seq<Seq<u8>>, data: Seq<u8>)
    requires
        cache.len() <= CACHE_SLOTS,
    ensures
        decode_spec(cache, respond_spec(cache, data).1) == (respond_spec(cache, data).0, data),
        respond_spec(cache, data).0.len() <= CACHE_SLOTS,
{
    lemma_last_index_of(cache, data);
}

/// Once stored, data is found again at the newest slot, and that slot reads
/// back the data.
pub proof fn lemma_push_then_find(cache: Seq<Seq<u8>>, data: Seq<u8>)
    requires
        cache.len() <= CACHE_SLOTS,
    ensures
        cache_find_spec(cache_push_spec(cache, data), data) == Some(
            (cache_push_spec(cache, data).len() - 1) as u8,
        ),
        cache_push_spec(cache, data)[cache_push_spec(cache, data).len() - 1] == data,
        cache_push_spec(cache, data).len() <= CACHE_SLOTS,
{
}

/// FIFO cache with 256 slots (rolls over to 0 when full)
#[derive(Debug, Clone)]
pub struct InputCache {
    slots: VecDeque<Vec<u8>>,
}

impl View for InputCache {
    type V = Seq<Seq<u8>>;

    closed spec fn view(&self) -> Seq<Seq<u8>> {
        self.slots@.map_values(|v: Vec<u8>| v@)
    }
}

/// Byte-wise equality of two slices.
pub fn bytes_equal(a: &[u8], b: &[u8]) -> (eq: bool)
    ensures
        eq == (a@ == b@),
{
    if a.len() != b.len() {
        return false;
    }
    let mut i: usize = 0;
    while i < a.len()
        invariant
            a@.len() == b@.len(),
            i <= a@.len(),
            forall|j: int| 0 <= j < i ==> a@[j] == b@[j],
        decreases a@.len() - i,
    {
        if a[i] != b[i] {
            return false;
        }
        i = i + 1;
    }
    assert(a@ =~= b@);
    true
}

/// A copy of a byte vector with the same contents.
pub fn copy_bytes(v: &[u8]) -> (out: Vec<u8>)
    ensures
        out@ == v@,
{
    let mut out: Vec<u8> = Vec::new();
    let mut i: usize = 0;
    while i < v.len()
        invariant
            i <= v@.len(),
            out@ == v@.take(i as int),
        decreases v@.len() - i,
    {
        out.push(v[i]);
        i = i + 1;
        assert(out@ =~= v@.take(i as int));
    }
    assert(v@.take(v@.len() as int) =~= v@);
    out
}

impl InputCache {
    /// The cache never holds more than 256 slots.
    pub open spec fn wf(&self) -> bool {
        self@.len() <= CACHE_SLOTS
    }

    /// An empty cache.
    pub fn new() -> (c: Self)
        ensures
            c@ == Seq::<Seq<u8>>::empty(),
            c.wf(),
    {
        let c = Self { slots: VecDeque::with_capacity(CACHE_SLOTS) };
        assert(c@ =~= Seq::<Seq<u8>>::empty());
        c
    }

    /// Number of slots in use.
    pub fn len(&self) -> (n: usize)
        ensures
            n == self@.len(),
    {
        self.slots.len()
    }

    /// Find data in cache, returning the position if found
    pub fn find(&self, data: &[u8]) -> (pos: Option<u8>)
        requires
            self.wf(),
        ensures
            pos == cache_find_spec(self@, data@),
    {
        let n = self.slots.len();
        let mut i = n;
        assert(self@.take(n as int) =~= self@);
        while i > 0
            invariant
                i <= n,
                n == self.slots@.len(),
                self@.len() == n,
                n <= CACHE_SLOTS,
                last_index_of(self@, data@) == last_index_of(self@.take(i as int), data@),
            decreases i,
        {
            let ghost pre = self@.take(i as int);
            assert(pre.drop_last() =~= self@.take(i - 1));
            assert(pre.last() == self@[i - 1]);
            if bytes_equal(self.slots[i - 1].as_slice(), data) {
                assert(self@[i - 1] == self.slots@[i - 1]@);
                return Some((i - 1) as u8);
            }
            i = i - 1;
        }
        None
    }

    /// Add data to cache (rolls over at 256)
    pub fn push(&mut self, data: Vec<u8>)
        requires
            old(self).wf(),
        ensures
            final(self)@ == cache_push_spec(old(self)@, data@),
            final(self).wf(),
    {
        let ghost d = data@;
        if self.slots.len() >= CACHE_SLOTS {
            self.slots.pop_front();
        }
        self.slots.push_back(data);
        assert(self@ =~= cache_push_spec(old(self)@, d));
    }

    /// Get data at position
    pub fn get(&self, pos: u8) -> (data: Option<&[u8]>)
        ensures
            (pos as int) < self@.len() ==> (data matches Some(d) && d@ == self@[pos as int]),
            (pos as int) >= self@.len() ==> data is None,
    {
        if (pos as usize) < self.slots.len() {
            Some(self.slots[pos as usize].as_slice())
        } else {
            None
        }
    }
}

/// The reply to `data` for a player whose output cache is `cache`.
pub fn respond_one(cache: &mut InputCache, data: Vec<u8>) -> (r: ServerResponse)
    requires
        old(cache).wf(),
    ensures
        final(cache).wf(),
        (final(cache)@, r@) == respond_spec(old(cache)@, data@),
{
    match cache.find(data.as_slice()) {
        Some(pos) => ServerResponse::GameCache(pos),
        None => {
            let copy = copy_bytes(data.as_slice());
            cache.push(copy);
            ServerResponse::GameData(data)
        },
    }
}

// ---------------------------------------------------------------------------
// Replies to a list of combined outputs
// ---------------------------------------------------------------------------

/// The views of a list of per-player caches.
pub open spec fn caches_view(v: Seq<InputCache>) -> Seq<Seq<Seq<u8>>> {
    v.map_values(|c: InputCache| c@)
}

pub open spec fn caches_wf(v: Seq<InputCache>) -> bool {
    forall|i: int| 0 <= i < v.len() ==> #[trigger] v[i].wf()
}

/// Combined bytes addressed to one player, before the cache step.
#[derive(Debug, PartialEq, Clone)]
pub struct RawOutput {
    pub player_id: usize,
    pub output: Vec<u8>,
}

impl View for RawOutput {
    type V = (usize, Seq<u8>);

    open spec fn view(&self) -> (usize, Seq<u8>) {
        (self.player_id, self.output@)
    }
}

/// The views of a list of raw outputs (player, combined bytes).
pub open spec fn raws_view(v: Seq<RawOutput>) -> Seq<(usize, Seq<u8>)> {
    v.map_values(|r: RawOutput| r@)
}

/// Each raw output is answered in order from its player's output cache.
pub open spec fn respond_fold(caches: Seq<Seq<Seq<u8>>>, raws: Seq<(usize, Seq<u8>)>) -> (
    Seq<Seq<Seq<u8>>>,
    Seq<(usize, ResponseSpec)>,
)
    decreases raws.len(),
{
    if raws.len() == 0 {
        (caches, Seq::empty())
    } else {
        let prev = respond_fold(caches, raws.drop_last());
        let p = raws.last().0;
        let step = respond_spec(prev.0[p as int], raws.last().1);
        (prev.0.update(p as int, step.0), prev.1.push((p, step.1)))
    }
}

/// The cache rule: data is answered by the position of the newest slot that
/// holds it when a slot does, and is otherwise sent whole and stored.
pub proof fn law_respond_cache_rule(cache: Seq<Seq<u8>>, data: Seq<u8>)
    requires
        cache.len() <= CACHE_SLOTS,
    ensures
        (respond_spec(cache, data).1 is Cache) <==> (exists|k: int| 0 <= k < cache.len() && #[trigger] cache[k] == data),
        respond_spec(cache, data).1 matches ResponseSpec::Cache(j) ==> {
            &&& cache[j as int] == data
            &&& forall|k: int| j < k < cache.len() ==> #[trigger] cache[k] != data
            &&& respond_spec(cache, data).0 == cache
        },
        respond_spec(cache, data).1 is Data ==> respond_spec(cache, data) == (
            cache_push_spec(cache, data),
            ResponseSpec::Data(data),
        ),
{
    lemma_last_index_of(cache, data);
    let i = last_index_of(cache, data);
    if i >= 0 {
        assert((i as u8) as int == i);
    }
}

/// Each output of a run of outputs is answered from its player's output
/// cache as it stands after the outputs before it.
pub proof fn law_respond_fold_each(caches: Seq<Seq<Seq<u8>>>, raws: Seq<(usize, Seq<u8>)>, k: int)
    requires
        0 <= k < raws.len(),
    ensures
        respond_fold(caches, raws).1.len() == raws.len(),
        respond_fold(caches, raws).1[k] == (
            raws[k].0,
            respond_spec(respond_fold(caches, raws.take(k)).0[raws[k].0 as int], raws[k].1).1,
        ),
    decreases raws.len(),
{
    if k < raws.len() - 1 {
        law_respond_fold_each(caches, raws.drop_last(), k);
        assert(raws.drop_last().take(k) =~= raws.take(k));
    } else {
        assert(raws.take(k) =~= raws.drop_last());
        if raws.len() > 1 {
            law_respond_fold_each(caches, raws.drop_last(), 0);
        }
    }
}

pub proof fn lemma_respond_fold_len(caches: Seq<Seq<Seq<u8>>>, raws: Seq<(usize, Seq<u8>)>)
    requires
        forall|k: int| 0 <= k < raws.len() ==> (#[trigger] raws[k]).0 < caches.len(),
    ensures
        respond_fold(caches, raws).0.len() == caches.len(),
        respond_fold(caches, raws).1.len() == raws.len(),
        forall|i: int|
            0 <= i < raws.len() ==> (#[trigger] respond_fold(caches, raws).1[i]).0 == raws[i].0,
    decreases raws.len(),
{
    if raws.len() > 0 {
        lemma_respond_fold_len(caches, raws.drop_last());
        let prev = respond_fold(caches, raws.drop_last());
        assert forall|i: int| 0 <= i < raws.len() implies (#[trigger] respond_fold(
            caches,
            raws,
        ).1[i]).0 == raws[i].0 by {
            if i < raws.len() - 1 {
                assert(respond_fold(caches, raws).1[i] == prev.1[i]);
                assert(raws.drop_last()[i] == raws[i]);
            }
        }
    }
}

/// Answers each raw output, in order, from its player's cache.
pub fn respond_all(caches: &mut Vec<InputCache>, raws: &Vec<RawOutput>) -> (out: Vec<
    PlayerResponse,
>)
    requires
        caches_wf(old(caches)@),
        forall|k: int| 0 <= k < raws@.len() ==> (#[trigger] raws@[k]).player_id < old(caches)@.len(),
    ensures
        caches_wf(final(caches)@),
        final(caches)@.len() == old(caches)@.len(),
        (caches_view(final(caches)@), responses_view(out@)) == respond_fold(
            caches_view(old(caches)@),
            raws_view(raws@),
        ),
{
    let ghost init = caches_view(caches@);
    let mut out: Vec<PlayerResponse> = Vec::new();
    let mut k: usize = 0;
    assert(raws_view(raws@).take(0) =~= Seq::<(usize, Seq<u8>)>::empty());
    assert(responses_view(out@) =~= Seq::<(usize, ResponseSpec)>::empty());
    while k < raws.len()
        invariant
            k <= raws@.len(),
            caches@.len() == old(caches)@.len(),
            caches_wf(caches@),
            forall|j: int| 0 <= j < raws@.len() ==> (#[trigger] raws@[j]).player_id < old(caches)@.len(),
            (caches_view(caches@), responses_view(out@)) == respond_fold(
                init,
                raws_view(raws@).take(k as int),
            ),
        decreases raws@.len() - k,
    {
        let p = raws[k].player_id;
        let data = copy_bytes(raws[k].output.as_slice());
        let ghost before = caches_view(caches@);
        let ghost out_before = responses_view(out@);
        let r = respond_one(&mut caches[p], data);
        let ghost rv = r@;
        out.push(PlayerResponse { player_id: p, response: r });
        let ghost rv_taken = raws_view(raws@).take(k + 1);
        assert(rv_taken.drop_last() =~= raws_view(raws@).take(k as int));
        assert(rv_taken.last() == (p, raws@[k as int].output@));
        assert(caches_view(caches@) =~= before.update(
            p as int,
            respond_spec(before[p as int], raws@[k as int].output@).0,
        ));
        assert(responses_view(out@) =~= out_before.push((p, rv)));
        k = k + 1;
    }
    assert(raws_view(raws@).take(raws@.len() as int) =~= raws_view(raws@));
    out
}

// ---------------------------------------------------------------------------
// The order in which ready players are served
// ---------------------------------------------------------------------------

pub open spec fn seq_sum(s: Seq<usize>) -> int
    decreases s.len(),
{
    if s.len() == 0 {
        0
    } else {
        seq_sum(s.drop_last()) + s.last()
    }
}

/// The smallest priority among the first `k` entries that still have
/// pending outputs.
pub open spec fn min_prio_upto(rem: Seq<usize>, prio: Seq<usize>, k: int) -> Option<usize>
    decreases k,
{
    if k <= 0 {
        None
    } else {
        let m = min_prio_upto(rem, prio, k - 1);
        if rem[k - 1] > 0 {
            match m {
                None => Some(prio[k - 1]),
                Some(x) => Some(
                    if prio[k - 1] < x {
                        prio[k - 1]
                    } else {
                        x
                    },
                ),
            }
        } else {
            m
        }
    }
}

/// The entries among the first `k` with pending outputs and priority `m`,
/// in increasing order.
pub open spec fn group_upto(rem: Seq<usize>, prio: Seq<usize>, m: usize, k: int) -> Seq<usize>
    decreases k,
{
    if k <= 0 {
        Seq::empty()
    } else {
        let g = group_upto(rem, prio, m, k - 1);
        if rem[k - 1] > 0 && prio[k - 1] == m {
            g.push((k - 1) as usize)
        } else {
            g
        }
    }
}

/// The pending counts after one output for every member of the group.
pub open spec fn dec_group(rem: Seq<usize>, prio: Seq<usize>, m: usize) -> Seq<usize> {
    Seq::new(
        rem.len(),
        |i: int|
            if rem[i] > 0 && prio[i] == m {
                (rem[i] - 1) as usize
            } else {
                rem[i]
            },
    )
}

pub proof fn lemma_min_prio_upto(rem: Seq<usize>, prio: Seq<usize>, k: int)
    requires
        0 <= k <= rem.len(),
    ensures
        min_prio_upto(rem, prio, k) is None <==> (forall|p: int| 0 <= p < k ==> rem[p] == 0),
        min_prio_upto(rem, prio, k) matches Some(m) ==> exists|p: int|
            0 <= p < k && rem[p] > 0 && prio[p] == m,
        min_prio_upto(rem, prio, k) matches Some(m) ==> forall|p: int|
            0 <= p < k && rem[p] > 0 ==> m <= prio[p],
    decreases k,
{
    if k > 0 {
        lemma_min_prio_upto(rem, prio, k - 1);
    }
}

pub proof fn lemma_seq_sum_pointwise(a: Seq<usize>, b: Seq<usize>)
    requires
        a.len() == b.len(),
        forall|i: int| 0 <= i < a.len() ==> b[i] <= a[i],
    ensures
        seq_sum(b) <= seq_sum(a),
        (exists|i: int| 0 <= i < a.len() && b[i] < a[i]) ==> seq_sum(b) < seq_sum(a),
    decreases a.len(),
{
    if a.len() > 0 {
        lemma_seq_sum_pointwise(a.drop_last(), b.drop_last());
        if exists|i: int| 0 <= i < a.len() && b[i] < a[i] {
            let i = choose|i: int| 0 <= i < a.len() && b[i] < a[i];
            if i < a.len() - 1 {
                assert(a.drop_last()[i] == a[i]);
                assert(b.drop_last()[i] == b[i]);
            }
        }
    }
}

pub proof fn lemma_seq_sum_nonneg(a: Seq<usize>)
    ensures
        seq_sum(a) >= 0,
    decreases a.len(),
{
    if a.len() > 0 {
        lemma_seq_sum_nonneg(a.drop_last());
    }
}

pub proof fn lemma_dec_group_smaller(rem: Seq<usize>, prio: Seq<usize>, m: usize)
    requires
        exists|p: int| 0 <= p < rem.len() && rem[p] > 0 && prio[p] == m,
    ensures
        seq_sum(dec_group(rem, prio, m)) < seq_sum(rem),
        seq_sum(dec_group(rem, prio, m)) >= 0,
{
    let d = dec_group(rem, prio, m);
    let p = choose|p: int| 0 <= p < rem.len() && rem[p] > 0 && prio[p] == m;
    assert(d[p] < rem[p]);
    lemma_seq_sum_pointwise(rem, d);
    lemma_seq_sum_nonneg(d);
}

/// The order in which outputs are produced: in each step, every entry with
/// outputs pending and the smallest priority among them produces one, in
/// increasing order; until none is pending.
pub open spec fn schedule(rem: Seq<usize>, prio: Seq<usize>) -> Seq<usize>
    decreases seq_sum(rem),
{
    match min_prio_upto(rem, prio, rem.len() as int) {
        None => Seq::empty(),
        Some(m) => {
            proof {
                lemma_min_prio_upto(rem, prio, rem.len() as int);
                lemma_dec_group_smaller(rem, prio, m);
            }
            group_upto(rem, prio, m, rem.len() as int) + schedule(dec_group(rem, prio, m), prio)
        },
    }
}

/// Number of occurrences of `x` in `s`.
pub open spec fn count_occ(s: Seq<usize>, x: usize) -> nat
    decreases s.len(),
{
    if s.len() == 0 {
        0
    } else {
        count_occ(s.drop_last(), x) + if s.last() == x {
            1nat
        } else {
            0nat
        }
    }
}

pub proof fn lemma_count_occ_concat(a: Seq<usize>, b: Seq<usize>, x: usize)
    ensures
        count_occ(a + b, x) == count_occ(a, x) + count_occ(b, x),
    decreases b.len(),
{
    if b.len() == 0 {
        assert(a + b =~= a);
    } else {
        assert((a + b).drop_last() =~= a + b.drop_last());
        lemma_count_occ_concat(a, b.drop_last(), x);
    }
}

pub proof fn lemma_count_occ_take(s: Seq<usize>, i: int, x: usize)
    requires
        0 <= i < s.len(),
    ensures
        count_occ(s.take(i + 1), x) == count_occ(s.take(i), x) + if s[i] == x {
            1nat
        } else {
            0nat
        },
        count_occ(s.take(i + 1), x) <= count_occ(s, x),
    decreases s.len(),
{
    assert(s.take(i + 1).drop_last() =~= s.take(i));
    if i + 1 < s.len() {
        lemma_count_occ_take(s.drop_last(), i, x);
        assert(s.drop_last().take(i + 1) =~= s.take(i + 1));
        assert(s.drop_last().take(i) =~= s.take(i));
    } else {
        assert(s.take(i + 1) =~= s);
    }
}

pub proof fn lemma_group_upto(rem: Seq<usize>, prio: Seq<usize>, m: usize, k: int, x: usize)
    requires
        0 <= k <= rem.len(),
        rem.len() <= usize::MAX,
    ensures
        count_occ(group_upto(rem, prio, m, k), x) == if (x as int) < k && rem[x as int] > 0
            && prio[x as int] == m {
            1nat
        } else {
            0nat
        },
        forall|j: int|
            0 <= j < group_upto(rem, prio, m, k).len() ==> (#[trigger] group_upto(
                rem,
                prio,
                m,
                k,
            )[j] as int) < k,
    decreases k,
{
    if k > 0 {
        lemma_group_upto(rem, prio, m, k - 1, x);
        let g = group_upto(rem, prio, m, k - 1);
        if rem[k - 1] > 0 && prio[k - 1] == m {
            assert(g.push((k - 1) as usize).drop_last() =~= g);
        }
    }
}

/// Every entry appears in the schedule exactly as many times as it has
/// outputs pending, and only valid entries appear.
pub proof fn lemma_schedule_counts(rem: Seq<usize>, prio: Seq<usize>)
    requires
        rem.len() <= usize::MAX,
    ensures
        forall|x: usize| (x as int) < rem.len() ==> #[trigger] count_occ(schedule(rem, prio), x) == rem[x as int],
        forall|j: int|
            0 <= j < schedule(rem, prio).len() ==> (#[trigger] schedule(rem, prio)[j] as int) < rem.len(),
    decreases seq_sum(rem),
{
    lemma_min_prio_upto(rem, prio, rem.len() as int);
    match min_prio_upto(rem, prio, rem.len() as int) {
        None => {
            assert forall|x: usize| (x as int) < rem.len() implies #[trigger] count_occ(
                schedule(rem, prio),
                x,
            ) == rem[x as int] by {}
        },
        Some(m) => {
            lemma_dec_group_smaller(rem, prio, m);
            let d = dec_group(rem, prio, m);
            let g = group_upto(rem, prio, m, rem.len() as int);
            lemma_schedule_counts(d, prio);
            assert(schedule(rem, prio) == g + schedule(d, prio));
            assert forall|x: usize| (x as int) < rem.len() implies #[trigger] count_occ(
                schedule(rem, prio),
                x,
            ) == rem[x as int] by {
                lemma_count_occ_concat(g, schedule(d, prio), x);
                lemma_group_upto(rem, prio, m, rem.len() as int, x);
            }
            assert forall|j: int| 0 <= j < schedule(rem, prio).len() implies (#[trigger] schedule(
                rem,
                prio,
            )[j] as int) < rem.len() by {
                lemma_group_upto(rem, prio, m, rem.len() as int, 0);
                if j >= g.len() {
                    assert(schedule(rem, prio)[j] == schedule(d, prio)[j - g.len()]);
                }
            }
        },
    }
}

/// The order in which outputs are produced for the pending counts `counts`
/// and priorities `prio` (see `schedule`).
pub fn compute_schedule(counts: Vec<usize>, prio: &Vec<usize>) -> (sched: Vec<usize>)
    requires
        prio@.len() == counts@.len(),
    ensures
        sched@ == schedule(counts@, prio@),
{
    let n = counts.len();
    let mut rem = counts;
    let mut sched: Vec<usize> = Vec::new();
    loop
        invariant
            rem@.len() == n,
            prio@.len() == n,
            schedule(counts@, prio@) == sched@ + schedule(rem@, prio@),
        decreases seq_sum(rem@),
    {
        // smallest priority among entries with pending outputs
        let mut min: Option<usize> = None;
        let mut k: usize = 0;
        while k < n
            invariant
                k <= n,
                rem@.len() == n,
                prio@.len() == n,
                min == min_prio_upto(rem@, prio@, k as int),
            decreases n - k,
        {
            if rem[k] > 0 {
                min = match min {
                    None => Some(prio[k]),
                    Some(x) => Some(
                        if prio[k] < x {
                            prio[k]
                        } else {
                            x
                        },
                    ),
                };
            }
            k = k + 1;
        }
        match min {
            None => {
                assert(schedule(rem@, prio@) =~= Seq::<usize>::empty());
                assert(sched@ + Seq::<usize>::empty() =~= sched@);
                return sched;
            },
            Some(m) => {
                proof {
                    lemma_min_prio_upto(rem@, prio@, n as int);
                    lemma_dec_group_smaller(rem@, prio@, m);
                }
                let ghost old_sched = sched@;
                let mut next: Vec<usize> = Vec::new();
                let mut i: usize = 0;
                while i < n
                    invariant
                        i <= n,
                        rem@.len() == n,
                        prio@.len() == n,
                        sched@ == old_sched + group_upto(rem@, prio@, m, i as int),
                        next@ =~= dec_group(rem@, prio@, m).take(i as int),
                    decreases n - i,
                {
                    if rem[i] > 0 && prio[i] == m {
                        sched.push(i);
                        next.push(rem[i] - 1);
                    } else {
                        next.push(rem[i]);
                    }
                    i = i + 1;
                }
                assert(next@ =~= dec_group(rem@, prio@, m));
                proof {
                    assert(schedule(rem@, prio@) == group_upto(rem@, prio@, m, n as int) + schedule(
                        dec_group(rem@, prio@, m),
                        prio@,
                    ));
                    assert(old_sched + (group_upto(rem@, prio@, m, n as int) + schedule(
                        next@,
                        prio@,
                    )) =~= sched@ + schedule(next@, prio@));
                }
                rem = next;
            },
        }
    }
}

} // verus!
