//! The 256-slot cache of game data that a client and the server keep in
//! step, and the decisions the frame processor makes with it: what a
//! client's message stands for, and whether an aggregated frame goes out as
//! data or as a cache position.
use std::collections::VecDeque;
use vstd::prelude::*;

verus! {

pub const CACHE_SIZE: usize = 256;

/// Index of the oldest slot that holds `data`, or -1.
pub open spec fn first_index_of(slots: Seq<Seq<u8>>, data: Seq<u8>) -> int
    decreases slots.len(),
{
    if slots.len() == 0 {
        -1
    } else if slots[0] == data {
        0
    } else {
        let i = first_index_of(slots.drop_first(), data);
        if i < 0 {
            -1
        } else {
            i + 1
        }
    }
}

pub proof fn lemma_first_index_of(slots: Seq<Seq<u8>>, data: Seq<u8>)
    ensures
        -1 <= first_index_of(slots, data) < slots.len(),
        first_index_of(slots, data) >= 0 ==> slots[first_index_of(slots, data)] == data,
        forall|j: int|
            0 <= j < slots.len() && (first_index_of(slots, data) < 0 || j < first_index_of(
                slots,
                data,
            )) ==> #[trigger] slots[j] != data,
    decreases slots.len(),
{
    if slots.len() > 0 && slots[0] != data {
        lemma_first_index_of(slots.drop_first(), data);
        assert forall|j: int|
            0 <= j < slots.len() && (first_index_of(slots, data) < 0 || j < first_index_of(
                slots,
                data,
            )) implies #[trigger] slots[j] != data by {
            if j > 0 {
                assert(slots[j] == slots.drop_first()[j - 1]);
            }
        }
    }
}

/// The slots after adding `data`: appended, the oldest dropped first when
/// all 256 are taken.
pub open spec fn add_spec(slots: Seq<Seq<u8>>, data: Seq<u8>) -> Seq<Seq<u8>> {
    if slots.len() == CACHE_SIZE {
        slots.drop_first().push(data)
    } else {
        slots.push(data)
    }
}

/// Represents a cache for storing game data packets.
#[derive(Debug, Clone)]
pub struct GameCache {
    /// A deque to hold cached game data.
    cache: VecDeque<Vec<u8>>,
}

impl View for GameCache {
    type V = Seq<Seq<u8>>;

    closed spec fn view(&self) -> Seq<Seq<u8>> {
        self.cache@.map_values(|v: Vec<u8>| v@)
    }
}

impl Default for GameCache {
    fn default() -> (c: Self)
        ensures
            c@ == Seq::<Seq<u8>>::empty(),
            c.wf(),
    {
        Self::new()
    }
}

impl GameCache {
    /// The cache never holds more than 256 slots.
    pub open spec fn wf(&self) -> bool {
        self@.len() <= CACHE_SIZE
    }

    /// Creates a new GameCache with a fixed size.
    pub fn new() -> (c: Self)
        ensures
            c@ == Seq::<Seq<u8>>::empty(),
            c.wf(),
    {
        let c = Self { cache: VecDeque::with_capacity(CACHE_SIZE) };
        assert(c@ =~= Seq::<Seq<u8>>::empty());
        c
    }

    /// Searches for the game data in the cache.
    /// Returns `Some(position)` if found, otherwise `None`.
    pub fn find(&self, data: &Vec<u8>) -> (pos: Option<u8>)
        requires
            self.wf(),
        ensures
            first_index_of(self@, data@) < 0 ==> pos.is_none(),
            first_index_of(self@, data@) >= 0 ==> pos == Some(first_index_of(self@, data@) as u8),
    {
        proof {
            lemma_first_index_of(self@, data@);
        }
        let mut i: usize = 0;
        while i < self.cache.len()
            invariant
                i <= self@.len(),
                self@.len() <= CACHE_SIZE,
                self@.len() == self.cache@.len(),
                -1 <= first_index_of(self@, data@) < self@.len(),
                first_index_of(self@, data@) >= 0 ==> self@[first_index_of(self@, data@)] == data@,
                forall|j: int|
                    0 <= j < self@.len() && (first_index_of(self@, data@) < 0 || j < first_index_of(
                        self@,
                        data@,
                    )) ==> #[trigger] self@[j] != data@,
                first_index_of(self@, data@) < 0 || i <= first_index_of(self@, data@),
            decreases self@.len() - i,
        {
            assert(self@[i as int] == self.cache@[i as int]@);
            if crate::sync_core::bytes_equal(self.cache[i].as_slice(), data.as_slice()) {
                return Some(i as u8);
            }
            i = i + 1;
        }
        None
    }

    /// Adds new game data to the cache.
    /// If the cache is full, it removes the oldest entry.
    /// Returns the position where the data was added.
    pub fn add(&mut self, data: Vec<u8>) -> (pos: u8)
        requires
            old(self).wf(),
        ensures
            final(self).wf(),
            final(self)@ == add_spec(old(self)@, data@),
            pos == final(self)@.len() - 1,
            final(self)@[pos as int] == data@,
    {
        let ghost d = data@;
        if self.cache.len() == CACHE_SIZE {
            self.cache.pop_front();
        }
        self.cache.push_back(data);
        assert(self@ =~= add_spec(old(self)@, d));
        (self.cache.len() - 1) as u8
    }

    /// Retrieves game data from the cache by position.
    pub fn get(&self, position: u8) -> (r: Option<&Vec<u8>>)
        ensures
            (position as int) < self@.len() ==> (r matches Some(v) && v@ == self@[position as int]),
            (position as int) >= self@.len() ==> r.is_none(),
    {
        if (position as usize) < self.cache.len() {
            Some(&self.cache[position as usize])
        } else {
            None
        }
    }
}

/// Once added, data is found again in the cache, at a slot that reads back
/// the data.
pub proof fn lemma_add_then_find(slots: Seq<Seq<u8>>, data: Seq<u8>)
    requires
        slots.len() <= CACHE_SIZE,
    ensures
        0 <= first_index_of(add_spec(slots, data), data) < add_spec(slots, data).len(),
        add_spec(slots, data)[first_index_of(add_spec(slots, data), data)] == data,
        add_spec(slots, data).len() <= CACHE_SIZE,
{
    let s = add_spec(slots, data);
    lemma_first_index_of(s, data);
    assert(s[s.len() - 1] == data);
}

/// Represents the result of processing a frame.
pub struct FrameResult {
    pub frame_index: usize,
    pub use_cache: bool,
    pub cache_pos: u8,
    pub data_to_send: Vec<u8>,
    pub aggregated_data: Vec<u8>,
}

/// What a client's message stands for: one byte names a slot of the client's
/// cache; anything else is new data, which the cache stores. `None` where the
/// named slot does not exist.
pub open spec fn incoming_spec(cache: Seq<Seq<u8>>, data: Seq<u8>) -> (Seq<Seq<u8>>, Option<Seq<u8>>) {
    if data.len() == 1 {
        if (data[0] as int) < cache.len() {
            (cache, Some(cache[data[0] as int]))
        } else {
            (cache, None)
        }
    } else {
        (add_spec(cache, data), Some(data))
    }
}

pub open spec fn bytes_opt_view(o: Option<Vec<u8>>) -> Option<Seq<u8>> {
    match o {
        Some(v) => Some(v@),
        None => None,
    }
}

/// The data a client's message stands for, resolved through the client's
/// receive cache (see `incoming_spec`).
pub fn resolve_incoming(receive_cache: &mut GameCache, data: Vec<u8>) -> (r: Option<Vec<u8>>)
    requires
        old(receive_cache).wf(),
    ensures
        final(receive_cache).wf(),
        (final(receive_cache)@, bytes_opt_view(r)) == incoming_spec(old(receive_cache)@, data@),
{
    if data.len() == 1 {
        let position = data[0];
        match receive_cache.get(position) {
            Some(cached_data) => Some(cached_data.clone()),
            None => None,
        }
    } else {
        receive_cache.add(data.clone());
        Some(data)
    }
}

/// How an aggregated frame goes out: a cache hit sends the position and no
/// data; a miss stores the frame and sends it with its new position.
pub open spec fn outgoing_spec(cache: Seq<Seq<u8>>, data: Seq<u8>) -> (Seq<Seq<u8>>, (bool, u8, Seq<u8>)) {
    let i = first_index_of(cache, data);
    if i >= 0 {
        (cache, (true, i as u8, Seq::empty()))
    } else {
        let c = add_spec(cache, data);
        (c, (false, (c.len() - 1) as u8, data))
    }
}

/// Prepares outgoing game data to send to clients.
pub fn prepare_outgoing(aggregated_cache: &mut GameCache, data: Vec<u8>) -> (r: (bool, u8, Vec<u8>))
    requires
        old(aggregated_cache).wf(),
    ensures
        final(aggregated_cache).wf(),
        (final(aggregated_cache)@, (r.0, r.1, r.2@)) == outgoing_spec(old(aggregated_cache)@, data@),
{
    if let Some(pos) = aggregated_cache.find(&data) {
        (true, pos, Vec::new())
    } else {
        let pos = aggregated_cache.add(data.clone());
        (false, pos, data)
    }
}

/// The frame of every client's next input, in the order given: their
/// concatenation, answered through the aggregated cache.
pub open spec fn frame_spec(cache: Seq<Seq<u8>>, inputs: Seq<Seq<u8>>) -> (Seq<Seq<u8>>, (bool, u8, Seq<u8>), Seq<u8>) {
    let data = inputs.flatten();
    let o = outgoing_spec(cache, data);
    (o.0, o.1, data)
}

/// Forms frame `frame_index` from the clients' next inputs, in the order
/// given (see `frame_spec`).
pub fn form_frame(aggregated_cache: &mut GameCache, frame_index: usize, inputs: &Vec<Vec<u8>>) -> (r: FrameResult)
    requires
        old(aggregated_cache).wf(),
    ensures
        final(aggregated_cache).wf(),
        r.frame_index == frame_index,
        (final(aggregated_cache)@, (r.use_cache, r.cache_pos, r.data_to_send@), r.aggregated_data@) == frame_spec(
            old(aggregated_cache)@,
            inputs@.map_values(|v: Vec<u8>| v@),
        ),
{
    let ghost ins = inputs@.map_values(|v: Vec<u8>| v@);
    let mut frame_data: Vec<u8> = Vec::new();
    let mut i: usize = 0;
    while i < inputs.len()
        invariant
            i <= inputs@.len(),
            ins == inputs@.map_values(|v: Vec<u8>| v@),
            frame_data@ == ins.take(i as int).flatten(),
        decreases inputs@.len() - i,
    {
        assert(ins.take(i + 1).drop_last() =~= ins.take(i as int));
        assert(ins.take(i + 1).last() == inputs@[i as int]@);
        crate::kaillera::protocol::extend_bytes(&mut frame_data, inputs[i].as_slice());
        proof {
            ins.take(i as int).lemma_flatten_push(inputs@[i as int]@);
            assert(ins.take(i as int).push(inputs@[i as int]@) =~= ins.take(i + 1));
        }
        i = i + 1;
    }
    assert(ins.take(i as int) =~= ins);
    let copy = crate::sync_core::copy_bytes(frame_data.as_slice());
    let (use_cache, cache_pos, data_to_send) = prepare_outgoing(aggregated_cache, copy);
    FrameResult { frame_index, use_cache, cache_pos, data_to_send, aggregated_data: frame_data }
}

} // verus!
