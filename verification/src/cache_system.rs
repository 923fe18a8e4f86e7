//! The first generation's cache of received data: a list of at most 256
//! entries, searched from the oldest.
use vstd::prelude::*;

use crate::game_cache::first_index_of;
use crate::room::KailleraError;
use crate::sync_core::bytes_equal;

verus! {

pub open spec fn entries_view(v: Seq<Vec<u8>>) -> Seq<Seq<u8>> {
    v.map_values(|e: Vec<u8>| e@)
}

/// The entries after storing new data `b`: appended, the oldest dropped
/// first when 256 or more are held.
pub open spec fn store_spec(entries: Seq<Seq<u8>>, b: Seq<u8>) -> Seq<Seq<u8>> {
    if entries.len() < 256 {
        entries.push(b)
    } else {
        entries.drop_first().push(b)
    }
}

/// The position `put_data` reports and the entries afterwards: the position
/// of data already held, else the last position after storing it (both
/// taken modulo 256).
pub open spec fn put_spec(entries: Seq<Seq<u8>>, b: Seq<u8>) -> (Seq<Seq<u8>>, u8) {
    let i = first_index_of(entries, b);
    if i >= 0 {
        (entries, (i % 256) as u8)
    } else {
        let e = store_spec(entries, b);
        (e, ((e.len() - 1) % 256) as u8)
    }
}

/// Data put into a cache of at most 256 entries is read back at the
/// position reported, and the cache stays within 256 entries.
pub proof fn law_put_then_get(entries: Seq<Seq<u8>>, b: Seq<u8>)
    requires
        entries.len() <= 256,
    ensures
        ({
            let (after, pos) = put_spec(entries, b);
            &&& (pos as int) < after.len()
            &&& after[pos as int] == b
            &&& after.len() <= 256
        }),
{
    crate::game_cache::lemma_first_index_of(entries, b);
}

#[derive(Debug)]
pub struct CacheSystem {
    pub incoming_data_vec: Vec<Vec<u8>>,
}

impl CacheSystem {
    pub fn new() -> (c: CacheSystem)
        ensures
            c.incoming_data_vec@.len() == 0,
    {
        CacheSystem { incoming_data_vec: Vec::new() }
    }

    pub fn reset(&mut self)
        ensures
            final(self).incoming_data_vec@.len() == 0,
    {
        self.incoming_data_vec.clear();
    }

    /// The position (modulo 256) of the oldest entry equal to `b`.
    pub fn get_cache_position(&self, b: Vec<u8>) -> (r: Result<u8, KailleraError>)
        ensures
            ({
                let i = first_index_of(entries_view(self.incoming_data_vec@), b@);
                if i >= 0 {
                    r matches Ok(p) && p == (i % 256) as u8
                } else {
                    r matches Err(e) && e == KailleraError::NotFound
                }
            }),
    {
        let ghost ev = entries_view(self.incoming_data_vec@);
        proof {
            crate::game_cache::lemma_first_index_of(ev, b@);
        }
        let mut i: usize = 0;
        while i < self.incoming_data_vec.len()
            invariant
                i <= ev.len(),
                ev == entries_view(self.incoming_data_vec@),
                -1 <= first_index_of(ev, b@) < ev.len(),
                first_index_of(ev, b@) >= 0 ==> ev[first_index_of(ev, b@)] == b@,
                forall|j: int|
                    0 <= j < ev.len() && (first_index_of(ev, b@) < 0 || j < first_index_of(ev, b@))
                        ==> #[trigger] ev[j] != b@,
                first_index_of(ev, b@) < 0 || i <= first_index_of(ev, b@),
            decreases ev.len() - i,
        {
            assert(ev[i as int] == self.incoming_data_vec@[i as int]@);
            if bytes_equal(self.incoming_data_vec[i].as_slice(), b.as_slice()) {
                return Ok((i % 256) as u8);
            }
            i = i + 1;
        }
        Err(KailleraError::NotFound)
    }

    /// Stores `b` unless it is held already; the position it is held at.
    pub fn put_data(&mut self, b: Vec<u8>) -> (pos: u8)
        ensures
            (entries_view(final(self).incoming_data_vec@), pos) == put_spec(
                entries_view(old(self).incoming_data_vec@),
                b@,
            ),
    {
        let p = self.get_cache_position(b.clone());
        match p {
            Ok(s) => s,
            Err(_) => {
                let ghost e0 = entries_view(self.incoming_data_vec@);
                if self.incoming_data_vec.len() < 256 {
                    self.incoming_data_vec.push(b.clone());
                } else {
                    self.incoming_data_vec.remove(0);
                    self.incoming_data_vec.push(b.clone());
                }
                assert(entries_view(self.incoming_data_vec@) =~= store_spec(e0, b@));
                ((self.incoming_data_vec.len() - 1) % 256) as u8
            },
        }
    }

    /// The entry at `pos`.
    pub fn get_data(&self, pos: u8) -> (r: Result<Vec<u8>, KailleraError>)
        ensures
            (pos as int) < self.incoming_data_vec@.len() ==> (r matches Ok(v) && v@
                == self.incoming_data_vec@[pos as int]@),
            (pos as int) >= self.incoming_data_vec@.len() ==> (r matches Err(e) && e
                == KailleraError::NotFound),
    {
        if (pos as usize) < self.incoming_data_vec.len() {
            Ok(self.incoming_data_vec[pos as usize].clone())
        } else {
            Err(KailleraError::NotFound)
        }
    }
}

} // verus!
