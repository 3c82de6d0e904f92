//! The frame cache: the most recently completed frame of every layer,
//! overwritten unconditionally by any newer completion — even one whose
//! source timestamp is older, since arrival order wins.

use vstd::prelude::*;
use crate::assoc::key_index;
use crate::assoc::find_by;
use crate::assoc::unique_keys;
use crate::assoc::lemma_key_index_props;
use crate::assoc::lemma_key_index_first;
use crate::assoc::lemma_key_index_absent;
use crate::assoc::lemma_key_index_complete;
use crate::assoc::lemma_key_index_congruence;
use crate::assoc::lemma_find_push;
use crate::assoc::lemma_unique_push;
use crate::point::Point;
use crate::reassembler::LayerFrame;

verus! {

/// One cached layer: its latest completed points and their target outputs.
pub struct CacheEntry {
    layer_id: String,
    points: Vec<Point>,
    outputs: Vec<i32>,
}

/// Mathematical form of a cache entry.
pub struct EntryModel {
    pub layer: Seq<char>,
    pub points: Seq<Point>,
    pub outputs: Seq<i32>,
}

impl CacheEntry {
    /// The mathematical form of this entry.
    pub closed spec fn model(self) -> EntryModel {
        EntryModel { layer: self.layer_id@, points: self.points@, outputs: self.outputs@ }
    }
}

impl LayerFrame {
    /// The cache entry this completed frame becomes.
    pub open spec fn entry(self) -> EntryModel {
        EntryModel { layer: self.layer_id@, points: self.points@, outputs: self.outputs@ }
    }
}

/// The latest completed frame per layer.
pub struct FrameCache {
    entries: Vec<CacheEntry>,
}

/// Key of a cache entry.
spec fn entry_key() -> spec_fn(CacheEntry) -> Seq<char> {
    |e: CacheEntry| e.layer_id@
}

/// Position of the cache entry for the given layer, if present.
fn find_entry_index(entries: &Vec<CacheEntry>, id: &String) -> (r: Option<usize>)
    ensures
        match r {
            Some(i) => i < entries@.len() && key_index(entries@, entry_key(), id@) == i as int,
            None => key_index(entries@, entry_key(), id@) == -1,
        },
{
    let n: usize = entries.len();
    let mut i: usize = 0;
    while i < n
        invariant
            i <= n,
            n == entries@.len(),
            forall|j: int| 0 <= j < i ==> (#[trigger] entries@[j]).layer_id@ != id@,
        decreases n - i,
    {
        if entries[i].layer_id == *id {
            proof {
                lemma_key_index_first(entries@, entry_key(), id@, i as int);
            }
            return Some(i);
        }
        i += 1;
    }
    proof {
        lemma_key_index_absent(entries@, entry_key(), id@);
    }
    None
}

/// The entry a drain leaves for a layer: the last pending frame for that
/// layer wins; a layer with no pending frame keeps its prior entry.
pub open spec fn drained_entry(
    prior: Option<EntryModel>,
    frames: Seq<LayerFrame>,
    id: Seq<char>,
) -> Option<EntryModel>
    decreases frames.len(),
{
    if frames.len() == 0 {
        prior
    } else if frames.last().layer_id@ == id {
        Some(frames.last().entry())
    } else {
        drained_entry(prior, frames.drop_last(), id)
    }
}

impl FrameCache {
    /// At most one entry per layer.
    pub closed spec fn wf(self) -> bool {
        unique_keys(self.entries@, entry_key())
    }

    /// The cached entries, in cache iteration order.
    pub closed spec fn entries(self) -> Seq<EntryModel> {
        Seq::new(self.entries@.len(), |i: int| self.entries@[i].model())
    }

    /// The cached entry of a layer, if one is cached.
    pub closed spec fn entry_of(self, id: Seq<char>) -> Option<EntryModel> {
        match find_by(self.entries@, entry_key(), id) {
            Some(e) => Some(e.model()),
            None => None,
        }
    }

    /// An empty cache.
    pub fn new() -> (r: FrameCache)
        ensures
            r.wf(),
            r.entries().len() == 0,
            forall|id: Seq<char>| r.entry_of(id) is None,
    {
        let r = FrameCache { entries: Vec::new() };
        proof {
            assert forall|id: Seq<char>| r.entry_of(id) is None by {
                lemma_key_index_absent(r.entries@, entry_key(), id);
            }
        }
        r
    }

    /// How many layers are cached.
    pub fn len(&self) -> (n: usize)
        ensures
            n == self.entries().len(),
    {
        self.entries.len()
    }

    /// The points of the cached entry at a position.
    pub fn points_at(&self, i: usize) -> (p: &Vec<Point>)
        requires
            i < self.entries().len(),
        ensures
            p@ == self.entries()[i as int].points,
    {
        &self.entries[i].points
    }

    /// The target outputs of the cached entry at a position.
    pub fn outputs_at(&self, i: usize) -> (o: &Vec<i32>)
        requires
            i < self.entries().len(),
        ensures
            o@ == self.entries()[i as int].outputs,
    {
        &self.entries[i].outputs
    }

    /// Cache a completed frame, unconditionally overwriting the layer's
    /// previous entry; other layers are untouched.
    pub fn insert(&mut self, frame: LayerFrame)
        requires
            old(self).wf(),
        ensures
            final(self).wf(),
            final(self).entry_of(frame.layer_id@) == Some(frame.entry()),
            forall|id: Seq<char>|
                id != frame.layer_id@ ==> #[trigger] final(self).entry_of(id) == old(
                    self,
                ).entry_of(id),
            final(self).entries().len() == (if old(self).entry_of(frame.layer_id@) is Some {
                old(self).entries().len()
            } else {
                old(self).entries().len() + 1
            }),
    {
        let ghost s0 = self.entries@;
        let LayerFrame { layer_id, points, outputs } = frame;
        let ghost lid = layer_id@;
        match find_entry_index(&self.entries, &layer_id) {
            Some(i) => {
                proof {
                    lemma_key_index_props(s0, entry_key(), lid);
                }
                self.entries[i].points = points;
                self.entries[i].outputs = outputs;
                proof {
                    let s1 = self.entries@;
                    let n = s0.len();
                    assert(s1[i as int].layer_id@ == lid);
                    assert forall|id: Seq<char>|
                        #[trigger] key_index(s1, entry_key(), id) == key_index(
                        s0,
                        entry_key(),
                        id,
                    ) by {
                        assert forall|j: int| 0 <= j < n implies entry_key()(#[trigger] s0[j])
                            == entry_key()(#[trigger] s1[j]) by {
                            if j != i as int {
                                assert(s1[j] == s0[j]);
                            }
                        }
                        lemma_key_index_congruence(s0, s1, entry_key(), id);
                    }
                    assert forall|id: Seq<char>|
                        id != lid implies #[trigger] find_by(s1, entry_key(), id) == find_by(
                        s0,
                        entry_key(),
                        id,
                    ) by {
                        let r = key_index(s0, entry_key(), id);
                        lemma_key_index_props(s0, entry_key(), id);
                        if r >= 0 {
                            assert(r != i as int);
                            assert(s1[r] == s0[r]);
                        }
                    }
                    assert forall|a: int, b: int| 0 <= a < b < n implies entry_key()(s1[a])
                        != entry_key()(s1[b]) by {
                        assert(entry_key()(s0[a]) != entry_key()(s0[b]));
                        if a != i as int {
                            assert(s1[a] == s0[a]);
                        }
                        if b != i as int {
                            assert(s1[b] == s0[b]);
                        }
                        assert(entry_key()(s1[i as int]) == entry_key()(s0[i as int]));
                    }
                    assert(self.wf());
                    assert(self.entry_of(lid) == Some(s1[i as int].model()));
                }
            },
            None => {
                let n: usize = self.entries.len();
                let entry = CacheEntry { layer_id, points, outputs };
                self.entries.push(entry);
                proof {
                    let s1 = self.entries@;
                    let x = s1[n as int];
                    assert(x.layer_id@ == lid);
                    lemma_unique_push(s0, entry_key(), x);
                    lemma_key_index_complete(s0, entry_key(), lid);
                    assert forall|j: int| 0 <= j < n implies entry_key()(#[trigger] s1[j])
                        != lid by {
                        assert(s1[j] == s0[j]);
                    }
                    lemma_key_index_first(s1, entry_key(), lid, n as int);
                    assert forall|id: Seq<char>|
                        id != lid implies #[trigger] find_by(s1, entry_key(), id) == find_by(
                        s0,
                        entry_key(),
                        id,
                    ) by {
                        lemma_find_push(s0, entry_key(), x, id);
                        lemma_key_index_props(s0, entry_key(), id);
                    }
                }
            },
        }
    }

    /// Drain a batch of completed frames into the cache, in arrival order:
    /// for every layer the last pending frame wins, and a layer with no
    /// pending frame keeps its entry.
    pub fn drain(&mut self, frames: Vec<LayerFrame>)
        requires
            old(self).wf(),
        ensures
            final(self).wf(),
            forall|id: Seq<char>|
                #[trigger] final(self).entry_of(id) == drained_entry(
                    old(self).entry_of(id),
                    frames@,
                    id,
                ),
    {
        let ghost all = frames@;
        let mut frames = frames;
        loop
            invariant
                self.wf(),
                frames@.len() <= all.len(),
                frames@ == all.skip(all.len() - frames@.len()),
                forall|id: Seq<char>|
                    #[trigger] self.entry_of(id) == drained_entry(
                        old(self).entry_of(id),
                        all.take(all.len() - frames@.len()),
                        id,
                    ),
            ensures
                frames@.len() == 0,
                forall|id: Seq<char>|
                    #[trigger] self.entry_of(id) == drained_entry(
                        old(self).entry_of(id),
                        all.take(all.len() as int),
                        id,
                    ),
            decreases frames@.len(),
        {
            if frames.is_empty() {
                break ;
            }
            let ghost done = all.take(all.len() - frames@.len());
            let f = frames.remove(0);
            proof {
                assert(f == all[done.len() as int]);
                assert(frames@ =~= all.skip(all.len() - frames@.len()));
            }
            let ghost flid = f.layer_id@;
            let ghost fentry = f.entry();
            self.insert(f);
            proof {
                let done2 = done.push(all[done.len() as int]);
                assert(done2 =~= all.take(done.len() as int + 1));
                assert(done2.drop_last() =~= done);
                assert forall|id: Seq<char>|
                    #[trigger] self.entry_of(id) == drained_entry(
                        old(self).entry_of(id),
                        done2,
                        id,
                    ) by {
                    if id == flid {
                        assert(self.entry_of(id) == Some(fentry));
                    }
                }
            }
        }
        proof {
            assert(all.take(all.len() as int) =~= all);
        }
    }
}

/// The cache never holds two entries for one layer.
pub proof fn lemma_one_entry_per_layer(c: FrameCache)
    requires
        c.wf(),
    ensures
        forall|i: int, j: int|
            0 <= i < j < c.entries().len() ==> (#[trigger] c.entries()[i]).layer != (
            #[trigger] c.entries()[j]).layer,
{
}

} // verus!
