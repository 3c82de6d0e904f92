//! Per-layer frame reassembly: fragments are buffered by layer and
//! timestamp, a completed frame is decoded and emitted when its terminal
//! fragment arrives, and buffers whose terminal fragment never arrives are
//! evicted once the stream has moved past them.

use vstd::prelude::*;
use crate::STALE_THRESHOLD_MICROS;
use crate::assoc::key_index;
use crate::assoc::find_by;
use crate::assoc::unique_keys;
use crate::assoc::lemma_key_index_props;
use crate::assoc::lemma_key_index_first;
use crate::assoc::lemma_key_index_absent;
use crate::assoc::lemma_key_index_complete;
use crate::assoc::lemma_key_index_congruence;
use crate::assoc::lemma_find_push;
use crate::assoc::lemma_find_remove;
use crate::assoc::lemma_unique_push;
use crate::codec::DecodeError;
use crate::codec::all_chunks_aligned;
use crate::codec::frame_points_spec;
use crate::codec::assemble_frame;
use crate::message::ParsedMessage;
use crate::message::Message;
use crate::point::Point;

verus! {

/// The fragment payloads received so far for one `(layer, timestamp)`
/// frame, in arrival order.
pub struct FragmentBuffer {
    timestamp: i64,
    chunks: Vec<Vec<u8>>,
}

/// Reassembly state of one layer: the most recent timestamp seen on the
/// layer and a fragment buffer per in-flight timestamp.
pub struct LayerState {
    layer_id: String,
    last_seen: i64,
    buffers: Vec<FragmentBuffer>,
}

/// A completed frame for one layer, ready to be drawn to its outputs.
pub struct LayerFrame {
    pub layer_id: String,
    pub points: Vec<Point>,
    pub outputs: Vec<i32>,
}

/// Reassembly state across all layers.
pub struct Reassembler {
    layers: Vec<LayerState>,
}

/// Key of a fragment buffer within a layer.
spec fn buf_key() -> spec_fn(FragmentBuffer) -> i64 {
    |b: FragmentBuffer| b.timestamp
}

/// Key of a layer's state.
spec fn layer_key() -> spec_fn(LayerState) -> Seq<char> {
    |l: LayerState| l.layer_id@
}

impl Reassembler {
    /// One state per layer; within a layer, one buffer per timestamp.
    pub closed spec fn wf(self) -> bool {
        &&& unique_keys(self.layers@, layer_key())
        &&& forall|k: int|
            0 <= k < self.layers@.len() ==> unique_keys(
                (#[trigger] self.layers@[k]).buffers@,
                buf_key(),
            )
    }

    /// The most recent timestamp seen on a layer, if the layer has been seen.
    pub closed spec fn last_seen(self, id: Seq<char>) -> Option<i64> {
        match find_by(self.layers@, layer_key(), id) {
            Some(l) => Some(l.last_seen),
            None => None,
        }
    }

    /// The payloads buffered for `(id, t)`, in arrival order, if a frame at
    /// that timestamp is in flight.
    pub closed spec fn buffered(self, id: Seq<char>, t: i64) -> Option<Seq<Seq<u8>>> {
        match find_by(self.layers@, layer_key(), id) {
            Some(l) => match find_by(l.buffers@, buf_key(), t) {
                Some(b) => Some(b.chunks.deep_view()),
                None => None,
            },
            None => None,
        }
    }

    /// An empty reassembler: no layer seen, nothing buffered.
    pub fn new() -> (r: Reassembler)
        ensures
            r.wf(),
            forall|id: Seq<char>| r.last_seen(id) is None,
            forall|id: Seq<char>, t: i64| r.buffered(id, t) is None,
    {
        let r = Reassembler { layers: Vec::new() };
        proof {
            assert forall|id: Seq<char>| r.last_seen(id) is None by {
                lemma_key_index_absent(r.layers@, layer_key(), id);
            }
            assert forall|id: Seq<char>, t: i64| r.buffered(id, t) is None by {
                lemma_key_index_absent(r.layers@, layer_key(), id);
            }
        }
        r
    }
}

/// The chunks buffered for `(id, t)`, or no chunks when nothing is buffered.
pub open spec fn chunks_or_empty(r: Reassembler, id: Seq<char>, t: i64) -> Seq<Seq<u8>> {
    match r.buffered(id, t) {
        Some(c) => c,
        None => Seq::empty(),
    }
}

/// The chunk list for `(id, t)` once `payload` arrives: whatever was
/// buffered, extended by the new payload.
pub open spec fn appended_chunks(r: Reassembler, id: Seq<char>, t: i64, payload: Seq<u8>) -> Seq<
    Seq<u8>,
> {
    chunks_or_empty(r, id, t).push(payload)
}

/// A buffered frame is stale once the layer's last-seen mark has moved more
/// than the staleness window past its timestamp.
pub open spec fn is_stale(r: Reassembler, id: Seq<char>, t: i64) -> bool {
    match r.last_seen(id) {
        Some(ls) => ls - t > STALE_THRESHOLD_MICROS as int,
        None => false,
    }
}

/// The last-seen mark of a layer once a message is ingested.
pub open spec fn seen_after(r: Reassembler, msg: ParsedMessage, id: Seq<char>) -> Option<i64> {
    if id == msg.layer() {
        Some(msg.timestamp())
    } else {
        r.last_seen(id)
    }
}

/// Whether `(id, t)` is stale once a message is ingested.
pub open spec fn stale_after(r: Reassembler, msg: ParsedMessage, id: Seq<char>, t: i64) -> bool {
    match seen_after(r, msg, id) {
        Some(ls) => ls - t > STALE_THRESHOLD_MICROS as int,
        None => false,
    }
}

/// The buffer contents for `(id, t)` once a message is ingested, before any
/// eviction: a data fragment extends its own buffer, a terminal fragment
/// consumes it, and everything else is untouched.
pub open spec fn buffered_after(r: Reassembler, msg: ParsedMessage, id: Seq<char>, t: i64) -> Option<
    Seq<Seq<u8>>,
> {
    match msg {
        ParsedMessage::KeepAlive { .. } => r.buffered(id, t),
        ParsedMessage::Data(m) => if id == m.layer_id@ && t == m.timestamp {
            if m.is_last {
                None
            } else {
                Some(appended_chunks(r, id, t, m.payload@))
            }
        } else {
            r.buffered(id, t)
        },
    }
}

/// Layer sequences that differ only at position `li`, without changing that
/// layer's id, position every id alike and resolve every other id alike.
proof fn lemma_layers_same_except(s1: Seq<LayerState>, s2: Seq<LayerState>, li: int)
    requires
        s1.len() == s2.len(),
        0 <= li < s1.len(),
        forall|j: int| 0 <= j < s1.len() && j != li ==> s2[j] == #[trigger] s1[j],
        s2[li].layer_id@ == s1[li].layer_id@,
    ensures
        forall|id: Seq<char>|
            #[trigger] key_index(s2, layer_key(), id) == key_index(s1, layer_key(), id),
        forall|id: Seq<char>|
            id != s1[li].layer_id@ ==> #[trigger] find_by(s2, layer_key(), id) == find_by(
                s1,
                layer_key(),
                id,
            ),
{
    assert forall|id: Seq<char>|
        #[trigger] key_index(s2, layer_key(), id) == key_index(s1, layer_key(), id) by {
        assert forall|j: int| 0 <= j < s1.len() implies layer_key()(#[trigger] s1[j]) == layer_key()(
            #[trigger] s2[j],
        ) by {
            if j != li {
                assert(s2[j] == s1[j]);
            }
        }
        lemma_key_index_congruence(s1, s2, layer_key(), id);
    }
    assert forall|id: Seq<char>|
        id != s1[li].layer_id@ implies #[trigger] find_by(s2, layer_key(), id) == find_by(
        s1,
        layer_key(),
        id,
    ) by {
        let r = key_index(s1, layer_key(), id);
        lemma_key_index_props(s1, layer_key(), id);
        if r >= 0 {
            assert(r != li);
            assert(s2[r] == s1[r]);
        }
    }
}

/// Buffer sequences that differ only at position `bi`, without changing that
/// buffer's timestamp, position every timestamp alike and resolve every
/// other timestamp alike.
proof fn lemma_bufs_same_except(b1: Seq<FragmentBuffer>, b2: Seq<FragmentBuffer>, bi: int)
    requires
        b1.len() == b2.len(),
        0 <= bi < b1.len(),
        forall|j: int| 0 <= j < b1.len() && j != bi ==> b2[j] == #[trigger] b1[j],
        b2[bi].timestamp == b1[bi].timestamp,
    ensures
        forall|t: i64| #[trigger] key_index(b2, buf_key(), t) == key_index(b1, buf_key(), t),
        forall|t: i64|
            t != b1[bi].timestamp ==> #[trigger] find_by(b2, buf_key(), t) == find_by(
                b1,
                buf_key(),
                t,
            ),
{
    assert forall|t: i64|
        #[trigger] key_index(b2, buf_key(), t) == key_index(b1, buf_key(), t) by {
        assert forall|j: int| 0 <= j < b1.len() implies buf_key()(#[trigger] b1[j]) == buf_key()(
            #[trigger] b2[j],
        ) by {
            if j != bi {
                assert(b2[j] == b1[j]);
            }
        }
        lemma_key_index_congruence(b1, b2, buf_key(), t);
    }
    assert forall|t: i64|
        t != b1[bi].timestamp implies #[trigger] find_by(b2, buf_key(), t) == find_by(
        b1,
        buf_key(),
        t,
    ) by {
        let r = key_index(b1, buf_key(), t);
        lemma_key_index_props(b1, buf_key(), t);
        if r >= 0 {
            assert(r != bi);
            assert(b2[r] == b1[r]);
        }
    }
}

/// Position of the layer with the given id, if present.
fn find_layer_index(layers: &Vec<LayerState>, id: &String) -> (r: Option<usize>)
    ensures
        match r {
            Some(i) => i < layers@.len() && key_index(layers@, layer_key(), id@) == i as int,
            None => key_index(layers@, layer_key(), id@) == -1,
        },
{
    let n: usize = layers.len();
    let mut i: usize = 0;
    while i < n
        invariant
            i <= n,
            n == layers@.len(),
            forall|j: int| 0 <= j < i ==> (#[trigger] layers@[j]).layer_id@ != id@,
        decreases n - i,
    {
        if layers[i].layer_id == *id {
            proof {
                lemma_key_index_first(layers@, layer_key(), id@, i as int);
            }
            return Some(i);
        }
        i += 1;
    }
    proof {
        lemma_key_index_absent(layers@, layer_key(), id@);
    }
    None
}

/// Position of the fragment buffer with the given timestamp, if present.
fn find_buffer_index(bufs: &Vec<FragmentBuffer>, t: i64) -> (r: Option<usize>)
    ensures
        match r {
            Some(i) => i < bufs@.len() && key_index(bufs@, buf_key(), t) == i as int,
            None => key_index(bufs@, buf_key(), t) == -1,
        },
{
    let n: usize = bufs.len();
    let mut i: usize = 0;
    while i < n
        invariant
            i <= n,
            n == bufs@.len(),
            forall|j: int| 0 <= j < i ==> (#[trigger] bufs@[j]).timestamp != t,
        decreases n - i,
    {
        if bufs[i].timestamp == t {
            proof {
                lemma_key_index_first(bufs@, buf_key(), t, i as int);
            }
            return Some(i);
        }
        i += 1;
    }
    proof {
        lemma_key_index_absent(bufs@, buf_key(), t);
    }
    None
}

impl Reassembler {
    /// Move the layer's last-seen mark to `timestamp`, creating the layer's
    /// state if this is its first message, and return the layer's position.
    fn touch(&mut self, layer_id: String, timestamp: i64) -> (li: usize)
        requires
            old(self).wf(),
        ensures
            final(self).wf(),
            li < final(self).layers@.len(),
            key_index(final(self).layers@, layer_key(), layer_id@) == li as int,
            final(self).layers@[li as int].layer_id@ == layer_id@,
            final(self).layers@[li as int].last_seen == timestamp,
            final(self).layers@[li as int].buffers@ == (match find_by(
                old(self).layers@,
                layer_key(),
                layer_id@,
            ) {
                Some(l) => l.buffers@,
                None => Seq::<FragmentBuffer>::empty(),
            }),
            forall|id: Seq<char>|
                id != layer_id@ ==> find_by(final(self).layers@, layer_key(), id) == find_by(
                    old(self).layers@,
                    layer_key(),
                    id,
                ),
    {
        let ghost s0 = self.layers@;
        match find_layer_index(&self.layers, &layer_id) {
            Some(i) => {
                self.layers[i].last_seen = timestamp;
                proof {
                    let s1 = self.layers@;
                    lemma_key_index_props(s0, layer_key(), layer_id@);
                    assert(s1 =~= s0.update(i as int, s1[i as int]));
                    assert(forall|j: int|
                        0 <= j < s1.len() ==> (#[trigger] s1[j]).layer_id@ == s0[j].layer_id@);
                    assert forall|id: Seq<char>|
                        #[trigger] key_index(s1, layer_key(), id) == key_index(
                        s0,
                        layer_key(),
                        id,
                    ) by {
                        lemma_key_index_congruence(s0, s1, layer_key(), id);
                    }
                    assert forall|id: Seq<char>|
                        id != layer_id@ implies find_by(s1, layer_key(), id) == find_by(
                        s0,
                        layer_key(),
                        id,
                    ) by {
                        let r = key_index(s0, layer_key(), id);
                        lemma_key_index_props(s0, layer_key(), id);
                        if r >= 0 {
                            assert(r != i as int);
                            assert(s1[r] == s0[r]);
                        }
                    }
                    assert forall|a: int, b: int| 0 <= a < b < s1.len() implies layer_key()(
                        s1[a],
                    ) != layer_key()(s1[b]) by {
                        assert(layer_key()(s0[a]) != layer_key()(s0[b]));
                    }
                    assert(unique_keys(s1, layer_key()));
                    assert forall|k: int| 0 <= k < s1.len() implies unique_keys(
                        (#[trigger] s1[k]).buffers@,
                        buf_key(),
                    ) by {
                        assert(s1[k].buffers@ == s0[k].buffers@);
                    }
                }
                i
            },
            None => {
                let n: usize = self.layers.len();
                let state = LayerState { layer_id, last_seen: timestamp, buffers: Vec::new() };
                self.layers.push(state);
                proof {
                    let s1 = self.layers@;
                    let x = s1[n as int];
                    lemma_key_index_complete(s0, layer_key(), x.layer_id@);
                    assert forall|j: int| 0 <= j < n implies layer_key()(#[trigger] s1[j])
                        != x.layer_id@ by {
                        assert(s1[j] == s0[j]);
                        assert(layer_key()(s0[j]) != x.layer_id@);
                    }
                    lemma_key_index_first(s1, layer_key(), x.layer_id@, n as int);
                    lemma_unique_push(s0, layer_key(), x);
                    assert forall|id: Seq<char>|
                        id != x.layer_id@ implies find_by(s1, layer_key(), id) == find_by(
                        s0,
                        layer_key(),
                        id,
                    ) by {
                        lemma_find_push(s0, layer_key(), x, id);
                        lemma_key_index_props(s0, layer_key(), id);
                    }
                    lemma_key_index_complete(s0, layer_key(), x.layer_id@);
                    assert(find_by(s0, layer_key(), x.layer_id@) is None) by {
                        lemma_key_index_props(s0, layer_key(), x.layer_id@);
                        if key_index(s0, layer_key(), x.layer_id@) >= 0 {
                            assert(false);
                        }
                    }
                    assert forall|k: int| 0 <= k < s1.len() implies unique_keys(
                        (#[trigger] s1[k]).buffers@,
                        buf_key(),
                    ) by {
                        if k < n {
                            assert(s1[k] == s0[k]);
                        } else {
                            assert(s1[k].buffers@.len() == 0);
                        }
                    }
                }
                n
            },
        }
    }
}

/// A pushed chunk extends the deep view of a chunk list by its bytes.
proof fn lemma_deep_view_push(v1: Vec<Vec<u8>>, v2: Vec<Vec<u8>>, x: Vec<u8>)
    requires
        v2@ == v1@.push(x),
    ensures
        v2.deep_view() == v1.deep_view().push(x@),
{
    let dv1 = v1.deep_view();
    let dv2 = v2.deep_view();
    assert forall|j: int| 0 <= j < dv2.len() implies dv2[j] == dv1.push(x@)[j] by {
        if j < v1@.len() {
            assert(v2@[j] == v1@[j]);
        } else {
            assert(v2@[j] == x);
            assert(x.deep_view() =~= x@);
        }
    }
    assert(dv2 =~= dv1.push(x@));
}

impl Reassembler {
    /// Ingest one message.
    ///
    /// Every message moves its layer's last-seen mark to its timestamp.  A
    /// keep-alive changes nothing else and emits nothing.  A data fragment
    /// is appended to the buffer for its `(layer, timestamp)`; a terminal
    /// fragment consumes that buffer and emits the completed frame, or
    /// reports a decode failure when some buffered payload is not a whole
    /// number of records — either way the buffer for that timestamp is gone.
    /// Other layers and other timestamps are untouched.
    pub fn ingest(&mut self, msg: ParsedMessage) -> (r: Result<Option<LayerFrame>, DecodeError>)
        requires
            old(self).wf(),
        ensures
            final(self).wf(),
            final(self).last_seen(msg.layer()) == Some::<i64>(msg.timestamp()),
            forall|id: Seq<char>|
                id != msg.layer() ==> final(self).last_seen(id) == old(self).last_seen(id),
            msg matches ParsedMessage::KeepAlive { .. } ==> r == Ok::<
                Option<LayerFrame>,
                DecodeError,
            >(None) && (forall|id: Seq<char>, t: i64|
                final(self).buffered(id, t) == old(self).buffered(id, t)),
            msg matches ParsedMessage::Data(m) ==> (forall|id: Seq<char>, t: i64|
                !(id == m.layer_id@ && t == m.timestamp) ==> final(self).buffered(id, t) == old(
                    self,
                ).buffered(id, t)),
            msg matches ParsedMessage::Data(m) ==> (!m.is_last ==> r == Ok::<
                Option<LayerFrame>,
                DecodeError,
            >(None) && final(self).buffered(m.layer_id@, m.timestamp) == Some(
                appended_chunks(*old(self), m.layer_id@, m.timestamp, m.payload@),
            )),
            msg matches ParsedMessage::Data(m) ==> (m.is_last ==> final(self).buffered(
                m.layer_id@,
                m.timestamp,
            ) is None),
            msg matches ParsedMessage::Data(m) ==> ((m.is_last && all_chunks_aligned(
                appended_chunks(*old(self), m.layer_id@, m.timestamp, m.payload@),
            )) ==> (r matches Ok(Some(f)) && f.layer_id@ == m.layer_id@ && f.outputs@ == m.outputs@
                && f.points@ == frame_points_spec(
                appended_chunks(*old(self), m.layer_id@, m.timestamp, m.payload@),
            ))),
            msg matches ParsedMessage::Data(m) ==> ((m.is_last && !all_chunks_aligned(
                appended_chunks(*old(self), m.layer_id@, m.timestamp, m.payload@),
            )) ==> r == Err::<Option<LayerFrame>, DecodeError>(DecodeError)),
    {
        let ghost r0 = *self;
        match msg {
            ParsedMessage::KeepAlive { layer_id, timestamp } => {
                let ghost lid = layer_id@;
                let li = self.touch(layer_id, timestamp);
                proof {
                    let s1 = self.layers@;
                    assert forall|id: Seq<char>, t: i64|
                        self.buffered(id, t) == r0.buffered(id, t) by {
                        if id == lid {
                            assert(find_by(s1, layer_key(), lid) == Some(s1[li as int]));
                            match find_by(r0.layers@, layer_key(), lid) {
                                Some(l) => {
                                    assert(s1[li as int].buffers@ == l.buffers@);
                                },
                                None => {
                                    assert(s1[li as int].buffers@.len() == 0);
                                    lemma_key_index_absent(s1[li as int].buffers@, buf_key(), t);
                                },
                            }
                        }
                    }
                }
                Ok(None)
            },
            ParsedMessage::Data(m) => {
                let Message { layer_id, timestamp, is_last, outputs, payload } = m;
                let ghost lid = layer_id@;
                let ghost pay = payload@;
                let ghost goal = appended_chunks(r0, lid, timestamp, pay);
                let li = self.touch(layer_id.clone(), timestamp);
                let ghost s1 = self.layers@;
                let ghost b0 = s1[li as int].buffers@;
                proof {
                    if find_by(r0.layers@, layer_key(), lid) is None {
                        lemma_key_index_absent(b0, buf_key(), timestamp);
                    }
                }
                let bi: usize = match find_buffer_index(&self.layers[li].buffers, timestamp) {
                    Some(i) => i,
                    None => {
                        let nb: usize = self.layers[li].buffers.len();
                        let fresh = FragmentBuffer { timestamp, chunks: Vec::new() };
                        self.layers[li].buffers.push(fresh);
                        proof {
                            let b1 = self.layers@[li as int].buffers@;
                            lemma_key_index_complete(b0, buf_key(), timestamp);
                            assert forall|j: int| 0 <= j < nb implies buf_key()(#[trigger] b1[j])
                                != timestamp by {
                                assert(b1[j] == b0[j]);
                            }
                            lemma_key_index_first(b1, buf_key(), timestamp, nb as int);
                            lemma_unique_push(b0, buf_key(), b1[nb as int]);
                            assert forall|t: i64|
                                t != timestamp implies #[trigger] find_by(b1, buf_key(), t)
                                == find_by(b0, buf_key(), t) by {
                                lemma_find_push(b0, buf_key(), b1[nb as int], t);
                                lemma_key_index_props(b0, buf_key(), t);
                            }
                            lemma_layers_same_except(s1, self.layers@, li as int);
                        }
                        nb
                    },
                };
                let ghost s2 = self.layers@;
                let ghost b1 = s2[li as int].buffers@;
                proof {
                    assert(key_index(b1, buf_key(), timestamp) == bi as int);
                    assert(b1[bi as int].chunks.deep_view() =~= chunks_or_empty(
                        r0,
                        lid,
                        timestamp,
                    )) by {
                        match find_by(r0.layers@, layer_key(), lid) {
                            Some(l) => {
                                assert(l.buffers@ == b0);
                                if key_index(b0, buf_key(), timestamp) >= 0 {
                                    assert(b1[bi as int] == b0[key_index(
                                        b0,
                                        buf_key(),
                                        timestamp,
                                    )]);
                                } else {
                                    assert(b1[bi as int].chunks@.len() == 0);
                                }
                            },
                            None => {
                                assert(b1[bi as int].chunks@.len() == 0);
                                assert(r0.buffered(lid, timestamp) is None);
                            },
                        }
                    }
                    // the layer sequence is unchanged except possibly at li
                    lemma_layers_same_except(s1, s2, li as int);
                }
                self.layers[li].buffers[bi].chunks.push(payload);
                let ghost s3 = self.layers@;
                let ghost b2 = s3[li as int].buffers@;
                proof {
                    lemma_deep_view_push(
                        s2[li as int].buffers@[bi as int].chunks,
                        b2[bi as int].chunks,
                        payload,
                    );
                    assert(b2[bi as int].chunks.deep_view() == goal);
                    lemma_bufs_same_except(b1, b2, bi as int);
                    lemma_layers_same_except(s2, s3, li as int);
                    lemma_layers_same_except(s1, s3, li as int);
                    assert forall|a: int, b: int| 0 <= a < b < b2.len() implies buf_key()(b2[a])
                        != buf_key()(b2[b]) by {
                        assert(buf_key()(b1[a]) != buf_key()(b1[b]));
                        assert(buf_key()(b2[a]) == buf_key()(b1[a]));
                        assert(buf_key()(b2[b]) == buf_key()(b1[b]));
                    }
                    assert(unique_keys(b2, buf_key()));
                    assert forall|k: int| 0 <= k < s3.len() implies unique_keys(
                        (#[trigger] s3[k]).buffers@,
                        buf_key(),
                    ) by {
                        if k != li as int {
                            assert(s3[k] == s1[k]);
                        }
                    }
                    assert forall|a: int, b: int| 0 <= a < b < s3.len() implies layer_key()(
                        s3[a],
                    ) != layer_key()(s3[b]) by {
                        assert(layer_key()(s1[a]) != layer_key()(s1[b]));
                        if a != li as int {
                            assert(s3[a] == s1[a]);
                        }
                        if b != li as int {
                            assert(s3[b] == s1[b]);
                        }
                        assert(layer_key()(s3[li as int]) == layer_key()(s1[li as int]));
                    }
                    assert(self.wf());
                }
                if is_last {
                    let fb = self.layers[li].buffers.remove(bi);
                    let ghost s4 = self.layers@;
                    let ghost b3 = s4[li as int].buffers@;
                    proof {
                        assert(fb == b2[bi as int]);
                        assert(fb.chunks.deep_view() == goal);
                        assert forall|t: i64| #[trigger]
                            find_by(b3, buf_key(), t) == (if t == timestamp {
                                None::<FragmentBuffer>
                            } else {
                                find_by(b2, buf_key(), t)
                            }) by {
                            lemma_find_remove(b2, buf_key(), bi as int, t);
                        }
                        lemma_find_remove(b2, buf_key(), bi as int, timestamp);
                        lemma_layers_same_except(s3, s4, li as int);
                        lemma_layers_same_except(s1, s4, li as int);
                        assert forall|k: int| 0 <= k < s4.len() implies unique_keys(
                            (#[trigger] s4[k]).buffers@,
                            buf_key(),
                        ) by {
                            if k != li as int {
                                assert(s4[k] == s3[k]);
                            }
                        }
                        assert forall|a: int, b: int| 0 <= a < b < s4.len() implies layer_key()(
                            s4[a],
                        ) != layer_key()(s4[b]) by {
                            assert(layer_key()(s3[a]) != layer_key()(s3[b]));
                            if a != li as int {
                                assert(s4[a] == s3[a]);
                            }
                            if b != li as int {
                                assert(s4[b] == s3[b]);
                            }
                            assert(layer_key()(s4[li as int]) == layer_key()(s3[li as int]));
                        }
                        assert(self.wf());
                        assert(find_by(s4, layer_key(), lid) == Some(s4[li as int]));
                        assert(self.buffered(lid, timestamp) is None);
                    }
                    match assemble_frame(&fb.chunks) {
                        Ok(points) => Ok(Some(LayerFrame { layer_id, points, outputs })),
                        Err(e) => Err(e),
                    }
                } else {
                    proof {
                        assert(find_by(s3, layer_key(), lid) == Some(s3[li as int]));
                        assert(find_by(b2, buf_key(), timestamp) == Some(b2[bi as int]));
                        assert(self.buffered(lid, timestamp) == Some(goal));
                    }
                    Ok(None)
                }
            },
        }
    }
}

/// Walking one buffer back from position `r` resolves its own timestamp and
/// defers every other to the rest of the suffix.
proof fn lemma_skip_step(orig: Seq<FragmentBuffer>, r: int, t: i64)
    requires
        0 < r <= orig.len(),
    ensures
        find_by(orig.skip(r - 1), buf_key(), t) == (if orig[r - 1].timestamp == t {
            Some(orig[r - 1])
        } else {
            find_by(orig.skip(r), buf_key(), t)
        }),
{
    let s = orig.skip(r - 1);
    assert(s[0] == orig[r - 1]);
    assert(s.drop_first() =~= orig.skip(r));
    lemma_key_index_props(s.drop_first(), buf_key(), t);
    if orig[r - 1].timestamp == t {
        assert(key_index(s, buf_key(), t) == 0);
    } else {
        let q = key_index(s.drop_first(), buf_key(), t);
        if q >= 0 {
            assert(key_index(s, buf_key(), t) == q + 1);
            assert(s[q + 1] == s.drop_first()[q]);
        } else {
            assert(key_index(s, buf_key(), t) == -1);
        }
    }
}

/// Discard the stale buffers of one layer: those whose timestamp the
/// layer's last-seen mark has passed by more than the staleness window.
fn reap_layer(bufs: &mut Vec<FragmentBuffer>, last_seen: i64)
    requires
        unique_keys(old(bufs)@, buf_key()),
    ensures
        unique_keys(final(bufs)@, buf_key()),
        forall|t: i64|
            #[trigger] find_by(final(bufs)@, buf_key(), t) == (if last_seen - t
                > STALE_THRESHOLD_MICROS as int {
                None::<FragmentBuffer>
            } else {
                find_by(old(bufs)@, buf_key(), t)
            }),
{
    let ghost orig = old(bufs)@;
    let mut kept: Vec<FragmentBuffer> = Vec::new();
    loop
        invariant
            unique_keys(orig, buf_key()),
            bufs@ == orig.take(bufs@.len() as int),
            bufs@.len() <= orig.len(),
            unique_keys(kept@, buf_key()),
            forall|t: i64|
                #[trigger] find_by(kept@, buf_key(), t) == (match find_by(
                    orig.skip(bufs@.len() as int),
                    buf_key(),
                    t,
                ) {
                    Some(b) => if last_seen - b.timestamp > STALE_THRESHOLD_MICROS as int {
                        None::<FragmentBuffer>
                    } else {
                        Some(b)
                    },
                    None => None::<FragmentBuffer>,
                }),
        ensures
            unique_keys(kept@, buf_key()),
            forall|t: i64|
                #[trigger] find_by(kept@, buf_key(), t) == (match find_by(orig, buf_key(), t) {
                    Some(b) => if last_seen - b.timestamp > STALE_THRESHOLD_MICROS as int {
                        None::<FragmentBuffer>
                    } else {
                        Some(b)
                    },
                    None => None::<FragmentBuffer>,
                }),
        decreases bufs@.len(),
    {
        let r: usize = bufs.len();
        if r == 0 {
            proof {
                assert(orig.skip(0) =~= orig);
            }
            break;
        }
        let ghost old_kept = kept@;
        let b = match bufs.pop() {
            Some(b) => b,
            None => {
                proof {
                    assert(false);
                }
                return ;
            },
        };
        proof {
            assert(b == orig[r - 1]);
            assert(bufs@ =~= orig.take(r - 1));
            assert(orig.skip(r - 1)[0] == orig[r - 1]);
            assert(orig.skip(r - 1).drop_first() =~= orig.skip(r as int));
            // the popped buffer's timestamp is absent from both the unseen
            // suffix and the kept buffers
            assert forall|j: int| 0 <= j < orig.skip(r as int).len() implies buf_key()(
                #[trigger] orig.skip(r as int)[j],
            ) != b.timestamp by {
                assert(orig.skip(r as int)[j] == orig[j + r]);
                assert(buf_key()(orig[r - 1]) != buf_key()(orig[j + r]));
            }
            lemma_key_index_absent(orig.skip(r as int), buf_key(), b.timestamp);
            assert(find_by(old_kept, buf_key(), b.timestamp) is None);
        }
        let keep = {
            let dt: i128 = last_seen as i128 - b.timestamp as i128;
            dt <= STALE_THRESHOLD_MICROS as i128
        };
        if keep {
            kept.push(b);
            proof {
                lemma_unique_push(old_kept, buf_key(), b);
                assert forall|t: i64|
                    #[trigger] find_by(kept@, buf_key(), t) == (match find_by(
                        orig.skip(r - 1),
                        buf_key(),
                        t,
                    ) {
                        Some(c) => if last_seen - c.timestamp > STALE_THRESHOLD_MICROS as int {
                            None::<FragmentBuffer>
                        } else {
                            Some(c)
                        },
                        None => None::<FragmentBuffer>,
                    }) by {
                    lemma_find_push(old_kept, buf_key(), b, t);
                    lemma_skip_step(orig, r as int, t);
                    assert(find_by(old_kept, buf_key(), t) == (match find_by(
                        orig.skip(r as int),
                        buf_key(),
                        t,
                    ) {
                        Some(c) => if last_seen - c.timestamp > STALE_THRESHOLD_MICROS as int {
                            None::<FragmentBuffer>
                        } else {
                            Some(c)
                        },
                        None => None::<FragmentBuffer>,
                    }));
                }
            }
        } else {
            proof {
                assert forall|t: i64|
                    #[trigger] find_by(kept@, buf_key(), t) == (match find_by(
                        orig.skip(r - 1),
                        buf_key(),
                        t,
                    ) {
                        Some(c) => if last_seen - c.timestamp > STALE_THRESHOLD_MICROS as int {
                            None::<FragmentBuffer>
                        } else {
                            Some(c)
                        },
                        None => None::<FragmentBuffer>,
                    }) by {
                    lemma_skip_step(orig, r as int, t);
                    assert(find_by(kept@, buf_key(), t) == (match find_by(
                        orig.skip(r as int),
                        buf_key(),
                        t,
                    ) {
                        Some(c) => if last_seen - c.timestamp > STALE_THRESHOLD_MICROS as int {
                            None::<FragmentBuffer>
                        } else {
                            Some(c)
                        },
                        None => None::<FragmentBuffer>,
                    }));
                    if t == b.timestamp {
                        assert(find_by(kept@, buf_key(), t) is None);
                    }
                }
            }
        }
    }
    *bufs = kept;
    proof {
        assert forall|t: i64|
            #[trigger] find_by(bufs@, buf_key(), t) == (if last_seen - t
                > STALE_THRESHOLD_MICROS as int {
                None::<FragmentBuffer>
            } else {
                find_by(orig, buf_key(), t)
            }) by {
            lemma_key_index_props(orig, buf_key(), t);
        }
    }
}

impl Reassembler {
    /// Evict every stale fragment buffer: one whose layer's last-seen mark
    /// has moved more than the staleness window past its timestamp.  No
    /// fresh buffer and no last-seen mark changes, and afterwards nothing
    /// stale remains buffered.
    pub fn reap(&mut self)
        requires
            old(self).wf(),
        ensures
            final(self).wf(),
            forall|id: Seq<char>|
                #[trigger] final(self).last_seen(id) == old(self).last_seen(id),
            forall|id: Seq<char>, t: i64|
                #[trigger] final(self).buffered(id, t) == (if is_stale(*old(self), id, t) {
                    None::<Seq<Seq<u8>>>
                } else {
                    old(self).buffered(id, t)
                }),
            forall|id: Seq<char>, t: i64|
                is_stale(*final(self), id, t) ==> #[trigger] final(self).buffered(id, t) is None,
    {
        let ghost s0 = self.layers@;
        let n: usize = self.layers.len();
        let mut k: usize = 0;
        while k < n
            invariant
                old(self).wf(),
                s0 == old(self).layers@,
                n == self.layers@.len(),
                s0.len() == n,
                k <= n,
                forall|j: int|
                    0 <= j < n ==> (#[trigger] self.layers@[j]).layer_id@ == s0[j].layer_id@
                        && self.layers@[j].last_seen == s0[j].last_seen,
                forall|j: int| k <= j < n ==> #[trigger] self.layers@[j] == s0[j],
                forall|j: int|
                    0 <= j < n ==> unique_keys((#[trigger] self.layers@[j]).buffers@, buf_key()),
                forall|j: int, t: i64|
                    0 <= j < k ==> #[trigger] find_by(self.layers@[j].buffers@, buf_key(), t) == (
                    if s0[j].last_seen - t > STALE_THRESHOLD_MICROS as int {
                        None::<FragmentBuffer>
                    } else {
                        find_by(s0[j].buffers@, buf_key(), t)
                    }),
            decreases n - k,
        {
            let last = self.layers[k].last_seen;
            let ghost sk = self.layers@;
            reap_layer(&mut self.layers[k].buffers, last);
            proof {
                assert forall|j: int| 0 <= j < n && j != k as int implies #[trigger] self.layers@[j]
                    == sk[j] by {}
            }
            k += 1;
        }
        proof {
            let s1 = self.layers@;
            assert forall|id: Seq<char>|
                #[trigger] key_index(s1, layer_key(), id) == key_index(s0, layer_key(), id) by {
                assert forall|j: int| 0 <= j < n implies layer_key()(#[trigger] s0[j])
                    == layer_key()(#[trigger] s1[j]) by {}
                lemma_key_index_congruence(s0, s1, layer_key(), id);
            }
            assert forall|a: int, b: int| 0 <= a < b < n implies layer_key()(s1[a]) != layer_key()(
                s1[b],
            ) by {
                assert(layer_key()(s0[a]) != layer_key()(s0[b]));
            }
            assert(unique_keys(s1, layer_key()));
            assert forall|id: Seq<char>|
                #[trigger] self.last_seen(id) == old(self).last_seen(id) by {
                lemma_key_index_props(s0, layer_key(), id);
            }
            assert forall|id: Seq<char>, t: i64|
                #[trigger] self.buffered(id, t) == (if is_stale(*old(self), id, t) {
                    None::<Seq<Seq<u8>>>
                } else {
                    old(self).buffered(id, t)
                }) by {
                lemma_key_index_props(s0, layer_key(), id);
            }
        }
    }

    /// One ingestion step as the ingestion loop performs it: ingest the
    /// message, then evict whatever the message has made stale.  The result
    /// is `ingest`'s; afterwards every buffer reflects the ingested message
    /// with all stale buffers gone, and nothing stale remains buffered.
    pub fn step(&mut self, msg: ParsedMessage) -> (r: Result<Option<LayerFrame>, DecodeError>)
        requires
            old(self).wf(),
        ensures
            final(self).wf(),
            forall|id: Seq<char>|
                #[trigger] final(self).last_seen(id) == seen_after(*old(self), msg, id),
            forall|id: Seq<char>, t: i64|
                #[trigger] final(self).buffered(id, t) == (if stale_after(*old(self), msg, id, t) {
                    None::<Seq<Seq<u8>>>
                } else {
                    buffered_after(*old(self), msg, id, t)
                }),
            forall|id: Seq<char>, t: i64|
                is_stale(*final(self), id, t) ==> #[trigger] final(self).buffered(id, t) is None,
            msg matches ParsedMessage::KeepAlive { .. } ==> r == Ok::<
                Option<LayerFrame>,
                DecodeError,
            >(None),
            msg matches ParsedMessage::Data(m) ==> (!m.is_last ==> r == Ok::<
                Option<LayerFrame>,
                DecodeError,
            >(None)),
            msg matches ParsedMessage::Data(m) ==> ((m.is_last && all_chunks_aligned(
                appended_chunks(*old(self), m.layer_id@, m.timestamp, m.payload@),
            )) ==> (r matches Ok(Some(f)) && f.layer_id@ == m.layer_id@ && f.outputs@ == m.outputs@
                && f.points@ == frame_points_spec(
                appended_chunks(*old(self), m.layer_id@, m.timestamp, m.payload@),
            ))),
            msg matches ParsedMessage::Data(m) ==> ((m.is_last && !all_chunks_aligned(
                appended_chunks(*old(self), m.layer_id@, m.timestamp, m.payload@),
            )) ==> r == Err::<Option<LayerFrame>, DecodeError>(DecodeError)),
    {
        let ghost r0 = *self;
        let r = self.ingest(msg);
        let ghost mid = *self;
        self.reap();
        proof {
            assert forall|id: Seq<char>|
                #[trigger] self.last_seen(id) == seen_after(r0, msg, id) by {
                if id != msg.layer() {
                    assert(mid.last_seen(id) == r0.last_seen(id));
                }
            }
            assert forall|id: Seq<char>, t: i64|
                #[trigger] self.buffered(id, t) == (if stale_after(r0, msg, id, t) {
                    None::<Seq<Seq<u8>>>
                } else {
                    buffered_after(r0, msg, id, t)
                }) by {
                assert(is_stale(mid, id, t) == stale_after(r0, msg, id, t)) by {
                    if id != msg.layer() {
                        assert(mid.last_seen(id) == r0.last_seen(id));
                    }
                }
                if !is_stale(mid, id, t) {
                    assert(mid.buffered(id, t) == buffered_after(r0, msg, id, t)) by {
                        match msg {
                            ParsedMessage::KeepAlive { .. } => {},
                            ParsedMessage::Data(m) => {
                                if !(id == m.layer_id@ && t == m.timestamp) {
                                    assert(mid.buffered(id, t) == r0.buffered(id, t));
                                }
                            },
                        }
                    }
                }
            }
        }
        r
    }
}

} // verus!
