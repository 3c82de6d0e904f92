//! The per-tick dispatch path: drain completed frames into the cache, query
//! sink readiness, and when the sink is ready composite every output buffer
//! into a submission the sink can take.
//!
//! Draining is never skipped, so the handoff queue stays bounded even while
//! the sink is not ready; nothing is sent on such a tick, and the next ready
//! tick composites only the latest cached frame per layer.

use vstd::prelude::*;
use crate::NUM_OUTPUTS;
use crate::SCAN_RATE_PERCENT;
use crate::cache::FrameCache;
use crate::cache::drained_entry;
use crate::compositor::composite;
use crate::compositor::composite_spec;
use crate::point::Point;
use crate::reassembler::LayerFrame;

verus! {

/// Where a tick ends: `Idle` before anything happens, `SinkNotReady` when
/// the readiness query fails, otherwise `Composited` once the output
/// buffers are rebuilt and `Sent` once every submission is handed over.
#[derive(Clone, Copy, PartialEq, Eq, Structural, Debug)]
pub enum TickState {
    Idle,
    Composited,
    Sent,
    SinkNotReady,
}

/// One transition of the per-tick state machine: from `Idle` the readiness
/// query leads to `Composited` or `SinkNotReady`; compositing leads to
/// `Sent`; the terminal states rest.
pub open spec fn tick_step(s: TickState, sink_ready: bool) -> TickState {
    match s {
        TickState::Idle => if sink_ready {
            TickState::Composited
        } else {
            TickState::SinkNotReady
        },
        TickState::Composited => TickState::Sent,
        other => other,
    }
}

/// The state a tick ends in: two steps from `Idle`.
pub open spec fn tick_outcome(sink_ready: bool) -> TickState {
    tick_step(tick_step(TickState::Idle, sink_ready), sink_ready)
}

/// One output's frame, ready for the sink: the output's address, its
/// composited points, its zero-terminated zone list, and the scan rate.
pub struct Submission {
    pub address: Vec<u8>,
    pub points: Vec<Point>,
    pub zones: Vec<u8>,
    pub scan_rate: i32,
}

/// The address naming output `i`: the bytes of `/output<i+1>`, zero
/// terminated.
pub open spec fn address_spec(i: int) -> Seq<u8> {
    seq![47u8, 111u8, 117u8, 116u8, 112u8, 117u8, 116u8, (49 + i) as u8, 0u8]
}

/// The address bytes of an output.
pub fn output_address(i: usize) -> (r: Vec<u8>)
    requires
        i < NUM_OUTPUTS,
    ensures
        r@ == address_spec(i as int),
{
    let mut r: Vec<u8> = Vec::new();
    r.push(47);
    r.push(111);
    r.push(117);
    r.push(116);
    r.push(112);
    r.push(117);
    r.push(116);
    r.push(49 + i as u8);
    r.push(0);
    proof {
        assert(r@ =~= address_spec(i as int));
    }
    r
}

/// The zone indices a frame for output `i` is drawn to.
pub fn zones_for_output(i: usize) -> (r: Vec<u8>)
    requires
        i < NUM_OUTPUTS,
    ensures
        r@ =~= seq![(i + 1) as u8],
{
    let mut r: Vec<u8> = Vec::new();
    r.push(i as u8 + 1);
    r
}

/// Shift a zone list into the sink's one-based form and terminate it with
/// the zero sentinel.
pub fn zone_terminated(zone_indices: &Vec<u8>) -> (r: Vec<u8>)
    requires
        zone_indices@.len() < 255,
        forall|j: int| 0 <= j < zone_indices@.len() ==> zone_indices@[j] < 255,
    ensures
        r@.len() == zone_indices@.len() + 1,
        forall|j: int| 0 <= j < zone_indices@.len() ==> r@[j] == zone_indices@[j] + 1,
        r@[zone_indices@.len() as int] == 0,
{
    let n: usize = zone_indices.len();
    let mut r: Vec<u8> = Vec::new();
    let mut i: usize = 0;
    while i < n
        invariant
            i <= n,
            n == zone_indices@.len(),
            n < 255,
            forall|j: int| 0 <= j < n ==> zone_indices@[j] < 255,
            r@.len() == i,
            forall|j: int| 0 <= j < i ==> r@[j] == zone_indices@[j] + 1,
        decreases n - i,
    {
        r.push(zone_indices[i] + 1);
        i += 1;
    }
    r.push(0);
    r
}

/// One dispatch tick.
///
/// The pending completions are always drained into the cache, last frame
/// per layer winning.  When the sink is not ready the tick ends there, in
/// `SinkNotReady`, with nothing to send.  When it is ready, the tick ends
/// in `Sent` with one submission per output: its address, the points
/// composited from the freshly drained cache, the output's zero-terminated
/// zone list, and the scan rate.
pub fn run_tick(cache: &mut FrameCache, pending: Vec<LayerFrame>, sink_ready: bool) -> (r: (
    TickState,
    Vec<Submission>,
))
    requires
        old(cache).wf(),
    ensures
        final(cache).wf(),
        forall|id: Seq<char>|
            #[trigger] final(cache).entry_of(id) == drained_entry(
                old(cache).entry_of(id),
                pending@,
                id,
            ),
        r.0 == tick_outcome(sink_ready),
        !sink_ready ==> r.1@.len() == 0,
        sink_ready ==> r.1@.len() == NUM_OUTPUTS as int,
        sink_ready ==> forall|i: int|
            0 <= i < NUM_OUTPUTS as int ==> (#[trigger] r.1@[i]).address@ == address_spec(i)
                && r.1@[i].points@ == composite_spec(final(cache).entries(), i as i32)
                && r.1@[i].zones@ == seq![(i + 2) as u8, 0u8] && r.1@[i].scan_rate
                == SCAN_RATE_PERCENT,
{
    cache.drain(pending);
    if !sink_ready {
        return (TickState::SinkNotReady, Vec::new());
    }
    let mut subs: Vec<Submission> = Vec::new();
    let mut i: usize = 0;
    while i < NUM_OUTPUTS
        invariant
            sink_ready,
            i <= NUM_OUTPUTS,
            cache.wf(),
            subs@.len() == i,
            forall|j: int|
                0 <= j < i ==> (#[trigger] subs@[j]).address@ == address_spec(j) && subs@[j].points@
                    == composite_spec(cache.entries(), j as i32) && subs@[j].zones@ == seq![
                    (j + 2) as u8,
                    0u8,
                ] && subs@[j].scan_rate == SCAN_RATE_PERCENT,
        decreases NUM_OUTPUTS - i,
    {
        let address = output_address(i);
        let points = composite(cache, i as i32);
        let zone_indices = zones_for_output(i);
        let zones = zone_terminated(&zone_indices);
        proof {
            assert(zones@ =~= seq![(i + 2) as u8, 0u8]);
        }
        subs.push(Submission { address, points, zones, scan_rate: SCAN_RATE_PERCENT });
        i += 1;
    }
    (TickState::Sent, subs)
}

} // verus!
