use laser_lattice::cache::FrameCache;
use laser_lattice::codec::DecodeError;
use laser_lattice::compositor::composite;
use laser_lattice::dispatcher::run_tick;
use laser_lattice::dispatcher::output_address;
use laser_lattice::dispatcher::zone_terminated;
use laser_lattice::dispatcher::zones_for_output;
use laser_lattice::dispatcher::TickState;
use laser_lattice::message::Message;
use laser_lattice::message::ParsedMessage;
use laser_lattice::point::decode_record;
use laser_lattice::point::Point;
use laser_lattice::reassembler::LayerFrame;
use laser_lattice::reassembler::Reassembler;
use laser_lattice::NUM_OUTPUTS;

fn data(layer: &str, timestamp: i64, is_last: bool, outputs: Vec<i32>, payload: Vec<u8>) -> ParsedMessage {
    ParsedMessage::Data(Message {
        layer_id: layer.to_string(),
        timestamp,
        is_last,
        outputs,
        payload,
    })
}

fn record(seed: u8) -> Vec<u8> {
    vec![seed, 0x01, 0x02, 0x03, 0x10, 0x20, 0x30, 0x00]
}

fn points_of(payload: &[u8]) -> Vec<Point> {
    let owned = payload.to_vec();
    let mut pts = Vec::new();
    let mut off = 0;
    while off < owned.len() {
        pts.push(decode_record(&owned, off));
        off += 8;
    }
    pts
}

#[test]
fn two_fragments_complete_into_three_points_on_their_outputs() {
    let mut reasm = Reassembler::new();

    let first = record(0xAA);
    let mut second = record(0xBB);
    second.extend_from_slice(&record(0xCC));

    let r = reasm.step(data("/layerA", 1000, false, vec![0, 2], first.clone()));
    assert!(matches!(r, Ok(None)));

    let frame = reasm
        .step(data("/layerA", 1000, true, vec![0, 2], second.clone()))
        .unwrap()
        .unwrap();
    assert_eq!(frame.layer_id, "/layerA");
    assert_eq!(frame.outputs, vec![0, 2]);
    assert_eq!(frame.points.len(), 3);
    let mut expected = points_of(&first);
    expected.extend_from_slice(&points_of(&second));
    assert_eq!(frame.points, expected);

    let mut cache = FrameCache::new();
    let (state, subs) = run_tick(&mut cache, vec![frame], true);
    assert_eq!(state, TickState::Sent);
    assert_eq!(subs.len(), NUM_OUTPUTS);
    assert_eq!(subs[0].points, expected);
    assert!(subs[1].points.is_empty());
    assert_eq!(subs[2].points, expected);
    assert!(subs[3].points.is_empty());
    assert!(subs[4].points.is_empty());
}

#[test]
fn point_count_is_independent_of_fragmentation() {
    // one 24-byte fragment
    let mut whole = record(1);
    whole.extend_from_slice(&record(2));
    whole.extend_from_slice(&record(3));
    let mut reasm = Reassembler::new();
    let frame = reasm.step(data("/a", 1, true, vec![0], whole)).unwrap().unwrap();
    assert_eq!(frame.points.len(), 3);

    // the same bytes as three 8-byte fragments
    let mut reasm = Reassembler::new();
    assert!(matches!(reasm.step(data("/a", 1, false, vec![0], record(1))), Ok(None)));
    assert!(matches!(reasm.step(data("/a", 1, false, vec![0], record(2))), Ok(None)));
    let frame = reasm.step(data("/a", 1, true, vec![0], record(3))).unwrap().unwrap();
    assert_eq!(frame.points.len(), 3);
}

#[test]
fn empty_terminal_payload_completes_an_empty_frame() {
    let mut reasm = Reassembler::new();
    let frame = reasm.step(data("/a", 9, true, vec![1], Vec::new())).unwrap().unwrap();
    assert!(frame.points.is_empty());
    assert_eq!(frame.outputs, vec![1]);
}

#[test]
fn keep_alive_produces_nothing() {
    let mut reasm = Reassembler::new();
    let r = reasm.step(ParsedMessage::KeepAlive {
        layer_id: "/alive".to_string(),
        timestamp: 123,
    });
    assert!(matches!(r, Ok(None)));
}

#[test]
fn unaligned_fragment_fails_and_drops_only_its_buffer() {
    let mut reasm = Reassembler::new();
    // a 7-byte fragment completes into a decode failure
    assert!(matches!(reasm.step(data("/a", 1, false, vec![0], vec![0u8; 7])), Ok(None)));
    let r = reasm.step(data("/a", 1, true, vec![0], record(1)));
    assert_eq!(r.err(), Some(DecodeError));
    // the buffer for that timestamp is gone: a fresh terminal fragment at the
    // same timestamp sees none of the failed bytes
    let frame = reasm.step(data("/a", 1, true, vec![0], record(2))).unwrap().unwrap();
    assert_eq!(frame.points.len(), 1);
    // other layers are unaffected throughout
    let frame = reasm.step(data("/b", 1, true, vec![0], record(3))).unwrap().unwrap();
    assert_eq!(frame.points.len(), 1);
}

#[test]
fn stale_buffer_is_purged_before_the_next_completion() {
    let mut reasm = Reassembler::new();
    // a fragment at timestamp 5000 with no terminal fragment
    assert!(matches!(reasm.step(data("/layerA", 5000, false, vec![0], record(1))), Ok(None)));
    // a later message on the same layer moves last-seen past the window
    assert!(matches!(
        reasm.step(data("/layerA", 1_200_000, false, vec![0], record(2))),
        Ok(None)
    ));
    // a late terminal fragment for 5000 finds nothing buffered: only its own
    // payload survives into the frame
    let frame = reasm.step(data("/layerA", 5000, true, vec![0], record(3))).unwrap().unwrap();
    assert_eq!(frame.points, points_of(&record(3)));
}

#[test]
fn fresh_buffer_survives_the_reaper() {
    let mut reasm = Reassembler::new();
    assert!(matches!(reasm.step(data("/layerA", 5000, false, vec![0], record(1))), Ok(None)));
    // exactly at the window boundary nothing is purged
    assert!(matches!(
        reasm.step(data("/layerA", 1_005_000, false, vec![0], record(2))),
        Ok(None)
    ));
    let frame = reasm.step(data("/layerA", 5000, true, vec![0], record(3))).unwrap().unwrap();
    let mut expected = points_of(&record(1));
    expected.extend_from_slice(&points_of(&record(3)));
    assert_eq!(frame.points, expected);
}

#[test]
fn newest_completion_wins_even_out_of_timestamp_order() {
    let mut reasm = Reassembler::new();
    let newer = reasm.step(data("/a", 2000, true, vec![0], record(1))).unwrap().unwrap();
    let older = reasm.step(data("/a", 1000, true, vec![0], record(2))).unwrap().unwrap();

    let mut cache = FrameCache::new();
    let (_, subs) = run_tick(&mut cache, vec![newer, older], true);
    // the later completion overwrites, although its timestamp is older
    assert_eq!(subs[0].points, points_of(&record(2)));
}

#[test]
fn cache_holds_one_entry_per_layer() {
    let mut cache = FrameCache::new();
    cache.insert(LayerFrame {
        layer_id: "/a".to_string(),
        points: points_of(&record(1)),
        outputs: vec![0],
    });
    cache.insert(LayerFrame {
        layer_id: "/a".to_string(),
        points: points_of(&record(2)),
        outputs: vec![0],
    });
    assert_eq!(cache.len(), 1);
    // the single entry contributes its points exactly once
    let out = composite(&cache, 0);
    assert_eq!(out, points_of(&record(2)));
}

#[test]
fn composite_concatenates_every_targeting_layer() {
    let mut cache = FrameCache::new();
    cache.insert(LayerFrame {
        layer_id: "/a".to_string(),
        points: points_of(&record(1)),
        outputs: vec![0, 1],
    });
    let mut two = record(2);
    two.extend_from_slice(&record(3));
    cache.insert(LayerFrame {
        layer_id: "/b".to_string(),
        points: points_of(&two),
        outputs: vec![1],
    });
    assert_eq!(composite(&cache, 0).len(), 1);
    assert_eq!(composite(&cache, 1).len(), 3);
    assert!(composite(&cache, 2).is_empty());
}

#[test]
fn compositing_twice_without_new_input_is_identical() {
    let mut cache = FrameCache::new();
    cache.insert(LayerFrame {
        layer_id: "/a".to_string(),
        points: points_of(&record(7)),
        outputs: vec![3],
    });
    let first = composite(&cache, 3);
    let second = composite(&cache, 3);
    assert_eq!(first, second);
    assert_eq!(first, points_of(&record(7)));
}

#[test]
fn not_ready_ticks_drain_but_send_nothing() {
    let mut cache = FrameCache::new();
    for seed in [1u8, 2, 3] {
        let frame = LayerFrame {
            layer_id: "/a".to_string(),
            points: points_of(&record(seed)),
            outputs: vec![0],
        };
        let (state, subs) = run_tick(&mut cache, vec![frame], false);
        assert_eq!(state, TickState::SinkNotReady);
        assert!(subs.is_empty());
    }
    // once the sink is ready, the composite reflects only the latest cached
    // frame per layer, not a backlog of the intermediate ones
    let (state, subs) = run_tick(&mut cache, Vec::new(), true);
    assert_eq!(state, TickState::Sent);
    assert_eq!(subs[0].points, points_of(&record(3)));
}

#[test]
fn submissions_carry_addresses_zones_and_scan_rate() {
    let mut cache = FrameCache::new();
    let (_, subs) = run_tick(&mut cache, Vec::new(), true);
    assert_eq!(subs.len(), 5);
    assert_eq!(subs[0].address, b"/output1\0".to_vec());
    assert_eq!(subs[4].address, b"/output5\0".to_vec());
    for (i, sub) in subs.iter().enumerate() {
        assert_eq!(sub.zones, vec![i as u8 + 2, 0]);
        assert_eq!(sub.scan_rate, 100);
    }
}

#[test]
fn zone_lists_are_one_based_and_zero_terminated() {
    assert_eq!(output_address(2), b"/output3\0".to_vec());
    assert_eq!(zones_for_output(3), vec![4]);
    assert_eq!(zone_terminated(&vec![4]), vec![5, 0]);
    assert_eq!(zone_terminated(&vec![0, 7, 250]), vec![1, 8, 251, 0]);
    assert_eq!(zone_terminated(&Vec::new()), vec![0]);
}
