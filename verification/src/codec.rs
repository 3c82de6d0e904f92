//! Decoding of fragment payloads and assembly of a frame's point sequence
//! from its buffered chunks.

use vstd::prelude::*;
use crate::point::Point;
use crate::point::decode_record_spec;
use crate::point::decode_record;

verus! {

/// A payload's length was not a multiple of the 8-byte record width.
#[derive(Clone, Copy, PartialEq, Eq, Structural, Debug)]
pub struct DecodeError;

/// The points encoded by a payload, one per 8-byte record.
pub open spec fn decode_points_spec(payload: Seq<u8>) -> Seq<Point> {
    Seq::new(
        (payload.len() / 8) as nat,
        |i: int| decode_record_spec(payload.subrange(8 * i, 8 * i + 8)),
    )
}

/// Every chunk's length is a multiple of the record width.
pub open spec fn all_chunks_aligned(chunks: Seq<Seq<u8>>) -> bool {
    forall|i: int| 0 <= i < chunks.len() ==> #[trigger] chunks[i].len() % 8 == 0
}

/// The points of a completed frame: each chunk decoded in arrival order,
/// records in within-chunk order.
pub open spec fn frame_points_spec(chunks: Seq<Seq<u8>>) -> Seq<Point>
    decreases chunks.len(),
{
    if chunks.len() == 0 {
        Seq::empty()
    } else {
        decode_points_spec(chunks[0]) + frame_points_spec(chunks.drop_first())
    }
}

/// Total number of payload bytes across all chunks.
pub open spec fn total_bytes(chunks: Seq<Seq<u8>>) -> int
    decreases chunks.len(),
{
    if chunks.len() == 0 {
        0
    } else {
        chunks[0].len() + total_bytes(chunks.drop_first())
    }
}

/// Decode a single fragment payload into points; fails exactly when the
/// payload length is not a multiple of the record width.
pub fn decode_payload(payload: &Vec<u8>) -> (r: Result<Vec<Point>, DecodeError>)
    ensures
        r is Ok <==> payload@.len() % 8 == 0,
        r matches Ok(pts) ==> pts@ == decode_points_spec(payload@),
{
    let n: usize = payload.len();
    if n % 8 != 0 {
        return Err(DecodeError);
    }
    let mut pts: Vec<Point> = Vec::new();
    let mut off: usize = 0;
    while off < n
        invariant
            n == payload@.len(),
            n % 8 == 0,
            off % 8 == 0,
            off <= n,
            pts@.len() == off / 8,
            forall|j: int|
                0 <= j < pts@.len() ==> pts@[j] == decode_record_spec(
                    #[trigger] payload@.subrange(8 * j, 8 * j + 8),
                ),
        decreases n - off,
    {
        let p = decode_record(payload, off);
        pts.push(p);
        off += 8;
    }
    proof {
        assert(pts@ =~= decode_points_spec(payload@));
    }
    Ok(pts)
}

/// Appending a chunk appends its decoded points to the frame.
pub proof fn lemma_frame_points_push(chunks: Seq<Seq<u8>>, chunk: Seq<u8>)
    ensures
        frame_points_spec(chunks.push(chunk)) == frame_points_spec(chunks) + decode_points_spec(chunk),
        total_bytes(chunks.push(chunk)) == total_bytes(chunks) + chunk.len(),
    decreases chunks.len(),
{
    if chunks.len() == 0 {
        assert(chunks.push(chunk).drop_first() =~= Seq::<Seq<u8>>::empty());
        assert(frame_points_spec(Seq::<Seq<u8>>::empty()) == Seq::<Point>::empty());
        assert(total_bytes(Seq::<Seq<u8>>::empty()) == 0);
        assert(chunks.push(chunk)[0] == chunk);
        assert(frame_points_spec(chunks.push(chunk)) =~= frame_points_spec(chunks)
            + decode_points_spec(chunk));
    } else {
        assert(chunks.push(chunk).drop_first() =~= chunks.drop_first().push(chunk));
        lemma_frame_points_push(chunks.drop_first(), chunk);
        assert(frame_points_spec(chunks.push(chunk)) =~= frame_points_spec(chunks)
            + decode_points_spec(chunk));
    }
}

/// The chunks concatenated in arrival order.
pub open spec fn concat_chunks(chunks: Seq<Seq<u8>>) -> Seq<u8>
    decreases chunks.len(),
{
    if chunks.len() == 0 {
        Seq::empty()
    } else {
        chunks[0] + concat_chunks(chunks.drop_first())
    }
}

/// Decoding a whole number of records, then the rest, decodes the whole.
proof fn lemma_decode_points_append(a: Seq<u8>, b: Seq<u8>)
    requires
        a.len() % 8 == 0,
    ensures
        decode_points_spec(a + b) == decode_points_spec(a) + decode_points_spec(b),
{
    let ab = a + b;
    let ka = a.len() / 8;
    assert(a.len() == 8 * ka && ab.len() / 8 == ka + b.len() / 8) by (nonlinear_arith)
        requires
            a.len() % 8 == 0,
            ka == a.len() / 8,
            ab.len() == a.len() + b.len(),
    ;
    assert forall|i: int| 0 <= i < ab.len() / 8 implies decode_points_spec(ab)[i] == (
    decode_points_spec(a) + decode_points_spec(b))[i] by {
        if i < ka {
            assert(ab.subrange(8 * i, 8 * i + 8) =~= a.subrange(8 * i, 8 * i + 8));
        } else {
            let j = i - ka;
            assert(8 * i == a.len() + 8 * j && 8 * i + 8 == a.len() + (8 * j + 8))
                by (nonlinear_arith)
                requires
                    a.len() == 8 * ka,
                    j == i - ka,
            ;
            assert(ab.subrange(8 * i, 8 * i + 8) =~= b.subrange(8 * j, 8 * j + 8));
        }
    }
    assert(decode_points_spec(ab) =~= decode_points_spec(a) + decode_points_spec(b));
}

/// Fragmentation does not affect the decoded frame: decoding chunk by chunk
/// agrees with decoding the payloads concatenated in arrival order.
pub proof fn lemma_frame_points_concat(chunks: Seq<Seq<u8>>)
    requires
        all_chunks_aligned(chunks),
    ensures
        frame_points_spec(chunks) == decode_points_spec(concat_chunks(chunks)),
    decreases chunks.len(),
{
    if chunks.len() == 0 {
        assert(decode_points_spec(Seq::<u8>::empty()) =~= Seq::<Point>::empty());
    } else {
        assert(all_chunks_aligned(chunks.drop_first())) by {
            assert(forall|i: int|
                0 <= i < chunks.drop_first().len() ==> chunks.drop_first()[i]
                    == #[trigger] chunks[i + 1]);
        }
        lemma_frame_points_concat(chunks.drop_first());
        lemma_decode_points_append(chunks[0], concat_chunks(chunks.drop_first()));
    }
}

/// A completed frame carries one point per 8 buffered payload bytes: the
/// point count times the record width equals the total fragment bytes.
pub proof fn lemma_frame_point_count(chunks: Seq<Seq<u8>>)
    requires
        all_chunks_aligned(chunks),
    ensures
        frame_points_spec(chunks).len() * 8 == total_bytes(chunks),
    decreases chunks.len(),
{
    if chunks.len() == 0 {
    } else {
        assert(all_chunks_aligned(chunks.drop_first())) by {
            assert(forall|i: int|
                0 <= i < chunks.drop_first().len() ==> #[trigger] chunks.drop_first()[i].len() % 8
                    == 0) by {
                assert(forall|i: int|
                    0 <= i < chunks.drop_first().len() ==> chunks.drop_first()[i]
                        == #[trigger] chunks[i + 1]);
            }
        }
        lemma_frame_point_count(chunks.drop_first());
        let head = chunks[0];
        assert(head.len() % 8 == 0);
        assert(decode_points_spec(head).len() * 8 == head.len()) by (nonlinear_arith)
            requires
                decode_points_spec(head).len() == head.len() / 8,
                head.len() % 8 == 0,
        ;
    }
}

/// Assemble a completed frame's points from its buffered chunks; fails
/// exactly when some chunk's length is not a multiple of the record width.
pub fn assemble_frame(chunks: &Vec<Vec<u8>>) -> (r: Result<Vec<Point>, DecodeError>)
    ensures
        r is Ok <==> all_chunks_aligned(chunks.deep_view()),
        r matches Ok(pts) ==> pts@ == frame_points_spec(chunks.deep_view()),
{
    let mut pts: Vec<Point> = Vec::new();
    let mut i: usize = 0;
    let n: usize = chunks.len();
    proof {
        assert(chunks.deep_view().len() == chunks@.len());
    }
    while i < n
        invariant
            n == chunks@.len(),
            chunks.deep_view().len() == n,
            forall|j: int| 0 <= j < n ==> #[trigger] chunks.deep_view()[j] == chunks@[j]@,
            i <= n,
            all_chunks_aligned(chunks.deep_view().take(i as int)),
            pts@ == frame_points_spec(chunks.deep_view().take(i as int)),
        decreases n - i,
    {
        let decoded = match decode_payload(&chunks[i]) {
            Ok(d) => d,
            Err(e) => {
                proof {
                    assert(chunks.deep_view()[i as int].len() % 8 != 0);
                }
                return Err(e);
            },
        };
        let mut decoded = decoded;
        pts.append(&mut decoded);
        proof {
            let prefix = chunks.deep_view().take(i as int);
            lemma_frame_points_push(prefix, chunks.deep_view()[i as int]);
            assert(chunks.deep_view().take(i as int + 1) =~= prefix.push(
                chunks.deep_view()[i as int],
            ));
        }
        i += 1;
    }
    proof {
        assert(chunks.deep_view().take(n as int) =~= chunks.deep_view());
    }
    Ok(pts)
}

} // verus!
