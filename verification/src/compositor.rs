//! Per-tick compositing: every output buffer is rebuilt from scratch as the
//! concatenation, in cache iteration order, of the points of every cached
//! layer that targets it.

use vstd::prelude::*;
use crate::cache::EntryModel;
use crate::cache::FrameCache;
use crate::point::Point;

verus! {

/// The points output `out` shows: the points of every entry whose target
/// list contains `out`, concatenated in cache iteration order.
pub open spec fn composite_spec(entries: Seq<EntryModel>, out: i32) -> Seq<Point>
    decreases entries.len(),
{
    if entries.len() == 0 {
        Seq::empty()
    } else {
        (if entries[0].outputs.contains(out) {
            entries[0].points
        } else {
            Seq::empty()
        }) + composite_spec(entries.drop_first(), out)
    }
}

/// Total point count across the entries that target `out`.
pub open spec fn selected_count(entries: Seq<EntryModel>, out: i32) -> int
    decreases entries.len(),
{
    if entries.len() == 0 {
        0
    } else {
        (if entries[0].outputs.contains(out) {
            entries[0].points.len() as int
        } else {
            0
        }) + selected_count(entries.drop_first(), out)
    }
}

/// Appending an entry appends its points when it targets the output.
proof fn lemma_composite_push(entries: Seq<EntryModel>, x: EntryModel, out: i32)
    ensures
        composite_spec(entries.push(x), out) == composite_spec(entries, out) + (if x.outputs.contains(
            out,
        ) {
            x.points
        } else {
            Seq::<Point>::empty()
        }),
    decreases entries.len(),
{
    if entries.len() == 0 {
        assert(entries.push(x).drop_first() =~= Seq::<EntryModel>::empty());
        assert(composite_spec(Seq::<EntryModel>::empty(), out) == Seq::<Point>::empty());
        assert(entries.push(x)[0] == x);
        assert(composite_spec(entries.push(x), out) =~= composite_spec(entries, out) + (
        if x.outputs.contains(out) {
            x.points
        } else {
            Seq::<Point>::empty()
        }));
    } else {
        assert(entries.push(x).drop_first() =~= entries.drop_first().push(x));
        lemma_composite_push(entries.drop_first(), x, out);
        assert(composite_spec(entries.push(x), out) =~= composite_spec(entries, out) + (
        if x.outputs.contains(out) {
            x.points
        } else {
            Seq::<Point>::empty()
        }));
    }
}

/// An output buffer holds one point for each point of each entry that
/// targets it: its length is the sum of those entries' point counts.
pub proof fn lemma_composite_count(entries: Seq<EntryModel>, out: i32)
    ensures
        composite_spec(entries, out).len() == selected_count(entries, out),
    decreases entries.len(),
{
    if entries.len() == 0 {
    } else {
        lemma_composite_count(entries.drop_first(), out);
    }
}

/// Compositing is a function of the cached entries alone: recompositing an
/// unchanged cache yields an identical output buffer.
pub proof fn lemma_composite_deterministic(c1: FrameCache, c2: FrameCache, out: i32)
    requires
        c1.entries() == c2.entries(),
    ensures
        composite_spec(c1.entries(), out) == composite_spec(c2.entries(), out),
{
}

/// Whether a target list names an output.
fn targets(outputs: &Vec<i32>, out: i32) -> (b: bool)
    ensures
        b == outputs@.contains(out),
{
    let n: usize = outputs.len();
    let mut i: usize = 0;
    while i < n
        invariant
            i <= n,
            n == outputs@.len(),
            forall|j: int| 0 <= j < i ==> outputs@[j] != out,
        decreases n - i,
    {
        if outputs[i] == out {
            return true;
        }
        i += 1;
    }
    proof {
        assert(!outputs@.contains(out));
    }
    false
}

/// Append a copy of every point in `src` to `dst`.
fn append_points(dst: &mut Vec<Point>, src: &Vec<Point>)
    ensures
        final(dst)@ == old(dst)@ + src@,
{
    let n: usize = src.len();
    let mut i: usize = 0;
    while i < n
        invariant
            i <= n,
            n == src@.len(),
            dst@ == old(dst)@ + src@.take(i as int),
        decreases n - i,
    {
        dst.push(src[i]);
        proof {
            assert(old(dst)@ + src@.take(i as int + 1) =~= (old(dst)@ + src@.take(i as int)).push(
                src@[i as int],
            ));
        }
        i += 1;
    }
    proof {
        assert(src@.take(n as int) =~= src@);
    }
}

/// Rebuild the buffer of output `out` from the cache: exactly the points of
/// every cached layer that targets `out`, concatenated in cache order.
pub fn composite(cache: &FrameCache, out: i32) -> (r: Vec<Point>)
    ensures
        r@ == composite_spec(cache.entries(), out),
{
    let mut r: Vec<Point> = Vec::new();
    let n: usize = cache.len();
    let mut i: usize = 0;
    while i < n
        invariant
            i <= n,
            n == cache.entries().len(),
            r@ == composite_spec(cache.entries().take(i as int), out),
        decreases n - i,
    {
        let ghost prefix = cache.entries().take(i as int);
        if targets(cache.outputs_at(i), out) {
            append_points(&mut r, cache.points_at(i));
        }
        proof {
            lemma_composite_push(prefix, cache.entries()[i as int], out);
            assert(cache.entries().take(i as int + 1) =~= prefix.push(
                cache.entries()[i as int],
            ));
        }
        i += 1;
    }
    proof {
        assert(cache.entries().take(n as int) =~= cache.entries());
    }
    r
}

} // verus!
