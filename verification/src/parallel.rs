//! Work on several threads.

use vstd::prelude::*;

verus! {

/// `rayon::join` runs both closures, perhaps at the same time, and returns what each of them
/// returned. On its arguments it panics only where one of the closures does; it also panics on a
/// machine that cannot start the threads of the pool.
pub assume_specification<A, B, RA, RB>[ rayon::join::<A, B, RA, RB> ](oper_a: A, oper_b: B) -> (r: (
    RA,
    RB,
)) where A: FnOnce() -> RA + Send, B: FnOnce() -> RB + Send, RA: Send, RB: Send
    requires
        oper_a.requires(()),
        oper_b.requires(()),
    ensures
        oper_a.ensures((), r.0),
        oper_b.ensures((), r.1),
;

/// Up to how many chunks are worked on one after the other on one thread.
const SEQUENTIAL_CHUNKS: usize = 16;

/// Whether `f` may answer `value` on a slice that holds `elements`.
pub open spec fn maps_to<T, R, M: Fn(&[T]) -> R>(f: M, elements: Seq<T>, value: R) -> bool {
    exists|chunk: &[T]| chunk@ == elements && #[trigger] f.ensures((chunk,), value)
}

/// Maps `f` over the chunks with the numbers `from` to `to`, in their order: half of them on
/// each of two threads where they are many.
fn map_chunk_range<T: Sync, R: Send, M: Fn(&[T]) -> R + Sync + Send>(
    slice: &[T],
    chunk_size: usize,
    from: usize,
    to: usize,
    f: &M,
) -> (r: Vec<R>)
    requires
        chunk_size > 0,
        from <= to,
        to * chunk_size <= slice@.len(),
        forall|chunk: &[T]| chunk@.len() == chunk_size ==> #[trigger] f.requires((chunk,)),
    ensures
        r@.len() == to - from,
        forall|i: int|
            0 <= i < r@.len() ==> maps_to(
                *f,
                slice@.subrange((from + i) * chunk_size, (from + i + 1) * chunk_size),
                #[trigger] r@[i],
            ),
    decreases to - from,
{
    if to - from <= SEQUENTIAL_CHUNKS {
        let mut mapped: Vec<R> = Vec::new();
        let mut next: usize = from;
        assert(slice.len() == slice@.len());
        while next < to
            invariant
                chunk_size > 0,
                from <= next <= to,
                to * chunk_size <= slice@.len(),
                slice@.len() <= usize::MAX,
                forall|chunk: &[T]| chunk@.len() == chunk_size ==> #[trigger] f.requires((chunk,)),
                mapped@.len() == next - from,
                forall|i: int|
                    0 <= i < mapped@.len() ==> maps_to(
                        *f,
                        slice@.subrange((from + i) * chunk_size, (from + i + 1) * chunk_size),
                        #[trigger] mapped@[i],
                    ),
            decreases to - next,
        {
            proof {
                lemma_chunk_inside(next as int, to as int, chunk_size as int);
            }
            let start: usize = next * chunk_size;
            let chunk = vstd::slice::slice_subrange(slice, start, start + chunk_size);
            let value = f(chunk);
            let ghost before = mapped@;
            mapped.push(value);
            proof {
                assert(maps_to(*f, chunk@, value));
                assert forall|i: int| 0 <= i < mapped@.len() implies maps_to(
                    *f,
                    slice@.subrange((from + i) * chunk_size, (from + i + 1) * chunk_size),
                    #[trigger] mapped@[i],
                ) by {
                    if i < before.len() {
                        assert(mapped@[i] == before[i]);
                    }
                }
            }
            next = next + 1;
        }
        mapped
    } else {
        let middle: usize = from + (to - from) / 2;
        proof {
            lemma_chunk_inside(middle as int, to as int, chunk_size as int);
        }
        let left = || -> (r: Vec<R>)
            requires
                chunk_size > 0,
                from <= middle && middle < to,
                middle * chunk_size <= slice@.len(),
                forall|chunk: &[T]| chunk@.len() == chunk_size ==> #[trigger] f.requires((chunk,)),
            ensures
                r@.len() == middle - from,
                forall|i: int|
                    0 <= i < r@.len() ==> maps_to(
                        *f,
                        slice@.subrange((from + i) * chunk_size, (from + i + 1) * chunk_size),
                        #[trigger] r@[i],
                    ),
        {
            map_chunk_range(slice, chunk_size, from, middle, f)
        };
        let right = || -> (r: Vec<R>)
            requires
                chunk_size > 0,
                from < middle && middle <= to,
                to * chunk_size <= slice@.len(),
                forall|chunk: &[T]| chunk@.len() == chunk_size ==> #[trigger] f.requires((chunk,)),
            ensures
                r@.len() == to - middle,
                forall|i: int|
                    0 <= i < r@.len() ==> maps_to(
                        *f,
                        slice@.subrange((middle + i) * chunk_size, (middle + i + 1) * chunk_size),
                        #[trigger] r@[i],
                    ),
        {
            map_chunk_range(slice, chunk_size, middle, to, f)
        };
        let (mut first, mut second) = rayon::join(left, right);
        let ghost (a, b) = (first@, second@);
        first.append(&mut second);
        proof {
            assert(first@ == a + b);
            assert forall|i: int| 0 <= i < first@.len() implies maps_to(
                *f,
                slice@.subrange((from + i) * chunk_size, (from + i + 1) * chunk_size),
                #[trigger] first@[i],
            ) by {
                if i < a.len() {
                    assert(first@[i] == a[i]);
                } else {
                    let k = i - a.len();
                    assert(first@[i] == b[k]);
                    assert(middle + k == from + i);
                }
            }
        }
        first
    }
}

/// A chunk before the end starts and ends inside what the chunks cover.
proof fn lemma_chunk_inside(i: int, to: int, size: int)
    requires
        0 <= i < to,
        0 < size,
    ensures
        0 <= i * size,
        (i + 1) * size == i * size + size,
        i * size + size <= to * size,
{
    assert((i + 1) * size == i * size + size) by (nonlinear_arith);
    assert(0 <= i * size && (i + 1) * size <= to * size) by (nonlinear_arith)
        requires
            0 <= i < to,
            0 < size,
    ;
}

/// Maps `f` over the consecutive chunks of `chunk_size` elements of `slice`, left to right, on
/// several threads. A shorter rest at the end is left out. Member `i` of the result is what `f`
/// answered on the chunk that starts at element `i * chunk_size`.
pub(crate) fn par_map_chunks_exact<T: Sync, R: Send, M: Fn(&[T]) -> R + Sync + Send>(
    slice: &[T],
    chunk_size: usize,
    f: M,
) -> (r: Vec<R>)
    requires
        chunk_size > 0,
        forall|chunk: &[T]| chunk@.len() == chunk_size ==> #[trigger] f.requires((chunk,)),
    ensures
        r@.len() == slice@.len() / chunk_size as nat,
        forall|i: int|
            0 <= i < r@.len() ==> maps_to(
                f,
                slice@.subrange(i * chunk_size, (i + 1) * chunk_size),
                #[trigger] r@[i],
            ),
{
    let count: usize = slice.len() / chunk_size;
    proof {
        vstd::arithmetic::div_mod::lemma_fundamental_div_mod(
            slice@.len() as int,
            chunk_size as int,
        );
        assert(count * chunk_size == chunk_size * count) by (nonlinear_arith);
    }
    map_chunk_range(slice, chunk_size, 0, count, &f)
}

} // verus!
