//! The painter's chunking: the finite pixel sequence is split into `k`
//! contiguous chunks — the first `k - 1` of equal size, the last absorbing
//! the remainder — and each chunk is driven by one producer task in order.
use vstd::prelude::*;

use crate::codec::Rgb;
use crate::codec::Vec2;

verus! {

/// The pixels that a sequence of chunks holds, in order.
pub open spec fn flat_view(chunks: Seq<Vec<(Vec2, Rgb)>>) -> Seq<(Vec2, Rgb)> {
    chunks.map_values(|c: Vec<(Vec2, Rgb)>| c@).flatten()
}

/// Splits the pixel sequence into `k` contiguous chunks: the first `k - 1`
/// hold exactly `len / k` pixels each and the last absorbs the remainder, so
/// that the chunks concatenated give back the input exactly.
pub fn chunk_pixels(pixels: &Vec<(Vec2, Rgb)>, k: usize) -> (chunks: Vec<Vec<(Vec2, Rgb)>>)
    requires
        1 <= k,
    ensures
        chunks@.len() == k as int,
        flat_view(chunks@) == pixels@,
        forall|i: int|
            0 <= i < k - 1 ==> (#[trigger] chunks@[i])@.len() == pixels@.len() as int / k as int,
        chunks@[k - 1]@.len() == pixels@.len() - (k - 1) * (pixels@.len() as int / k as int),
{
    let n = pixels.len();
    let size = n / k;
    proof {
        broadcast use vstd::group_vstd_default;

        vstd::arithmetic::div_mod::lemma_fundamental_div_mod(n as int, k as int);
        assert(flat_view(Seq::<Vec<(Vec2, Rgb)>>::empty()) =~= Seq::<(Vec2, Rgb)>::empty());
    }
    let mut chunks: Vec<Vec<(Vec2, Rgb)>> = Vec::new();
    let mut pos: usize = 0;
    let mut c: usize = 0;
    while c < k - 1
        invariant
            1 <= k,
            n == pixels@.len(),
            size == n as int / k as int,
            c <= k - 1,
            pos == c * size,
            pos + size <= n,
            chunks@.len() == c as int,
            forall|i: int| 0 <= i < c ==> (#[trigger] chunks@[i])@.len() == size as int,
            flat_view(chunks@) == pixels@.subrange(0, pos as int),
        decreases k - 1 - c,
    {
        let chunk = copy_range(pixels, pos, pos + size);
        proof {
            lemma_flat_view_push(chunks@, chunk);
            assert(pixels@.subrange(0, pos as int) + pixels@.subrange(
                pos as int,
                pos + size as int,
            ) =~= pixels@.subrange(0, pos + size as int));
            vstd::arithmetic::div_mod::lemma_fundamental_div_mod(n as int, k as int);
            assert(n as int % k as int >= 0) by (nonlinear_arith)
                requires
                    k >= 1,
                    n >= 0,
            ;
            assert((k as int) * (size as int) <= n as int);
            assert((c + 1) * size == c * size + size) by (nonlinear_arith);
            assert((c + 2) * size == c * size + size + size) by (nonlinear_arith);
            assert((c + 2) * size <= (k as int) * (size as int)) by (nonlinear_arith)
                requires
                    c + 2 <= k,
                    size >= 0,
            ;
        }
        chunks.push(chunk);
        pos = pos + size;
        c = c + 1;
    }
    let chunk = copy_range(pixels, pos, n);
    proof {
        lemma_flat_view_push(chunks@, chunk);
        assert(pixels@.subrange(0, pos as int) + pixels@.subrange(pos as int, n as int)
            =~= pixels@.subrange(0, n as int));
        assert(pixels@.subrange(0, n as int) =~= pixels@);
    }
    chunks.push(chunk);
    chunks
}

/// Copies `pixels[from..to]` into a fresh chunk.
fn copy_range(pixels: &Vec<(Vec2, Rgb)>, from: usize, to: usize) -> (chunk: Vec<(Vec2, Rgb)>)
    requires
        from <= to <= pixels@.len(),
    ensures
        chunk@ == pixels@.subrange(from as int, to as int),
{
    let mut chunk: Vec<(Vec2, Rgb)> = Vec::new();
    let mut j = from;
    while j < to
        invariant
            from <= j <= to <= pixels@.len(),
            chunk@ == pixels@.subrange(from as int, j as int),
        decreases to - j,
    {
        chunk.push(pixels[j]);
        proof {
            assert(pixels@.subrange(from as int, j + 1 as int) =~= pixels@.subrange(
                from as int,
                j as int,
            ).push(pixels@[j as int]));
        }
        j = j + 1;
    }
    proof {
        assert(chunk@ =~= pixels@.subrange(from as int, to as int));
    }
    chunk
}

/// Appending a chunk appends its pixels to the flat view.
proof fn lemma_flat_view_push(chunks: Seq<Vec<(Vec2, Rgb)>>, chunk: Vec<(Vec2, Rgb)>)
    ensures
        flat_view(chunks.push(chunk)) == flat_view(chunks) + chunk@,
{
    broadcast use Seq::lemma_flatten_push;

    let f = |c: Vec<(Vec2, Rgb)>| c@;
    assert(chunks.push(chunk).map_values(f) =~= chunks.map_values(f).push(chunk@));
    assert(flat_view(chunks.push(chunk)) =~= flat_view(chunks) + chunk@);
}

} // verus!
