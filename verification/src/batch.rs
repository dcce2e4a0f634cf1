//! Draw batching for the 2D renderer: primitives, already in back-to-front
//! order, are laid into one index buffer, and consecutive primitives that
//! use the same texture share one draw call.
use vstd::prelude::*;

verus! {

/// Handle to a loaded texture in the 2D texture store.
#[derive(Clone, Copy, Debug, PartialEq, Eq, Hash, Structural)]
pub struct TextureHandle(pub usize);

/// One draw call: a texture and a range of the index buffer.
#[derive(Clone, Copy, Debug, PartialEq, Eq, Structural)]
pub struct DrawBatch {
    pub texture: TextureHandle,
    pub index_start: u32,
    pub index_count: u32,
}

/// A primitive to draw: its texture, how many vertices it adds to the
/// vertex buffer, and its triangle indices relative to its own first vertex.
pub struct Primitive {
    pub texture: TextureHandle,
    pub vertex_count: usize,
    pub indices: Vec<u32>,
}

/// The number of vertices of all primitives of `p`.
pub open spec fn vertex_total(p: Seq<Primitive>) -> int
    decreases p.len(),
{
    if p.len() == 0 {
        0
    } else {
        vertex_total(p.drop_last()) + p.last().vertex_count
    }
}

/// Local indices moved up by `base`, the position of the primitive's first
/// vertex in the vertex buffer.
pub open spec fn offset_indices(local: Seq<u32>, base: u32) -> Seq<u32> {
    local.map_values(|x: u32| (base + x) as u32)
}

/// The index buffer and the draw calls for the primitives of `p`, in
/// order. Each primitive's indices are offset by the number of vertices
/// before it (as a `u32`); a primitive with the texture of the last draw
/// call extends that call, any other starts a new one where its indices
/// start.
pub open spec fn batched(p: Seq<Primitive>) -> (Seq<u32>, Seq<DrawBatch>)
    decreases p.len(),
{
    if p.len() == 0 {
        (Seq::empty(), Seq::empty())
    } else {
        let (idx, bs) = batched(p.drop_last());
        let q = p.last();
        let base = vertex_total(p.drop_last()) as u32;
        let count = q.indices@.len() as u32;
        let bs2 = if bs.len() > 0 && bs.last().texture == q.texture {
            bs.update(
                bs.len() - 1,
                DrawBatch {
                    texture: q.texture,
                    index_start: bs.last().index_start,
                    index_count: (bs.last().index_count + count) as u32,
                },
            )
        } else {
            bs.push(DrawBatch { texture: q.texture, index_start: idx.len() as u32, index_count: count })
        };
        (idx + offset_indices(q.indices@, base), bs2)
    }
}

/// The `u32` additions of batching do not overflow: no offset index and no
/// extended draw call goes past `u32::MAX`, and the vertex count fits in
/// memory.
pub open spec fn batching_fits(p: Seq<Primitive>) -> bool {
    &&& vertex_total(p) <= usize::MAX
    &&& forall|k: int, j: int|
        0 <= k < p.len() && 0 <= j < p[k].indices@.len() ==> (vertex_total(p.take(k)) as u32)
            + #[trigger] p[k].indices@[j] <= u32::MAX
    &&& forall|k: int|
        0 <= k < p.len() ==> {
            let bs = #[trigger] batched(p.take(k)).1;
            bs.len() > 0 && bs.last().texture == p[k].texture ==> bs.last().index_count
                + (p[k].indices@.len() as u32) <= u32::MAX
        }
}

proof fn lemma_vertex_total_nonneg(p: Seq<Primitive>)
    ensures
        vertex_total(p) >= 0,
    decreases p.len(),
{
    if p.len() > 0 {
        lemma_vertex_total_nonneg(p.drop_last());
    }
}

proof fn lemma_vertex_total_prefix(p: Seq<Primitive>, k: int)
    requires
        0 <= k <= p.len(),
    ensures
        vertex_total(p.take(k)) <= vertex_total(p),
    decreases p.len(),
{
    if k < p.len() {
        assert(p.drop_last().take(k) =~= p.take(k));
        lemma_vertex_total_prefix(p.drop_last(), k);
    } else {
        assert(p.take(k) =~= p);
    }
}

/// Lays the primitives into one index buffer and groups them into draw
/// calls. The vertices themselves are appended by the caller in the same
/// order.
pub fn build_batches(prims: &Vec<Primitive>) -> (r: (Vec<u32>, Vec<DrawBatch>))
    requires
        batching_fits(prims@),
    ensures
        (r.0@, r.1@) == batched(prims@),
{
    let mut indices: Vec<u32> = Vec::new();
    let mut batches: Vec<DrawBatch> = Vec::new();
    let mut base: usize = 0;
    let mut k: usize = 0;
    while k < prims.len()
        invariant
            k <= prims@.len(),
            batching_fits(prims@),
            base == vertex_total(prims@.take(k as int)),
            (indices@, batches@) == batched(prims@.take(k as int)),
        decreases prims@.len() - k,
    {
        let prim = &prims[k];
        let ghost pk = prims@.take(k as int);
        let ghost pk1 = prims@.take(k + 1);
        proof {
            assert(pk1.drop_last() =~= pk);
            assert(pk1.last() == prims@[k as int]);
            lemma_vertex_total_prefix(prims@, k + 1);
        }
        let base_vertex = base as u32;
        let idx_start = indices.len();
        let ghost before = indices@;
        let mut j: usize = 0;
        while j < prim.indices.len()
            invariant
                0 <= k < prims@.len(),
                *prim == prims@[k as int],
                batching_fits(prims@),
                base_vertex == vertex_total(prims@.take(k as int)) as u32,
                j <= prim.indices@.len(),
                idx_start == before.len(),
                indices@ == before + offset_indices(prim.indices@.take(j as int), base_vertex),
            decreases prim.indices@.len() - j,
        {
            let local = prim.indices[j];
            proof {
                assert(prims@[k as int].indices@[j as int] == local);
            }
            indices.push(base_vertex + local);
            j = j + 1;
            assert(prim.indices@.take(j as int) =~= prim.indices@.take(j - 1).push(local));
            assert(indices@ =~= before + offset_indices(prim.indices@.take(j as int), base_vertex));
        }
        assert(prim.indices@.take(j as int) =~= prim.indices@);
        let idx_count = (indices.len() - idx_start) as u32;
        let n = batches.len();
        let mut extended = false;
        if n > 0 {
            let last = batches[n - 1];
            if last.texture == prim.texture {
                proof {
                    assert(batched(prims@.take(k as int)).1 == batches@);
                }
                batches.set(
                    n - 1,
                    DrawBatch {
                        texture: last.texture,
                        index_start: last.index_start,
                        index_count: last.index_count + idx_count,
                    },
                );
                extended = true;
            }
        }
        if !extended {
            batches.push(
                DrawBatch { texture: prim.texture, index_start: idx_start as u32, index_count: idx_count },
            );
        }
        base = base + prim.vertex_count;
        k = k + 1;
        proof {
            assert(batches@ =~= batched(pk1).1);
            assert(indices@ =~= batched(pk1).0);
        }
    }
    assert(prims@.take(k as int) =~= prims@);
    (indices, batches)
}

/// The draw calls tile the index buffer: the first starts at index 0, each
/// next one starts where the one before it ends, the last ends at the end
/// of the buffer, and two consecutive calls never use the same texture.
/// There is a draw call as soon as there is a primitive.
pub proof fn law_batches_tile_indices(p: Seq<Primitive>)
    requires
        batched(p).0.len() <= u32::MAX,
    ensures
        ({
            let (idx, bs) = batched(p);
            &&& (bs.len() == 0 <==> p.len() == 0)
            &&& bs.len() > 0 ==> bs[0].index_start == 0
            &&& bs.len() > 0 ==> bs.last().index_start + bs.last().index_count == idx.len()
            &&& forall|i: int|
                0 <= i < bs.len() - 1 ==> #[trigger] bs[i + 1].index_start == bs[i].index_start
                    + bs[i].index_count
            &&& forall|i: int| 0 <= i < bs.len() - 1 ==> #[trigger] bs[i].texture != bs[i + 1].texture
        }),
    decreases p.len(),
{
    if p.len() > 0 {
        let (idx, bs) = batched(p.drop_last());
        let q = p.last();
        assert(batched(p).0 == idx + offset_indices(q.indices@, vertex_total(p.drop_last()) as u32));
        law_batches_tile_indices(p.drop_last());
        let (idx2, bs2) = batched(p);
        if bs.len() > 0 && bs.last().texture == q.texture {
            assert(bs2.len() == bs.len());
            assert forall|i: int| 0 <= i < bs2.len() - 1 implies #[trigger] bs2[i + 1].index_start
                == bs2[i].index_start + bs2[i].index_count by {
                assert(bs2[i] == bs[i]);
                if i + 1 < bs.len() - 1 {
                    assert(bs2[i + 1] == bs[i + 1]);
                }
            }
            assert forall|i: int| 0 <= i < bs2.len() - 1 implies #[trigger] bs2[i].texture
                != bs2[i + 1].texture by {
                assert(bs2[i] == bs[i]);
                if i + 1 < bs.len() - 1 {
                    assert(bs2[i + 1] == bs[i + 1]);
                }
            }
            if bs.len() > 1 {
                assert(bs2[0] == bs[0]);
            }
        } else {
            assert(bs2 == bs.push(DrawBatch { texture: q.texture, index_start: idx.len() as u32, index_count: q.indices@.len() as u32 }));
            assert forall|i: int| 0 <= i < bs2.len() - 1 implies #[trigger] bs2[i + 1].index_start
                == bs2[i].index_start + bs2[i].index_count by {
                assert(bs2[i] == bs[i]);
            }
            assert forall|i: int| 0 <= i < bs2.len() - 1 implies #[trigger] bs2[i].texture
                != bs2[i + 1].texture by {
                assert(bs2[i] == bs[i]);
            }
        }
    }
}

/// When every primitive's local indices name its own vertices and the
/// vertex buffer is addressable by `u32`, every index in the buffer names a
/// vertex that exists.
pub proof fn law_indices_in_range(p: Seq<Primitive>)
    requires
        vertex_total(p) <= u32::MAX,
        forall|k: int, j: int|
            0 <= k < p.len() && 0 <= j < p[k].indices@.len() ==> #[trigger] p[k].indices@[j]
                < p[k].vertex_count,
    ensures
        forall|i: int| 0 <= i < batched(p).0.len() ==> #[trigger] batched(p).0[i] < vertex_total(p),
    decreases p.len(),
{
    if p.len() > 0 {
        let d = p.drop_last();
        assert forall|k: int, j: int|
            0 <= k < d.len() && 0 <= j < d[k].indices@.len() implies #[trigger] d[k].indices@[j]
                < d[k].vertex_count by {
            assert(d[k] == p[k]);
        }
        law_indices_in_range(d);
        let q = p.last();
        lemma_vertex_total_nonneg(d);
        let base = vertex_total(d) as u32;
        assert(base == vertex_total(d));
        let idx = batched(d).0;
        assert(batched(p).0 == idx + offset_indices(q.indices@, base));
        assert forall|i: int| 0 <= i < batched(p).0.len() implies #[trigger] batched(p).0[i]
            < vertex_total(p) by {
            if i >= idx.len() {
                let j = i - idx.len();
                assert(p[p.len() - 1].indices@[j] < q.vertex_count);
                assert(batched(p).0[i] == (base + q.indices@[j]) as u32);
            } else {
                assert(batched(p).0[i] == idx[i]);
            }
        }
    }
}

} // verus!
