use vstd::prelude::*;

verus! {

/// The vertex index of point `j` of ring `ring` when rings of `sides` points
/// are laid out one after another.
pub open spec fn ring_vertex(sides: int, ring: int, j: int) -> u32 {
    (ring * sides + j) as u32
}

/// Triangle `t` of a closed tube over `rings` rings of `sides` points: two
/// per quad of each band between consecutive rings (band `i`, quad `j` at
/// `2 * (i * sides + j)`), then two per side closing the ends, fanning from
/// the two centroids that follow the ring points.
pub open spec fn tube_triangle(rings: int, sides: int, t: int) -> [u32; 3] {
    let bands = (rings - 1) * sides;
    if t < 2 * bands {
        let q = t / 2;
        let i = q / sides;
        let j = q % sides;
        let k = (j + 1) % sides;
        if t % 2 == 0 {
            [ring_vertex(sides, i, j), ring_vertex(sides, i + 1, j), ring_vertex(sides, i + 1, k)]
        } else {
            [ring_vertex(sides, i, j), ring_vertex(sides, i + 1, k), ring_vertex(sides, i, k)]
        }
    } else {
        let c = t - 2 * bands;
        let j = c / 2;
        let k = (j + 1) % sides;
        let c0 = (rings * sides) as u32;
        let c1 = (rings * sides + 1) as u32;
        if c % 2 == 0 {
            [c0, ring_vertex(sides, 0, k), ring_vertex(sides, 0, j)]
        } else {
            [c1, ring_vertex(sides, rings - 1, j), ring_vertex(sides, rings - 1, k)]
        }
    }
}

/// The triangles that stitch `rings` equal-length cross-section rings of
/// `sides` points into a closed surface: a quad band between each
/// consecutive pair, plus a fan capping either end from the centroid of its
/// ring (vertex `rings * sides` for the first, the next one for the last).
pub fn stitch_triangles(rings: usize, sides: usize) -> (r: Vec<[u32; 3]>)
    requires
        rings >= 1,
        sides >= 1,
        rings * sides + 2 <= u32::MAX,
    ensures
        r.len() == 2 * (rings - 1) * sides + 2 * sides,
        forall|t: int| 0 <= t < r.len() ==> (#[trigger] r@[t]) == tube_triangle(rings as int, sides as int, t),
{
    let mut tris: Vec<[u32; 3]> = Vec::new();
    let mut i: usize = 0;
    proof {
        assert(rings * sides >= (rings - 1) * sides) by (nonlinear_arith)
            requires
                rings >= 1,
        ;
    }
    while i < rings - 1
        invariant
            i <= rings - 1,
            rings >= 1,
            sides >= 1,
            rings * sides + 2 <= u32::MAX,
            tris.len() == 2 * i * sides,
            forall|t: int| 0 <= t < tris.len() ==> (#[trigger] tris@[t]) == tube_triangle(rings as int, sides as int, t),
        decreases rings - 1 - i,
    {
        let mut j: usize = 0;
        proof {
            assert(2 * i * sides == 2 * (i * sides + 0)) by (nonlinear_arith);
        }
        while j < sides
            invariant
                i < rings - 1,
                j <= sides,
                rings >= 1,
                sides >= 1,
                rings * sides + 2 <= u32::MAX,
                tris.len() == 2 * (i * sides + j),
                forall|t: int| 0 <= t < tris.len() ==> (#[trigger] tris@[t]) == tube_triangle(rings as int, sides as int, t),
            decreases sides - j,
        {
            let k = (j + 1) % sides;
            proof {
                assert((i + 1) * sides + sides <= rings * sides) by (nonlinear_arith)
                    requires
                        i + 1 < rings,
                ;
                assert(i * sides + j < (i + 1) * sides) by (nonlinear_arith)
                    requires
                        j < sides,
                ;
            }
            let a = (i * sides + j) as u32;
            let b = ((i + 1) * sides + j) as u32;
            let c = ((i + 1) * sides + k) as u32;
            let d = (i * sides + k) as u32;
            let ghost t0 = tris.len() as int;
            let ghost bands = (rings - 1) * sides;
            proof {
                let q = i * sides + j;
                assert(t0 / 2 == q && t0 % 2 == 0);
                assert((t0 + 1) / 2 == q && (t0 + 1) % 2 == 1);
                assert(q / (sides as int) == i && q % (sides as int) == j) by (nonlinear_arith)
                    requires
                        q == i * sides + j,
                        j < sides,
                        sides > 0,
                ;
                assert(t0 + 1 < 2 * bands) by (nonlinear_arith)
                    requires
                        t0 == 2 * (i * sides + j),
                        bands == (rings - 1) * sides,
                        i + 1 <= rings - 1,
                        j < sides,
                ;
            }
            tris.push([a, b, c]);
            tris.push([a, c, d]);
            j = j + 1;
        }
        proof {
            assert(2 * (i * sides + sides) == 2 * (i + 1) * sides) by (nonlinear_arith);
        }
        i = i + 1;
    }
    let c0 = (rings * sides) as u32;
    let c1 = (rings * sides + 1) as u32;
    let last = rings - 1;
    let mut j: usize = 0;
    while j < sides
        invariant
            j <= sides,
            rings >= 1,
            sides >= 1,
            last == rings - 1,
            rings * sides + 2 <= u32::MAX,
            c0 == rings * sides,
            c1 == rings * sides + 1,
            tris.len() == 2 * (rings - 1) * sides + 2 * j,
            forall|t: int| 0 <= t < tris.len() ==> (#[trigger] tris@[t]) == tube_triangle(rings as int, sides as int, t),
        decreases sides - j,
    {
        let k = (j + 1) % sides;
        proof {
            assert(last * sides + sides == rings * sides) by (nonlinear_arith)
                requires
                    last == rings - 1,
            ;
            assert(last * sides + j < rings * sides) by (nonlinear_arith)
                requires
                    last == rings - 1,
                    j < sides,
            ;
        }
        let ghost t0 = tris.len() as int;
        proof {
            let bands = (rings - 1) * sides;
            assert(2 * (rings - 1) * sides == 2 * bands) by (nonlinear_arith)
                requires
                    bands == (rings - 1) * sides,
            ;
            assert(t0 >= 2 * bands);
            assert((t0 - 2 * bands) / 2 == j && (t0 - 2 * bands) % 2 == 0);
            assert((t0 + 1 - 2 * bands) / 2 == j && (t0 + 1 - 2 * bands) % 2 == 1);
        }
        tris.push([c0, k as u32, j as u32]);
        tris.push([c1, (last * sides + j) as u32, (last * sides + k) as u32]);
        j = j + 1;
    }
    tris
}

/// Law: every triangle of a stitched tube indexes a real vertex — a point
/// of one of the rings or one of the two end centroids.
pub proof fn tube_triangles_index_real_vertices(rings: int, sides: int, t: int)
    requires
        rings >= 1,
        sides >= 1,
        rings * sides + 2 <= u32::MAX,
        0 <= t < 2 * (rings - 1) * sides + 2 * sides,
    ensures
        forall|c: int| 0 <= c < 3 ==> (#[trigger] tube_triangle(rings, sides, t)[c]) < rings * sides + 2,
{
    let bands = (rings - 1) * sides;
    assert(2 * (rings - 1) * sides == 2 * bands) by (nonlinear_arith)
        requires
            bands == (rings - 1) * sides,
    ;
    if t < 2 * bands {
        let q = t / 2;
        let i = q / sides;
        let j = q % sides;
        assert(0 <= q < bands);
        assert(0 <= i < rings - 1 && 0 <= j < sides) by (nonlinear_arith)
            requires
                0 <= q < bands,
                bands == (rings - 1) * sides,
                i == q / sides,
                j == q % sides,
                sides >= 1,
        ;
        assert((i + 1) * sides + sides <= rings * sides) by (nonlinear_arith)
            requires
                i + 1 < rings,
                sides >= 1,
        ;
        assert(i * sides + sides == (i + 1) * sides) by (nonlinear_arith);
    } else {
        let c = t - 2 * bands;
        let j = c / 2;
        assert(0 <= j < sides);
        assert((rings - 1) * sides + sides == rings * sides) by (nonlinear_arith);
    }
}

proof fn lemma_band_indices(rings: int, sides: int, t: int)
    requires
        rings >= 1,
        sides >= 1,
        0 <= t < 2 * (rings - 1) * sides,
    ensures
        ({
            let q = t / 2;
            let i = q / sides;
            let j = q % sides;
            &&& 0 <= i < rings - 1
            &&& 0 <= j < sides
            &&& q == i * sides + j
            &&& (i + 1) * sides + sides <= rings * sides
            &&& i * sides + sides == (i + 1) * sides
            &&& (i + 1) * sides + sides == (i + 2) * sides
        }),
{
    let q = t / 2;
    let i = q / sides;
    let j = q % sides;
    assert(2 * (rings - 1) * sides == 2 * ((rings - 1) * sides)) by (nonlinear_arith);
    assert(0 <= q < (rings - 1) * sides);
    assert(q == i * sides + j && 0 <= j < sides) by (nonlinear_arith)
        requires
            i == q / sides,
            j == q % sides,
            sides >= 1,
    ;
    assert(0 <= i < rings - 1) by (nonlinear_arith)
        requires
            0 <= q < (rings - 1) * sides,
            q == i * sides + j,
            0 <= j < sides,
            sides >= 1,
    ;
    assert((i + 1) * sides + sides <= rings * sides) by (nonlinear_arith)
        requires
            i + 1 < rings,
            sides >= 1,
    ;
    assert(i * sides + sides == (i + 1) * sides) by (nonlinear_arith);
    assert((i + 1) * sides + sides == (i + 2) * sides) by (nonlinear_arith);
}

/// Law: a band joins consecutive rings only — every corner of a triangle of
/// band `i` (triangles `2·i·sides` up to `2·(i+1)·sides`) is a point of ring
/// `i` or ring `i + 1`.
pub proof fn bands_join_consecutive_rings(rings: int, sides: int, t: int)
    requires
        rings >= 1,
        sides >= 1,
        rings * sides + 2 <= u32::MAX,
        0 <= t < 2 * (rings - 1) * sides,
    ensures
        forall|c: int|
            0 <= c < 3 ==> ((t / 2) / sides) * sides <= #[trigger] tube_triangle(rings, sides, t)[c] < ((t / 2) / sides + 2)
                * sides,
{
    lemma_band_indices(rings, sides, t);
    let q = t / 2;
    let i = q / sides;
    let j = q % sides;
    let k = (j + 1) % sides;
    assert(0 <= k < sides);
    let lo = i * sides;
    let hi = (i + 2) * sides;
    assert(lo <= i * sides + j < lo + sides);
    assert(lo <= i * sides + k < lo + sides);
    assert(lo + sides <= (i + 1) * sides + j < hi);
    assert(lo + sides <= (i + 1) * sides + k < hi);
    assert(hi <= rings * sides);
    assert(ring_vertex(sides, i, j) == i * sides + j);
    assert(ring_vertex(sides, i, k) == i * sides + k);
    assert(ring_vertex(sides, i + 1, j) == (i + 1) * sides + j);
    assert(ring_vertex(sides, i + 1, k) == (i + 1) * sides + k);
    assert(2 * (rings - 1) * sides == 2 * ((rings - 1) * sides)) by (nonlinear_arith);
}

/// Law: each quad of a band is split along one diagonal — the two triangles
/// of quad `j` of band `i` both have the quad's corner on ring `i` at
/// column `j` and its corner on ring `i + 1` at the next column; the first
/// adds ring `i + 1` at column `j`, the second ring `i` at the next column.
/// Both go round the same way: from ring `i` to ring `i + 1`, then back.
pub proof fn quads_split_along_one_diagonal(rings: int, sides: int, i: int, j: int)
    requires
        rings >= 1,
        sides >= 1,
        rings * sides + 2 <= u32::MAX,
        0 <= i < rings - 1,
        0 <= j < sides,
    ensures
        ({
            let k = (j + 1) % sides;
            let t = 2 * (i * sides + j);
            let first = tube_triangle(rings, sides, t);
            let second = tube_triangle(rings, sides, t + 1);
            &&& first[0] == i * sides + j && second[0] == i * sides + j
            &&& first[2] == (i + 1) * sides + k && second[1] == (i + 1) * sides + k
            &&& first[1] == (i + 1) * sides + j
            &&& second[2] == i * sides + k
        }),
{
    let q = i * sides + j;
    let t = 2 * q;
    assert((i + 1) * sides <= (rings - 1) * sides) by (nonlinear_arith)
        requires
            i + 1 <= rings - 1,
            sides >= 1,
    ;
    assert(i * sides + sides == (i + 1) * sides) by (nonlinear_arith);
    assert(q < (rings - 1) * sides);
    assert(t + 1 < 2 * (rings - 1) * sides) by (nonlinear_arith)
        requires
            t == 2 * q,
            q < (rings - 1) * sides,
    ;
    lemma_band_indices(rings, sides, t);
    lemma_band_indices(rings, sides, t + 1);
    assert(t / 2 == q && (t + 1) / 2 == q);
    assert(q / sides == i && q % sides == j) by (nonlinear_arith)
        requires
            q == i * sides + j,
            0 <= j < sides,
            sides >= 1,
    ;
}

/// Law: the ends are closed by fans — every end triangle has one of the two
/// centroids (vertex `rings·sides` for the first ring, the next for the
/// last) and two neighbouring points of that ring, the first ring's fan
/// going round against the ring's order and the last ring's with it, so
/// both ends face outward.
pub proof fn caps_fan_from_the_centroids(rings: int, sides: int, t: int)
    requires
        rings >= 1,
        sides >= 1,
        rings * sides + 2 <= u32::MAX,
        2 * (rings - 1) * sides <= t < 2 * (rings - 1) * sides + 2 * sides,
    ensures
        ({
            let j = (t - 2 * (rings - 1) * sides) / 2;
            let k = (j + 1) % sides;
            let tri = tube_triangle(rings, sides, t);
            let last = (rings - 1) * sides;
            &&& (t - 2 * (rings - 1) * sides) % 2 == 0 ==> tri[0] == rings * sides && tri[1] == k && tri[2] == j
            &&& (t - 2 * (rings - 1) * sides) % 2 == 1 ==> tri[0] == rings * sides + 1 && tri[1] == last + j && tri[2] == last
                + k
        }),
{
    let bands = (rings - 1) * sides;
    assert(2 * (rings - 1) * sides == 2 * bands) by (nonlinear_arith)
        requires
            bands == (rings - 1) * sides,
    ;
    let j = (t - 2 * bands) / 2;
    assert(0 <= j < sides);
    assert(bands + sides == rings * sides) by (nonlinear_arith)
        requires
            bands == (rings - 1) * sides,
    ;
    assert(0 <= (j + 1) % sides < sides);
}

} // verus!
