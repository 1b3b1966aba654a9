//! The layout solver: dimension-annealed force relaxation.
//!
//! Positions are fixed-point vectors of `cfg.max_dims` coordinates.
//! Within one inner iteration three forces run in order — hierarchy,
//! repulsion, spring — each reading and writing only the first
//! `active_dims` coordinates (the hierarchy force touches coordinate 2
//! only). The phase schedule lowers `active_dims` from `max_dims - 1`
//! down to 3, running `outer_iters` outer iterations per phase and
//! `inner_iters` relaxation steps per outer iteration.

use vstd::prelude::*;
use crate::fixed::{
    clamp_spec, clamp_i128, coords_in_range, dist_sq, lemma_dist_sq_sym, mul_div, mul_div_signed,
    mul_div_spec, mul_div2_spec, lemma_mul_div2_antisym, lemma_mul_div_magnitude, sqrt_floor,
    distance, COORD_LIMIT, CFG_MAX, EPS, SCALE, POW2_44, POW2_80, POW2_124,
};

verus! {

/// Larger of two integers.
pub open spec fn imax(a: int, b: int) -> int {
    if a >= b {
        a
    } else {
        b
    }
}

/// Smaller of two integers.
pub open spec fn imin(a: int, b: int) -> int {
    if a <= b {
        a
    } else {
        b
    }
}

/// The tunable scalars of one run. Force scalars and distances are
/// fixed-point values (`SCALE` stands for 1.0).
#[derive(Clone, Copy)]
pub struct SimulationConfig {
    pub max_dims: usize,
    pub edge_strength: i64,
    pub edge_rest_length: i64,
    pub repel_strength: i64,
    pub repel_distance: i64,
    pub hierarchy_strength: i64,
    pub hierarchy_distance: i64,
    pub outer_iters: usize,
    pub inner_iters: usize,
    pub compress_range: i64,
    pub stretch_range: i64,
}

impl SimulationConfig {
    /// Scalars bounded so every force computation fits its integer type.
    pub open spec fn wf(self) -> bool {
        &&& 4 <= self.max_dims <= 10
        &&& 0 <= self.edge_strength <= CFG_MAX
        &&& 0 <= self.edge_rest_length <= CFG_MAX
        &&& 0 <= self.repel_strength <= CFG_MAX
        &&& 0 <= self.repel_distance <= CFG_MAX
        &&& 0 <= self.hierarchy_strength <= CFG_MAX
        &&& 0 <= self.hierarchy_distance <= CFG_MAX
        &&& 1 <= self.compress_range <= CFG_MAX
        &&& 1 <= self.stretch_range <= CFG_MAX
        &&& 1 <= self.outer_iters
        &&& 1 <= self.inner_iters
    }
}

/// Fixed-point distance between two rows over the first `d` coordinates.
pub open spec fn pair_dist(a: Seq<i64>, b: Seq<i64>, d: int) -> int {
    sqrt_floor(dist_sq(a, b, d))
}

/// Repulsion magnitude (a ratio scaled by `SCALE`): nodes closer than
/// `repel_distance` push apart by `min(gap, repel_strength) / 2` of the
/// per-axis difference, normalized by the distance (at least `EPS`).
pub open spec fn repel_mag(cfg: SimulationConfig, dist: int) -> int {
    if dist < cfg.repel_distance {
        (imin(cfg.repel_distance - dist, cfg.repel_strength as int) * (SCALE as int)) / (2 * imax(
            dist,
            EPS as int,
        ))
    } else {
        0
    }
}

/// Spring magnitude (signed, scaled by `SCALE`): positive pulls the
/// endpoints apart (edge shorter than rest), negative draws them in.
pub open spec fn spring_mag(cfg: SimulationConfig, dist: int) -> int {
    mul_div_spec(
        cfg.edge_rest_length - dist,
        cfg.edge_strength as int,
        2 * imax(dist, EPS as int),
    )
}

/// Clamp a coordinate value into the representable range.
pub open spec fn clamp_coord(x: int) -> i64 {
    clamp_spec(x, -COORD_LIMIT as int, COORD_LIMIT as int) as i64
}

/// Per-axis displacement a pairwise force of magnitude `mg` adds to the
/// second row (the first row gets its negation).
pub open spec fn pair_delta(a: Seq<i64>, b: Seq<i64>, mg: int, k: int) -> int {
    mul_div2_spec(b[k] - a[k], mg, SCALE as int)
}

/// The first row after a pairwise force over the first `d` coordinates.
pub open spec fn pair_rows_a(a: Seq<i64>, b: Seq<i64>, mg: int, d: int) -> Seq<i64> {
    Seq::new(
        a.len(),
        |k: int|
            if 0 <= k < d {
                clamp_coord(a[k] - pair_delta(a, b, mg, k))
            } else {
                a[k]
            },
    )
}

/// The second row after a pairwise force over the first `d` coordinates.
pub open spec fn pair_rows_b(a: Seq<i64>, b: Seq<i64>, mg: int, d: int) -> Seq<i64> {
    Seq::new(
        b.len(),
        |k: int|
            if 0 <= k < d {
                clamp_coord(b[k] + pair_delta(a, b, mg, k))
            } else {
                b[k]
            },
    )
}

/// Within one pairwise force application the two displacements cancel:
/// swapping the endpoint roles negates the per-axis displacement, so the
/// move added to one node is the negation of the move added to the other.
pub proof fn lemma_pair_delta_antisym(a: Seq<i64>, b: Seq<i64>, mg: int, k: int)
    ensures
        pair_delta(b, a, mg, k) == -pair_delta(a, b, mg, k),
{
    lemma_mul_div2_antisym(b[k] - a[k], mg, SCALE as int);
    assert(a[k] - b[k] == -(b[k] - a[k]));
}

/// One force application moves the two endpoints by opposite amounts on
/// every active axis: the first row moves by the negation of the
/// displacement added to the second, each then clamped into range.
pub proof fn lemma_pair_moves_opposite(a: Seq<i64>, b: Seq<i64>, mg: int, d: int, k: int)
    requires
        0 <= k < d,
        k < a.len(),
        k < b.len(),
    ensures
        pair_rows_a(a, b, mg, d)[k] == clamp_coord(a[k] - pair_delta(a, b, mg, k)),
        pair_rows_b(a, b, mg, d)[k] == clamp_coord(b[k] + pair_delta(a, b, mg, k)),
{
}

/// The repulsion displacement is antisymmetric in the two nodes: the
/// displacement the pair step adds to node A is the negation of the one
/// it adds to node B, whichever way the unordered pair is visited.
pub proof fn lemma_repel_antisym(cfg: SimulationConfig, a: Seq<i64>, b: Seq<i64>, d: int, k: int)
    ensures
        pair_delta(b, a, repel_mag(cfg, pair_dist(b, a, d)), k) == -pair_delta(
            a,
            b,
            repel_mag(cfg, pair_dist(a, b, d)),
            k,
        ),
{
    lemma_dist_sq_sym(a, b, d);
    lemma_pair_delta_antisym(a, b, repel_mag(cfg, pair_dist(a, b, d)), k);
}

/// The spring displacement is antisymmetric in the same sense.
pub proof fn lemma_spring_antisym(cfg: SimulationConfig, a: Seq<i64>, b: Seq<i64>, d: int, k: int)
    ensures
        pair_delta(b, a, spring_mag(cfg, pair_dist(b, a, d)), k) == -pair_delta(
            a,
            b,
            spring_mag(cfg, pair_dist(a, b, d)),
            k,
        ),
{
    lemma_dist_sq_sym(a, b, d);
    lemma_pair_delta_antisym(a, b, spring_mag(cfg, pair_dist(a, b, d)), k);
}

/// The magnitude bound for the signed scaled multiply.
pub proof fn lemma_mul_div2_magnitude(a: int, b: int, den: int, abound: int, nbound: int)
    requires
        den > 0,
        -abound <= a <= abound,
        -nbound <= b <= nbound,
        0 <= abound,
        0 <= nbound,
    ensures
        -((abound * nbound) / den) <= mul_div2_spec(a, b, den) <= (abound * nbound) / den,
{
    if b >= 0 {
        lemma_mul_div_magnitude(a, b, den, abound, nbound);
    } else {
        lemma_mul_div_magnitude(-a, -b, den, abound, nbound);
    }
}

/// Executable repulsion magnitude.
pub fn repel_mag_exec(cfg: &SimulationConfig, dist: i64) -> (r: i128)
    requires
        cfg.wf(),
        0 <= dist <= crate::fixed::DIST_MAX,
    ensures
        r == repel_mag(*cfg, dist as int),
        0 <= r < POW2_80 as i128,
{
    if dist < cfg.repel_distance {
        let c = cfg.repel_distance - dist;
        let cm = if c <= cfg.repel_strength {
            c
        } else {
            cfg.repel_strength
        };
        let floor = if dist >= EPS {
            dist
        } else {
            EPS
        };
        let num: u128 = (cm as u128) * (SCALE as u128);
        let den: u128 = 2 * (floor as u128);
        let r = num / den;
        proof {
            vstd::arithmetic::div_mod::lemma_div_is_ordered(
                num as int,
                (CFG_MAX as int) * (SCALE as int),
                den as int,
            );
            assert(num as int <= (CFG_MAX as int) * (SCALE as int)) by (nonlinear_arith)
                requires
                    0 <= cm <= CFG_MAX,
                    num == cm * SCALE,
                    SCALE > 0,
            ;
            vstd::arithmetic::div_mod::lemma_div_is_ordered_by_denominator(
                (CFG_MAX as int) * (SCALE as int),
                2 * (EPS as int),
                den as int,
            );
            assert((CFG_MAX as int) * (SCALE as int) / (2 * (EPS as int)) < POW2_80 as int)
                by (nonlinear_arith)
                requires
                    CFG_MAX == 1_000_000_000_000i64,
                    SCALE == 1_000_000i64,
                    EPS == 1_000i64,
                    POW2_80 == 0x100000000000000000000u128,
            ;
        }
        r as i128
    } else {
        0
    }
}

/// Executable spring magnitude.
pub fn spring_mag_exec(cfg: &SimulationConfig, dist: i64) -> (r: i128)
    requires
        cfg.wf(),
        0 <= dist <= crate::fixed::DIST_MAX,
    ensures
        r == spring_mag(*cfg, dist as int),
        -(POW2_80 as i128) < r < POW2_80 as i128,
{
    let a = cfg.edge_rest_length - dist;
    let floor = if dist >= EPS {
        dist
    } else {
        EPS
    };
    let den: u128 = 2 * (floor as u128);
    assert(-(POW2_44 as i64) < a < POW2_44 as i64) by {
        assert(POW2_44 == 0x100000000000u128);
    }
    let r = mul_div(a, cfg.edge_strength as u128, den);
    proof {
        lemma_mul_div_magnitude(
            a as int,
            cfg.edge_strength as int,
            den as int,
            8_000_000_000_000,
            CFG_MAX as int,
        );
        assert(8_000_000_000_000 * (CFG_MAX as int) == 8_000_000_000_000_000_000_000_000int)
            by (nonlinear_arith)
            requires
                CFG_MAX == 1_000_000_000_000i64,
        ;
        vstd::arithmetic::div_mod::lemma_div_is_ordered_by_denominator(
            8_000_000_000_000_000_000_000_000int,
            2 * (EPS as int),
            den as int,
        );
        assert(8_000_000_000_000_000_000_000_000int / 2000 == 4_000_000_000_000_000_000_000int);
        assert(4_000_000_000_000_000_000_000int < POW2_80 as int);
    }
    r
}

/// Apply a pairwise force of magnitude `mg` to two rows over the first
/// `d` coordinates: the second row moves by the per-axis displacement,
/// the first by its negation, both clamped into range.
pub fn apply_pair(a: &Vec<i64>, b: &Vec<i64>, mg: i128, d: usize) -> (r: (Vec<i64>, Vec<i64>))
    requires
        coords_in_range(a@),
        coords_in_range(b@),
        a@.len() == b@.len(),
        d <= a@.len(),
        -(POW2_80 as i128) < mg < POW2_80 as i128,
    ensures
        r.0@ == pair_rows_a(a@, b@, mg as int, d as int),
        r.1@ == pair_rows_b(a@, b@, mg as int, d as int),
        r.0@.len() == a@.len(),
        r.1@.len() == b@.len(),
        coords_in_range(r.0@),
        coords_in_range(r.1@),
{
    let mut na: Vec<i64> = Vec::new();
    let mut nb: Vec<i64> = Vec::new();
    let n = a.len();
    let mut k: usize = 0;
    while k < n
        invariant
            k <= n,
            n == a@.len(),
            n == b@.len(),
            d <= n,
            coords_in_range(a@),
            coords_in_range(b@),
            -(POW2_80 as i128) < mg < POW2_80 as i128,
            na@.len() == k,
            nb@.len() == k,
            forall|j: int| 0 <= j < k ==> #[trigger] na@[j] == pair_rows_a(a@, b@, mg as int, d as int)[j],
            forall|j: int| 0 <= j < k ==> #[trigger] nb@[j] == pair_rows_b(a@, b@, mg as int, d as int)[j],
            forall|j: int| 0 <= j < k ==> -COORD_LIMIT <= #[trigger] na@[j] <= COORD_LIMIT,
            forall|j: int| 0 <= j < k ==> -COORD_LIMIT <= #[trigger] nb@[j] <= COORD_LIMIT,
        decreases n - k,
    {
        if k < d {
            let diff128: i128 = b[k] as i128 - a[k] as i128;
            let diff: i64 = diff128 as i64;
            assert(-(POW2_44 as i64) < diff < POW2_44 as i64) by {
                assert(POW2_44 == 0x100000000000u128);
            }
            let u = mul_div_signed(diff, mg, SCALE as u128);
            proof {
                lemma_mul_div2_magnitude(
                    diff as int,
                    mg as int,
                    SCALE as int,
                    POW2_44 as int,
                    POW2_80 as int,
                );
                vstd::arithmetic::div_mod::lemma_div_is_ordered_by_denominator(
                    (POW2_44 as int) * (POW2_80 as int),
                    1,
                    SCALE as int,
                );
                vstd::arithmetic::div_mod::lemma_div_basics((POW2_44 as int) * (POW2_80 as int));
                assert((POW2_44 as int) * (POW2_80 as int) == POW2_124 as int) by (nonlinear_arith)
                    requires
                        POW2_44 == 0x100000000000u128,
                        POW2_80 == 0x100000000000000000000u128,
                        POW2_124 == 0x10000000000000000000000000000000u128,
                ;
                assert(-(POW2_124 as int) <= u as int <= POW2_124 as int);
            }
            let va = clamp_i128(a[k] as i128 - u, -COORD_LIMIT, COORD_LIMIT);
            let vb = clamp_i128(b[k] as i128 + u, -COORD_LIMIT, COORD_LIMIT);
            na.push(va);
            nb.push(vb);
        } else {
            na.push(a[k]);
            nb.push(b[k]);
        }
        k = k + 1;
    }
    proof {
        assert(na@ =~= pair_rows_a(a@, b@, mg as int, d as int));
        assert(nb@ =~= pair_rows_b(a@, b@, mg as int, d as int));
    }
    (na, nb)
}

/// The views of a position table.
pub open spec fn pview(p: Seq<Vec<i64>>) -> Seq<Seq<i64>> {
    Seq::new(p.len(), |i: int| p[i]@)
}

/// Every row has `dims` coordinates, all in the clamped range.
pub open spec fn positions_wf(p: Seq<Seq<i64>>, dims: int) -> bool {
    forall|r: int| 0 <= r < p.len() ==> (#[trigger] p[r]).len() == dims && coords_in_range(p[r])
}

/// One hierarchy nudge: when the vertical gap of an edge's endpoints is
/// under `hierarchy_distance`, the source's coordinate 2 moves up by
/// `hierarchy_strength` and the target's moves down, in that order.
pub open spec fn hier_edge(cfg: SimulationConfig, p: Seq<Seq<i64>>, e: (int, int)) -> Seq<
    Seq<i64>,
> {
    if !(0 <= e.0 < p.len() && 0 <= e.1 < p.len()) {
        p
    } else if p[e.0][2] - p[e.1][2] < cfg.hierarchy_distance {
        let p1 = p.update(
            e.0,
            p[e.0].update(2, clamp_coord(p[e.0][2] + cfg.hierarchy_strength)),
        );
        p1.update(e.1, p1[e.1].update(2, clamp_coord(p1[e.1][2] - cfg.hierarchy_strength)))
    } else {
        p
    }
}

/// The hierarchy force applied to the first `m` edges in order.
pub open spec fn hier_pass(
    cfg: SimulationConfig,
    p: Seq<Seq<i64>>,
    edges: Seq<(int, int)>,
    m: int,
) -> Seq<Seq<i64>>
    decreases m,
{
    if m <= 0 {
        p
    } else {
        hier_edge(cfg, hier_pass(cfg, p, edges, m - 1), edges[m - 1])
    }
}

/// One repulsion application to the unordered pair (i, j).
pub open spec fn repel_step(cfg: SimulationConfig, p: Seq<Seq<i64>>, i: int, j: int, d: int) -> Seq<
    Seq<i64>,
> {
    if !(0 <= i < p.len() && 0 <= j < p.len() && i != j) {
        p
    } else {
        let mg = repel_mag(cfg, pair_dist(p[i], p[j], d));
        p.update(i, pair_rows_a(p[i], p[j], mg, d)).update(j, pair_rows_b(p[i], p[j], mg, d))
    }
}

/// Repulsion of row `i` against rows `i+1 .. jend`, in order.
pub open spec fn repel_row(cfg: SimulationConfig, p: Seq<Seq<i64>>, i: int, jend: int, d: int) -> Seq<
    Seq<i64>,
>
    decreases jend - i,
{
    if jend <= i + 1 {
        p
    } else {
        repel_step(cfg, repel_row(cfg, p, i, jend - 1, d), i, jend - 1, d)
    }
}

/// Repulsion over every unordered pair with first index under `iend`.
pub open spec fn repel_outer(
    cfg: SimulationConfig,
    p: Seq<Seq<i64>>,
    iend: int,
    n: int,
    d: int,
) -> Seq<Seq<i64>>
    decreases iend,
{
    if iend <= 0 {
        p
    } else {
        repel_row(cfg, repel_outer(cfg, p, iend - 1, n, d), iend - 1, n, d)
    }
}

/// One spring application to an edge; a self-loop contributes nothing.
pub open spec fn spring_edge(
    cfg: SimulationConfig,
    p: Seq<Seq<i64>>,
    e: (int, int),
    d: int,
) -> Seq<Seq<i64>> {
    if !(0 <= e.0 < p.len() && 0 <= e.1 < p.len() && e.0 != e.1) {
        p
    } else {
        let mg = spring_mag(cfg, pair_dist(p[e.0], p[e.1], d));
        p.update(e.0, pair_rows_a(p[e.0], p[e.1], mg, d)).update(
            e.1,
            pair_rows_b(p[e.0], p[e.1], mg, d),
        )
    }
}

/// A self-loop edge contributes zero displacement to the spring pass.
pub proof fn lemma_spring_self_loop(cfg: SimulationConfig, p: Seq<Seq<i64>>, e: (int, int), d: int)
    requires
        e.0 == e.1,
    ensures
        spring_edge(cfg, p, e, d) == p,
{
}

/// The spring force applied to the first `m` edges in order.
pub open spec fn spring_pass(
    cfg: SimulationConfig,
    p: Seq<Seq<i64>>,
    edges: Seq<(int, int)>,
    m: int,
    d: int,
) -> Seq<Seq<i64>>
    decreases m,
{
    if m <= 0 {
        p
    } else {
        spring_edge(cfg, spring_pass(cfg, p, edges, m - 1, d), edges[m - 1], d)
    }
}

/// One inner relaxation step: hierarchy, then repulsion, then spring.
pub open spec fn relax_once(
    cfg: SimulationConfig,
    p: Seq<Seq<i64>>,
    edges: Seq<(int, int)>,
    d: int,
) -> Seq<Seq<i64>> {
    let p1 = hier_pass(cfg, p, edges, edges.len() as int);
    let p2 = repel_outer(cfg, p1, p1.len() as int, p1.len() as int, d);
    spring_pass(cfg, p2, edges, edges.len() as int, d)
}

/// `t` inner relaxation steps in sequence.
pub open spec fn relax_n(
    cfg: SimulationConfig,
    p: Seq<Seq<i64>>,
    edges: Seq<(int, int)>,
    d: int,
    t: int,
) -> Seq<Seq<i64>>
    decreases t,
{
    if t <= 0 {
        p
    } else {
        relax_once(cfg, relax_n(cfg, p, edges, d, t - 1), edges, d)
    }
}

/// A fresh row equal to `row` with coordinate `k` replaced.
fn row_set(row: &Vec<i64>, k: usize, v: i64) -> (r: Vec<i64>)
    requires
        k < row@.len(),
    ensures
        r@ == row@.update(k as int, v),
{
    let mut r: Vec<i64> = Vec::new();
    let mut i: usize = 0;
    while i < row.len()
        invariant
            i <= row@.len(),
            k < row@.len(),
            r@.len() == i,
            forall|j: int| 0 <= j < i ==> #[trigger] r@[j] == row@.update(k as int, v)[j],
        decreases row@.len() - i,
    {
        if i == k {
            r.push(v);
        } else {
            r.push(row[i]);
        }
        i = i + 1;
    }
    proof {
        assert(r@ =~= row@.update(k as int, v));
    }
    r
}

/// All edge endpoints index into a table of `n` rows.
pub open spec fn edges_wf(edges: Seq<(usize, usize)>, n: int) -> bool {
    forall|e: int| 0 <= e < edges.len() ==> (#[trigger] edges[e]).0 < n && edges[e].1 < n
}

/// Apply the hierarchy force once to every edge.
fn hier_pass_exec(cfg: &SimulationConfig, positions: &mut Vec<Vec<i64>>, edges: &Vec<(usize, usize)>)
    requires
        cfg.wf(),
        positions_wf(pview(old(positions)@), cfg.max_dims as int),
        edges_wf(edges@, old(positions)@.len() as int),
    ensures
        final(positions)@.len() == old(positions)@.len(),
        positions_wf(pview(final(positions)@), cfg.max_dims as int),
        pview(final(positions)@) == hier_pass(
            *cfg,
            pview(old(positions)@),
            crate::model::pairs_int(edges@),
            edges@.len() as int,
        ),
{
    let ghost p0 = pview(positions@);
    let ghost ev = crate::model::pairs_int(edges@);
    let mut m: usize = 0;
    while m < edges.len()
        invariant
            m <= edges@.len(),
            cfg.wf(),
            ev == crate::model::pairs_int(edges@),
            edges_wf(edges@, p0.len() as int),
            positions@.len() == p0.len(),
            positions_wf(pview(positions@), cfg.max_dims as int),
            pview(positions@) == hier_pass(*cfg, p0, ev, m as int),
        decreases edges@.len() - m,
    {
        let ghost pcur = pview(positions@);
        let (i, j) = edges[m];
        proof {
            assert(ev[m as int] == (i as int, j as int));
            assert(pview(positions@)[i as int] == positions@[i as int]@);
            assert(pview(positions@)[j as int] == positions@[j as int]@);
        }
        let zi = positions[i][2];
        let zj = positions[j][2];
        proof {
            assert(-COORD_LIMIT <= pview(positions@)[i as int][2] <= COORD_LIMIT);
            assert(-COORD_LIMIT <= pview(positions@)[j as int][2] <= COORD_LIMIT);
        }
        if zi - zj < cfg.hierarchy_distance {
            let vi = clamp_i128(zi as i128 + cfg.hierarchy_strength as i128, -COORD_LIMIT, COORD_LIMIT);
            let ri = row_set(&positions[i], 2, vi);
            positions.set(i, ri);
            proof {
                assert(pview(positions@) =~= pcur.update(
                    i as int,
                    pcur[i as int].update(2, clamp_coord(pcur[i as int][2] + cfg.hierarchy_strength)),
                ));
            }
            let ghost p1 = pview(positions@);
            proof {
                assert(pview(positions@)[j as int] == positions@[j as int]@);
                assert(-COORD_LIMIT <= pview(positions@)[j as int][2] <= COORD_LIMIT);
            }
            let zj2 = positions[j][2];
            let vj = clamp_i128(zj2 as i128 - cfg.hierarchy_strength as i128, -COORD_LIMIT, COORD_LIMIT);
            let rj = row_set(&positions[j], 2, vj);
            positions.set(j, rj);
            proof {
                assert(pview(positions@) =~= p1.update(
                    j as int,
                    p1[j as int].update(2, clamp_coord(p1[j as int][2] - cfg.hierarchy_strength)),
                ));
                assert(pview(positions@) == hier_edge(*cfg, pcur, ev[m as int]));
            }
        } else {
            proof {
                assert(pview(positions@) == hier_edge(*cfg, pcur, ev[m as int]));
            }
        }
        m = m + 1;
    }
}

/// Apply the repulsion force once to every unordered pair of distinct nodes.
fn repel_pass_exec(cfg: &SimulationConfig, positions: &mut Vec<Vec<i64>>, d: usize)
    requires
        cfg.wf(),
        positions_wf(pview(old(positions)@), cfg.max_dims as int),
        d <= cfg.max_dims,
    ensures
        final(positions)@.len() == old(positions)@.len(),
        positions_wf(pview(final(positions)@), cfg.max_dims as int),
        pview(final(positions)@) == repel_outer(
            *cfg,
            pview(old(positions)@),
            old(positions)@.len() as int,
            old(positions)@.len() as int,
            d as int,
        ),
{
    let ghost p0 = pview(positions@);
    let n = positions.len();
    let mut i: usize = 0;
    while i < n
        invariant
            i <= n,
            cfg.wf(),
            d <= cfg.max_dims,
            n == p0.len(),
            positions@.len() == n,
            positions_wf(pview(positions@), cfg.max_dims as int),
            pview(positions@) == repel_outer(*cfg, p0, i as int, n as int, d as int),
        decreases n - i,
    {
        let ghost prow = pview(positions@);
        let mut j: usize = i + 1;
        while j < n
            invariant
                i < n,
                i + 1 <= j <= n,
                cfg.wf(),
                d <= cfg.max_dims,
                n == p0.len(),
                positions@.len() == n,
                positions_wf(pview(positions@), cfg.max_dims as int),
                pview(positions@) == repel_row(*cfg, prow, i as int, j as int, d as int),
            decreases n - j,
        {
            let ghost pcur = pview(positions@);
            proof {
                assert(pview(positions@)[i as int] == positions@[i as int]@);
                assert(pview(positions@)[j as int] == positions@[j as int]@);
            }
            let dist = distance(&positions[i], &positions[j], d);
            let mg = repel_mag_exec(cfg, dist);
            let (na, nb) = apply_pair(&positions[i], &positions[j], mg, d);
            positions.set(i, na);
            positions.set(j, nb);
            proof {
                assert(pview(positions@) =~= pcur.update(
                    i as int,
                    pair_rows_a(
                        pcur[i as int],
                        pcur[j as int],
                        repel_mag(*cfg, pair_dist(pcur[i as int], pcur[j as int], d as int)),
                        d as int,
                    ),
                ).update(
                    j as int,
                    pair_rows_b(
                        pcur[i as int],
                        pcur[j as int],
                        repel_mag(*cfg, pair_dist(pcur[i as int], pcur[j as int], d as int)),
                        d as int,
                    ),
                ));
                assert(pview(positions@) == repel_step(*cfg, pcur, i as int, j as int, d as int));
            }
            j = j + 1;
        }
        i = i + 1;
    }
}

/// Apply the spring force once to every edge; self-loops are skipped.
fn spring_pass_exec(
    cfg: &SimulationConfig,
    positions: &mut Vec<Vec<i64>>,
    edges: &Vec<(usize, usize)>,
    d: usize,
)
    requires
        cfg.wf(),
        positions_wf(pview(old(positions)@), cfg.max_dims as int),
        edges_wf(edges@, old(positions)@.len() as int),
        d <= cfg.max_dims,
    ensures
        final(positions)@.len() == old(positions)@.len(),
        positions_wf(pview(final(positions)@), cfg.max_dims as int),
        pview(final(positions)@) == spring_pass(
            *cfg,
            pview(old(positions)@),
            crate::model::pairs_int(edges@),
            edges@.len() as int,
            d as int,
        ),
{
    let ghost p0 = pview(positions@);
    let ghost ev = crate::model::pairs_int(edges@);
    let mut m: usize = 0;
    while m < edges.len()
        invariant
            m <= edges@.len(),
            cfg.wf(),
            d <= cfg.max_dims,
            ev == crate::model::pairs_int(edges@),
            edges_wf(edges@, p0.len() as int),
            positions@.len() == p0.len(),
            positions_wf(pview(positions@), cfg.max_dims as int),
            pview(positions@) == spring_pass(*cfg, p0, ev, m as int, d as int),
        decreases edges@.len() - m,
    {
        let ghost pcur = pview(positions@);
        let (i, j) = edges[m];
        proof {
            assert(ev[m as int] == (i as int, j as int));
        }
        if i != j {
            proof {
                assert(pview(positions@)[i as int] == positions@[i as int]@);
                assert(pview(positions@)[j as int] == positions@[j as int]@);
            }
            let dist = distance(&positions[i], &positions[j], d);
            let mg = spring_mag_exec(cfg, dist);
            let (na, nb) = apply_pair(&positions[i], &positions[j], mg, d);
            positions.set(i, na);
            positions.set(j, nb);
            proof {
                assert(pview(positions@) =~= pcur.update(
                    i as int,
                    pair_rows_a(
                        pcur[i as int],
                        pcur[j as int],
                        spring_mag(*cfg, pair_dist(pcur[i as int], pcur[j as int], d as int)),
                        d as int,
                    ),
                ).update(
                    j as int,
                    pair_rows_b(
                        pcur[i as int],
                        pcur[j as int],
                        spring_mag(*cfg, pair_dist(pcur[i as int], pcur[j as int], d as int)),
                        d as int,
                    ),
                ));
                assert(pview(positions@) == spring_edge(*cfg, pcur, ev[m as int], d as int));
            }
        } else {
            proof {
                assert(pview(positions@) == spring_edge(*cfg, pcur, ev[m as int], d as int));
            }
        }
        m = m + 1;
    }
}

/// The annealed layout engine: positions plus the phase schedule.
pub struct LayoutEngine {
    pub cfg: SimulationConfig,
    pub positions: Vec<Vec<i64>>,
    pub active_dims: usize,
    pub outer_left: usize,
    pub done: bool,
}

impl LayoutEngine {
    /// Engine invariant: a well-formed configuration and position table,
    /// the active dimension count between 3 and `max_dims - 1`, and at
    /// least one outer iteration left in the current phase.
    pub open spec fn wf(self) -> bool {
        &&& self.cfg.wf()
        &&& positions_wf(pview(self.positions@), self.cfg.max_dims as int)
        &&& 3 <= self.active_dims < self.cfg.max_dims
        &&& 1 <= self.outer_left <= self.cfg.outer_iters
    }

    /// Number of nodes being laid out.
    pub open spec fn node_count(self) -> int {
        self.positions@.len() as int
    }

    /// Start a run: every coordinate of every node is drawn uniformly
    /// from [-1.0, 1.0) (in fixed-point units), the first phase anneals
    /// at `max_dims - 1` dimensions.
    pub fn new(cfg: SimulationConfig, n: usize, rng: &mut rand::rngs::StdRng) -> (s: Self)
        requires
            cfg.wf(),
        ensures
            s.wf(),
            s.cfg == cfg,
            s.positions@.len() == n,
            s.active_dims == cfg.max_dims - 1,
            s.outer_left == cfg.outer_iters,
            !s.done,
            forall|r: int, k: int|
                0 <= r < n && 0 <= k < cfg.max_dims ==> -SCALE <= #[trigger] pview(
                    s.positions@,
                )[r][k] < SCALE,
    {
        let mut positions: Vec<Vec<i64>> = Vec::new();
        let mut r: usize = 0;
        while r < n
            invariant
                r <= n,
                cfg.wf(),
                positions@.len() == r,
                positions_wf(pview(positions@), cfg.max_dims as int),
                forall|q: int, k: int|
                    0 <= q < r && 0 <= k < cfg.max_dims ==> -SCALE <= #[trigger] pview(
                        positions@,
                    )[q][k] < SCALE,
            decreases n - r,
        {
            let mut row: Vec<i64> = Vec::new();
            let mut k: usize = 0;
            while k < cfg.max_dims
                invariant
                    k <= cfg.max_dims,
                    cfg.wf(),
                    row@.len() == k,
                    forall|q: int| 0 <= q < k ==> -SCALE <= #[trigger] row@[q] < SCALE,
                decreases cfg.max_dims - k,
            {
                let v = crate::rng::rng_range(rng, -SCALE, SCALE);
                row.push(v);
                k = k + 1;
            }
            let ghost oldp = pview(positions@);
            positions.push(row);
            proof {
                assert(pview(positions@) =~= oldp.push(row@));
                assert(coords_in_range(row@));
            }
            r = r + 1;
        }
        LayoutEngine {
            cfg,
            positions,
            active_dims: cfg.max_dims - 1,
            outer_left: cfg.outer_iters,
            done: false,
        }
    }

    /// Start a reproducible run: like `new`, with the generator seeded
    /// from `seed`, so two runs from one seed lay out identically.
    pub fn new_seeded(cfg: SimulationConfig, n: usize, seed: u64) -> (s: Self)
        requires
            cfg.wf(),
        ensures
            s.wf(),
            s.cfg == cfg,
            s.positions@.len() == n,
            s.active_dims == cfg.max_dims - 1,
            s.outer_left == cfg.outer_iters,
            !s.done,
    {
        let mut rng = crate::rng::rng_from_seed(seed);
        LayoutEngine::new(cfg, n, &mut rng)
    }

    /// One outer iteration: `inner_iters` relaxation steps at the current
    /// `active_dims`, then the phase schedule advances. The active
    /// dimension count never increases and never drops below 3; after
    /// the phase at 3 dimensions finishes its outer iterations the
    /// engine is done and further steps change nothing.
    pub fn step(&mut self, edges: &Vec<(usize, usize)>)
        requires
            old(self).wf(),
            edges_wf(edges@, old(self).node_count()),
        ensures
            final(self).wf(),
            final(self).cfg == old(self).cfg,
            final(self).positions@.len() == old(self).positions@.len(),
            final(self).active_dims <= old(self).active_dims,
            final(self).active_dims >= 3,
            old(self).done ==> *final(self) == *old(self),
            !old(self).done ==> pview(final(self).positions@) == relax_n(
                old(self).cfg,
                pview(old(self).positions@),
                crate::model::pairs_int(edges@),
                old(self).active_dims as int,
                old(self).cfg.inner_iters as int,
            ),
            !old(self).done ==> final(self).done == (old(self).outer_left <= 1
                && old(self).active_dims == 3),
            (!old(self).done && old(self).outer_left > 1) ==> (final(self).active_dims == old(self).active_dims
                && final(self).outer_left == old(self).outer_left - 1),
            (!old(self).done && old(self).outer_left <= 1 && old(self).active_dims > 3) ==> (final(self).active_dims
                == old(self).active_dims - 1 && final(self).outer_left == old(self).cfg.outer_iters),
    {
        if self.done {
            return ;
        }
        let d = self.active_dims;
        let ghost p0 = pview(self.positions@);
        let ghost ev = crate::model::pairs_int(edges@);
        let mut t: usize = 0;
        while t < self.cfg.inner_iters
            invariant
                t <= self.cfg.inner_iters,
                self.cfg == old(self).cfg,
                self.active_dims == old(self).active_dims,
                self.outer_left == old(self).outer_left,
                self.done == old(self).done,
                self.cfg.wf(),
                d == self.active_dims,
                3 <= d < self.cfg.max_dims,
                ev == crate::model::pairs_int(edges@),
                edges_wf(edges@, p0.len() as int),
                self.positions@.len() == p0.len(),
                positions_wf(pview(self.positions@), self.cfg.max_dims as int),
                pview(self.positions@) == relax_n(self.cfg, p0, ev, d as int, t as int),
            decreases self.cfg.inner_iters - t,
        {
            let ghost pt = pview(self.positions@);
            hier_pass_exec(&self.cfg, &mut self.positions, edges);
            let ghost p1 = pview(self.positions@);
            repel_pass_exec(&self.cfg, &mut self.positions, d);
            let ghost p2 = pview(self.positions@);
            spring_pass_exec(&self.cfg, &mut self.positions, edges, d);
            proof {
                assert(p1 == hier_pass(self.cfg, pt, ev, ev.len() as int));
                assert(p2 == repel_outer(self.cfg, p1, p1.len() as int, p1.len() as int, d as int));
                assert(pview(self.positions@) == spring_pass(
                    self.cfg,
                    p2,
                    ev,
                    ev.len() as int,
                    d as int,
                ));
                assert(pview(self.positions@) == relax_once(self.cfg, pt, ev, d as int));
            }
            t = t + 1;
        }
        if self.outer_left > 1 {
            self.outer_left = self.outer_left - 1;
        } else if self.active_dims > 3 {
            self.active_dims = self.active_dims - 1;
            self.outer_left = self.cfg.outer_iters;
        } else {
            self.done = true;
        }
    }
}

/// Linear blend of two 8-bit channels by a ratio `t` in [0, SCALE],
/// rounded to the nearest integer (half up).
pub open spec fn lerp8(a: u8, b: u8, t: int) -> int {
    ((a as int) * (SCALE as int - t) + (b as int) * t + (SCALE as int) / 2) / (SCALE as int)
}

/// The blend ratio `num / range`, scaled by `SCALE` and clamped to [0, SCALE].
pub open spec fn blend_ratio(num: int, range: int) -> int {
    clamp_spec((num * (SCALE as int)) / range, 0, SCALE as int)
}

/// The arrow color for an edge at distance `dist`: compressed edges blend
/// from green toward red over `compress_range`, stretched ones from green
/// toward blue-purple over `stretch_range`.
pub open spec fn edge_color(cfg: SimulationConfig, dist: int) -> crate::attrs::Color {
    if dist < cfg.edge_rest_length {
        let t = blend_ratio(cfg.edge_rest_length - dist, cfg.compress_range as int);
        crate::attrs::Color {
            red: lerp8(0, 255, t) as u8,
            green: lerp8(255, 0, t) as u8,
            blue: 0,
        }
    } else {
        let t = blend_ratio(dist - cfg.edge_rest_length, cfg.stretch_range as int);
        crate::attrs::Color {
            red: lerp8(0, 127, t) as u8,
            green: lerp8(255, 0, t) as u8,
            blue: lerp8(0, 255, t) as u8,
        }
    }
}

/// Executable channel blend.
pub fn lerp8_exec(a: u8, b: u8, t: i64) -> (r: u8)
    requires
        0 <= t <= SCALE,
    ensures
        r as int == lerp8(a, b, t as int),
{
    let tt = t as u64;
    let s = SCALE as u64;
    assert((a as u64) * (s - tt) <= 255 * 1000000) by (nonlinear_arith)
        requires
            a <= 255,
            s - tt <= 1000000,
    ;
    assert((b as u64) * tt <= 255 * 1000000) by (nonlinear_arith)
        requires
            b <= 255,
            tt <= 1000000,
            s == 1000000,
    ;
    let num: u64 = (a as u64) * (s - tt) + (b as u64) * tt + s / 2;
    let r = num / s;
    proof {
        assert(r <= 255) by {
            assert((a as int) * (s as int - tt as int) <= 255 * (s as int - tt as int))
                by (nonlinear_arith)
                requires
                    a <= 255,
                    tt <= s,
            ;
            assert((b as int) * (tt as int) <= 255 * (tt as int)) by (nonlinear_arith)
                requires
                    b <= 255,
                    0 <= tt,
            ;
            assert(num as int <= 255 * (s as int) + (s as int) / 2);
            vstd::arithmetic::div_mod::lemma_div_is_ordered(
                num as int,
                255 * (s as int) + (s as int) / 2,
                s as int,
            );
            assert((255 * 1000000 + 500000) / 1000000 == 255int);
        }
    }
    r as u8
}

/// Executable blend ratio.
pub fn blend_ratio_exec(num: i64, range: i64) -> (t: i64)
    requires
        0 <= num <= 8_000_000_000_000,
        1 <= range,
    ensures
        t as int == blend_ratio(num as int, range as int),
        0 <= t <= SCALE,
{
    assert((num as u128) * (SCALE as u128) <= 8_000_000_000_000u128 * 1_000_000u128)
        by (nonlinear_arith)
        requires
            0 <= num <= 8_000_000_000_000i64,
            SCALE == 1_000_000i64,
    ;
    let raw: u128 = (num as u128) * (SCALE as u128) / (range as u128);
    proof {
        assert(0 <= (num as int) * (SCALE as int)) by (nonlinear_arith)
            requires
                0 <= num,
                0 < SCALE,
        ;
        vstd::arithmetic::div_mod::lemma_div_pos_is_pos(
            (num as int) * (SCALE as int),
            range as int,
        );
    }
    if raw > SCALE as u128 {
        SCALE
    } else {
        raw as i64
    }
}

/// One emitted node record: the first three coordinates, the node's
/// fixed color and label.
pub struct FrameNode {
    pub x: i64,
    pub y: i64,
    pub z: i64,
    pub color: crate::attrs::Color,
    pub label: Vec<u8>,
}

/// One emitted arrow record: the source point, the vector to the target,
/// and a color from the edge's stretch ratio.
pub struct FrameArrow {
    pub ox: i64,
    pub oy: i64,
    pub oz: i64,
    pub vx: i64,
    pub vy: i64,
    pub vz: i64,
    pub color: crate::attrs::Color,
}

/// One snapshot of the layout: a record per node and one per edge.
pub struct LayoutFrame {
    pub nodes: Vec<FrameNode>,
    pub arrows: Vec<FrameArrow>,
}

/// Build the frame for the current positions: exactly one record per
/// node and one directed arrow per edge, in index order. Every emitted
/// point is made of coordinates 0 to 2 alone, whatever `max_dims` is.
pub fn make_frame(
    cfg: &SimulationConfig,
    positions: &Vec<Vec<i64>>,
    styles: &crate::attrs::StyleAssignment,
    edges: &Vec<(usize, usize)>,
    d: usize,
) -> (f: LayoutFrame)
    requires
        cfg.wf(),
        positions_wf(pview(positions@), cfg.max_dims as int),
        edges_wf(edges@, positions@.len() as int),
        styles.colors@.len() == positions@.len(),
        styles.labels@.len() == positions@.len(),
        d <= cfg.max_dims,
    ensures
        f.nodes@.len() == positions@.len(),
        f.arrows@.len() == edges@.len(),
        forall|i: int|
            0 <= i < positions@.len() ==> {
                &&& (#[trigger] f.nodes@[i]).x == pview(positions@)[i][0]
                &&& f.nodes@[i].y == pview(positions@)[i][1]
                &&& f.nodes@[i].z == pview(positions@)[i][2]
                &&& f.nodes@[i].color == styles.colors@[i]
                &&& f.nodes@[i].label@ == styles.labels@[i]@
            },
        forall|e: int|
            0 <= e < edges@.len() ==> {
                &&& (#[trigger] f.arrows@[e]).ox == pview(positions@)[edges@[e].0 as int][0]
                &&& f.arrows@[e].oy == pview(positions@)[edges@[e].0 as int][1]
                &&& f.arrows@[e].oz == pview(positions@)[edges@[e].0 as int][2]
                &&& f.arrows@[e].vx == pview(positions@)[edges@[e].1 as int][0] - pview(
                    positions@,
                )[edges@[e].0 as int][0]
                &&& f.arrows@[e].vy == pview(positions@)[edges@[e].1 as int][1] - pview(
                    positions@,
                )[edges@[e].0 as int][1]
                &&& f.arrows@[e].vz == pview(positions@)[edges@[e].1 as int][2] - pview(
                    positions@,
                )[edges@[e].0 as int][2]
                &&& f.arrows@[e].color == edge_color(
                    *cfg,
                    pair_dist(
                        pview(positions@)[edges@[e].0 as int],
                        pview(positions@)[edges@[e].1 as int],
                        d as int,
                    ),
                )
            },
{
    let mut nodes: Vec<FrameNode> = Vec::new();
    let n = positions.len();
    let mut i: usize = 0;
    while i < n
        invariant
            i <= n,
            n == positions@.len(),
            cfg.wf(),
            positions_wf(pview(positions@), cfg.max_dims as int),
            styles.colors@.len() == n,
            styles.labels@.len() == n,
            nodes@.len() == i,
            forall|q: int|
                0 <= q < i ==> {
                    &&& (#[trigger] nodes@[q]).x == pview(positions@)[q][0]
                    &&& nodes@[q].y == pview(positions@)[q][1]
                    &&& nodes@[q].z == pview(positions@)[q][2]
                    &&& nodes@[q].color == styles.colors@[q]
                    &&& nodes@[q].label@ == styles.labels@[q]@
                },
        decreases n - i,
    {
        proof {
            assert(pview(positions@)[i as int] == positions@[i as int]@);
        }
        let label = crate::model::copy_bytes(&styles.labels[i]);
        let node = FrameNode {
            x: positions[i][0],
            y: positions[i][1],
            z: positions[i][2],
            color: styles.colors[i],
            label,
        };
        nodes.push(node);
        i = i + 1;
    }
    let mut arrows: Vec<FrameArrow> = Vec::new();
    let mut e: usize = 0;
    while e < edges.len()
        invariant
            e <= edges@.len(),
            n == positions@.len(),
            cfg.wf(),
            d <= cfg.max_dims,
            positions_wf(pview(positions@), cfg.max_dims as int),
            edges_wf(edges@, n as int),
            arrows@.len() == e,
            forall|q: int|
                0 <= q < e ==> {
                    &&& (#[trigger] arrows@[q]).ox == pview(positions@)[edges@[q].0 as int][0]
                    &&& arrows@[q].oy == pview(positions@)[edges@[q].0 as int][1]
                    &&& arrows@[q].oz == pview(positions@)[edges@[q].0 as int][2]
                    &&& arrows@[q].vx == pview(positions@)[edges@[q].1 as int][0] - pview(
                        positions@,
                    )[edges@[q].0 as int][0]
                    &&& arrows@[q].vy == pview(positions@)[edges@[q].1 as int][1] - pview(
                        positions@,
                    )[edges@[q].0 as int][1]
                    &&& arrows@[q].vz == pview(positions@)[edges@[q].1 as int][2] - pview(
                        positions@,
                    )[edges@[q].0 as int][2]
                    &&& arrows@[q].color == edge_color(
                        *cfg,
                        pair_dist(
                            pview(positions@)[edges@[q].0 as int],
                            pview(positions@)[edges@[q].1 as int],
                            d as int,
                        ),
                    )
                },
        decreases edges@.len() - e,
    {
        let (a, b) = edges[e];
        proof {
            assert(pview(positions@)[a as int] == positions@[a as int]@);
            assert(pview(positions@)[b as int] == positions@[b as int]@);
        }
        let dist = distance(&positions[a], &positions[b], d);
        let color = if dist < cfg.edge_rest_length {
            let t = blend_ratio_exec(cfg.edge_rest_length - dist, cfg.compress_range);
            crate::attrs::Color {
                red: lerp8_exec(0, 255, t),
                green: lerp8_exec(255, 0, t),
                blue: 0,
            }
        } else {
            let t = blend_ratio_exec(dist - cfg.edge_rest_length, cfg.stretch_range);
            crate::attrs::Color {
                red: lerp8_exec(0, 127, t),
                green: lerp8_exec(255, 0, t),
                blue: lerp8_exec(0, 255, t),
            }
        };
        proof {
            assert(color == edge_color(
                *cfg,
                pair_dist(pview(positions@)[a as int], pview(positions@)[b as int], d as int),
            ));
        }
        let arrow = FrameArrow {
            ox: positions[a][0],
            oy: positions[a][1],
            oz: positions[a][2],
            vx: positions[b][0] - positions[a][0],
            vy: positions[b][1] - positions[a][1],
            vz: positions[b][2] - positions[a][2],
            color,
        };
        arrows.push(arrow);
        e = e + 1;
    }
    LayoutFrame { nodes, arrows }
}

} // verus!
