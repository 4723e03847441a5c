//! Cell classes, the smooth minimum, the glow falloff and the renderer.
use vstd::prelude::*;
use vstd::relations::{sorted_by, total_ordering};
use vstd::arithmetic::div_mod::lemma_fundamental_div_mod;
use vstd::arithmetic::div_mod::lemma_fundamental_div_mod_converse;
use crate::geometry::{clamp, min_of, lemma_abs_mul_le, find_closest_point_on_line_segment, find_line_equation, dist, segment_distance, Coord};

verus! {

/// What a grid cell shows.
#[derive(Clone, Copy, Debug, PartialEq, Eq, Structural)]
pub enum CellType {
    /// Untouched, or reset.
    Background,
    /// Within the hard core of the path network.
    OnPath,
    /// Near the path network, with an intensity from 0 (far) to 255 (near).
    Glow(u8),
    /// A placed node; rendering never overwrites it.
    NodeMarker,
}

/// One connection: consecutive waypoints are joined by straight segments.
#[derive(Clone, Debug)]
pub struct Path {
    pub nodes: Vec<Coord>,
}

/// Distances are counted in thousandths of a cell.
pub const UNITS_PER_CELL: i64 = 1000;

/// Blend width of the smooth minimum: nine cells.
pub const BLEND_WIDTH: i64 = 9000;

/// A combined distance up to two cells lies on the path.
pub const PATH_CORE: i64 = 2000;

/// `FALLOFF_LIMITS[n - 1]` is the largest distance, in thousandths of a
/// cell, at which the glow intensity `round(255 / (1 + e^(d - 4)))` with `d`
/// in cells is still at least `n`: the floor of `1000 * (4 + ln((511 - 2n) / (2n - 1)))`.
pub const FALLOFF_LIMITS: [i64; 255] = [
    10232, 9129, 8615, 8274, 8019, 7814, 7643, 7496, 7367, 7252, 7147, 7052,
    6965, 6884, 6808, 6737, 6671, 6607, 6548, 6491, 6437, 6385, 6335, 6287,
    6241, 6197, 6154, 6112, 6072, 6033, 5996, 5959, 5923, 5888, 5854, 5821,
    5789, 5757, 5726, 5696, 5667, 5637, 5609, 5581, 5553, 5527, 5500, 5474,
    5448, 5423, 5398, 5374, 5349, 5326, 5302, 5279, 5256, 5233, 5211, 5189,
    5167, 5146, 5124, 5103, 5082, 5062, 5041, 5021, 5001, 4981, 4962, 4942,
    4923, 4903, 4884, 4866, 4847, 4828, 4810, 4791, 4773, 4755, 4737, 4719,
    4701, 4684, 4666, 4649, 4631, 4614, 4597, 4580, 4563, 4546, 4529, 4512,
    4496, 4479, 4462, 4446, 4430, 4413, 4397, 4381, 4364, 4348, 4332, 4316,
    4300, 4284, 4268, 4252, 4236, 4220, 4204, 4188, 4172, 4157, 4141, 4125,
    4109, 4094, 4078, 4062, 4047, 4031, 4015, 4000, 3984, 3968, 3952, 3937,
    3921, 3905, 3890, 3874, 3858, 3842, 3827, 3811, 3795, 3779, 3763, 3747,
    3731, 3715, 3699, 3683, 3667, 3651, 3635, 3618, 3602, 3586, 3569, 3553,
    3537, 3520, 3503, 3487, 3470, 3453, 3436, 3419, 3402, 3385, 3368, 3350,
    3333, 3315, 3298, 3280, 3262, 3244, 3226, 3208, 3189, 3171, 3152, 3133,
    3115, 3096, 3076, 3057, 3037, 3018, 2998, 2978, 2958, 2937, 2917, 2896,
    2875, 2853, 2832, 2810, 2788, 2766, 2743, 2720, 2697, 2673, 2650, 2625,
    2601, 2576, 2551, 2525, 2499, 2472, 2446, 2418, 2390, 2362, 2332, 2303,
    2273, 2242, 2210, 2178, 2145, 2111, 2076, 2040, 2003, 1966, 1927, 1887,
    1845, 1802, 1758, 1712, 1664, 1614, 1562, 1508, 1451, 1392, 1328, 1262,
    1191, 1115, 1034, 947, 852, 747, 632, 503, 356, 185, -20, -275,
    -616, -1130, -2233,
];

/// The number of the first `m` falloff levels that a distance `c` reaches.
pub open spec fn levels_within(c: int, m: int) -> int
    decreases m,
{
    if m <= 0 {
        0
    } else {
        levels_within(c, m - 1) + if c <= FALLOFF_LIMITS@[m - 1] { 1int } else { 0int }
    }
}

/// The glow intensity at distance `c`: the number of falloff levels reached.
pub open spec fn intensity(c: int) -> int {
    levels_within(c, 255)
}

/// The class of a cell at combined distance `c`.
pub open spec fn classify(c: int) -> CellType {
    if c <= PATH_CORE {
        CellType::OnPath
    } else {
        CellType::Glow(intensity(c) as u8)
    }
}

/// The smooth minimum `a(1 - h) + b h - k h (1 - h)` with
/// `h = clamp(1/2 + (a - b) / 2k, 0, 1)`, rounded down; `h` is `n / 2k` here.
pub open spec fn smooth_min_spec(a: int, b: int, k: int) -> int {
    let n = clamp(k + a - b, 0, 2 * k);
    (2 * k * (a * (2 * k - n) + b * n) - k * n * (2 * k - n)) / (4 * k * k)
}

/// `t` with `x` put before its first element that is not below `x`.
pub open spec fn insert_sorted(t: Seq<int>, x: int) -> Seq<int>
    decreases t.len(),
{
    if t.len() == 0 {
        seq![x]
    } else if x <= t[0] {
        seq![x] + t
    } else {
        seq![t[0]] + insert_sorted(t.drop_first(), x)
    }
}

/// The first two elements of `s`, or all of them when there are fewer.
pub open spec fn first_two(s: Seq<int>) -> Seq<int> {
    if s.len() <= 2 {
        s
    } else {
        s.take(2)
    }
}

/// The two smallest values of `ds` in ascending order (all of them when
/// there are fewer than two).
pub open spec fn nearest_two(ds: Seq<int>) -> Seq<int>
    decreases ds.len(),
{
    if ds.len() == 0 {
        seq![]
    } else {
        first_two(insert_sorted(nearest_two(ds.drop_last()), ds.last()))
    }
}

/// The combined distance of the nearest two distances, if there is any.
pub open spec fn blend(t: Seq<int>) -> Option<int> {
    if t.len() == 0 {
        None
    } else if t.len() == 1 {
        Some(t[0])
    } else {
        Some(smooth_min_spec(t[0], t[1], BLEND_WIDTH as int))
    }
}

fn floor_div(num: i128, den: i128) -> (r: i128)
    requires
        0 < den < 0x1_0000_0000_0000_0000_0000_0000_0000,
        -0x1_0000_0000_0000_0000_0000_0000_0000 < num < 0x1_0000_0000_0000_0000_0000_0000_0000,
    ensures
        r == num / den,
{
    if num >= 0 {
        let q = (num as u128) / (den as u128);
        proof {
            assert(num as u128 as int == num as int);
            assert(den as u128 as int == den as int);
            assert(q as int == num as int / den as int);
            assert(q <= num) by (nonlinear_arith)
                requires
                    q == (num as int) / (den as int),
                    num >= 0,
                    den >= 1,
            ;
        }
        q as i128
    } else {
        let m = (-num) as u128;
        let q = (m + den as u128 - 1) / (den as u128);
        proof {
            let x = (m + den - 1) as int;
            lemma_fundamental_div_mod(x, den as int);
            let rem = x % (den as int);
            assert(q == x / (den as int));
            assert(q <= x) by (nonlinear_arith)
                requires
                    q == x / (den as int),
                    x >= 0,
                    den >= 1,
            ;
            assert(num == (-q) * den + (den - 1 - rem)) by (nonlinear_arith)
                requires
                    x == den * q + rem,
                    x == -num + den - 1,
            ;
            lemma_fundamental_div_mod_converse(num as int, den as int, -q, den - 1 - rem);
        }
        -(q as i128)
    }
}

/// The smooth minimum is the same with its two arguments exchanged.
pub proof fn lemma_smooth_min_symmetric(a: int, b: int, k: int)
    requires
        0 < k,
    ensures
        smooth_min_spec(a, b, k) == smooth_min_spec(b, a, k),
{
    let n = clamp(k + a - b, 0, 2 * k);
    let m = clamp(k + b - a, 0, 2 * k);
    assert(m == 2 * k - n);
    assert(2 * k - m == n);
    assert(b * (2 * k - m) + a * m == a * (2 * k - n) + b * n);
    assert(k * m * (2 * k - m) == k * n * (2 * k - n)) by (nonlinear_arith)
        requires
            m == 2 * k - n,
    ;
}

proof fn lemma_smooth_min_ordered(a: int, b: int, k: int)
    requires
        0 < k,
        a <= b,
    ensures
        smooth_min_spec(a, b, k) <= a,
        4 * (a - smooth_min_spec(a, b, k)) <= k + 3,
        b - a >= k ==> smooth_min_spec(a, b, k) == a,
{
    let d = b - a;
    let n = clamp(k + a - b, 0, 2 * k);
    let den = 4 * k * k;
    let num = 2 * k * (a * (2 * k - n) + b * n) - k * n * (2 * k - n);
    assert(den > 0) by (nonlinear_arith)
        requires
            k > 0,
            den == 4 * k * k,
    ;
    if d >= k {
        assert(n == 0);
        assert(num == den * a) by (nonlinear_arith)
            requires
                n == 0,
                num == 2 * k * (a * (2 * k - n) + b * n) - k * n * (2 * k - n),
                den == 4 * k * k,
        ;
        lemma_fundamental_div_mod_converse(num, den, a, 0);
    } else {
        assert(n == k - d);
        assert(a * (2 * k - n) + b * n == 2 * a * k + d * n) by (nonlinear_arith)
            requires
                b == a + d,
        ;
        let m = k * n;
        assert(2 * k * (2 * a * k + d * n) == den * a + 2 * (d * m)) by (nonlinear_arith)
            requires
                den == 4 * k * k,
                m == k * n,
        ;
        assert(2 * k - n == k + d);
        assert(m * (k + d) == k * m + d * m) by (nonlinear_arith);
        assert(d * m - k * m == -(n * m)) by (nonlinear_arith)
            requires
                d - k == -n,
        ;
        assert(n * m == k * n * n) by (nonlinear_arith)
            requires
                m == k * n,
        ;
        assert(num == den * a - k * n * n);
        assert(0 < k * n * n <= k * k * k) by (nonlinear_arith)
            requires
                0 < n <= k,
        ;
        let r = num / den;
        lemma_fundamental_div_mod(num, den);
        let rem = num % den;
        assert(den * (a - r) == k * n * n + rem) by (nonlinear_arith)
            requires
                num == den * r + rem,
                num == den * a - k * n * n,
        ;
        assert(r <= a) by (nonlinear_arith)
            requires
                den * (a - r) == k * n * n + rem,
                den > 0,
                rem < den,
                k * n * n <= k * k * k,
                den == 4 * k * k,
                k > 0,
                0 < k * n * n,
                0 <= rem,
        ;
        assert(4 * (a - r) <= k + 3) by (nonlinear_arith)
            requires
                den * (a - r) == k * n * n + rem,
                rem < den,
                k * n * n <= k * k * k,
                den == 4 * k * k,
                k > 0,
        ;
    }
}

/// The smooth minimum never exceeds the minimum and stays within a quarter
/// of the blend width (plus rounding) below it; where the two arguments are
/// at least the blend width apart it is the minimum itself. As `k` shrinks
/// it therefore approaches `min(a, b)`.
pub proof fn lemma_smooth_min_near_min(a: int, b: int, k: int)
    requires
        0 < k,
    ensures
        smooth_min_spec(a, b, k) <= min_of(a, b),
        4 * (min_of(a, b) - smooth_min_spec(a, b, k)) <= k + 3,
        (a - b >= k || b - a >= k) ==> smooth_min_spec(a, b, k) == min_of(a, b),
{
    if a <= b {
        lemma_smooth_min_ordered(a, b, k);
    } else {
        lemma_smooth_min_ordered(b, a, k);
        lemma_smooth_min_symmetric(a, b, k);
    }
}

/// The smooth minimum of `a` and `b` with blend width `k`, rounded down.
pub fn smooth_min(a: i64, b: i64, k: i64) -> (r: i64)
    requires
        0 < k <= 0x10_0000,
        -0x4000_0000_0000_0000 <= a,
        -0x4000_0000_0000_0000 <= b,
    ensures
        r == smooth_min_spec(a as int, b as int, k as int),
{
    let a2 = a as i128;
    let b2 = b as i128;
    let k2 = k as i128;
    let t = k2 + a2 - b2;
    let n = if t < 0 {
        0
    } else if t > 2 * k2 {
        2 * k2
    } else {
        t
    };
    proof {
        lemma_abs_mul_le(a as int, 2 * k - n, 0x8000_0000_0000_0000, 0x20_0000);
        lemma_abs_mul_le(b as int, n as int, 0x8000_0000_0000_0000, 0x20_0000);
        lemma_abs_mul_le(2 * k, a * (2 * k - n) + b * n, 0x20_0000, 0x20_0000_0000_0000_0000_0000);
        lemma_abs_mul_le(k as int, n as int, 0x10_0000, 0x20_0000);
        lemma_abs_mul_le(k * n, 2 * k - n, 0x2_0000_0000_0000, 0x20_0000);
        lemma_abs_mul_le(4 * k, k as int, 0x40_0000, 0x10_0000);
        assert(4 * k * k > 0) by (nonlinear_arith)
            requires
                k > 0,
        ;
    }
    let num = 2 * k2 * (a2 * (2 * k2 - n) + b2 * n) - k2 * n * (2 * k2 - n);
    let r = floor_div(num, 4 * k2 * k2);
    proof {
        lemma_smooth_min_near_min(a as int, b as int, k as int);
    }
    r as i64
}

/// The glow intensity at distance `c`, in thousandths of a cell: how many
/// of the falloff levels it reaches.
pub fn glow_intensity(c: i64) -> (r: u8)
    ensures
        r == intensity(c as int),
{
    let mut count: u8 = 0;
    let mut i: usize = 0;
    while i < 255
        invariant
            i <= 255,
            count == levels_within(c as int, i as int),
            count <= i,
        decreases 255 - i,
    {
        if c <= FALLOFF_LIMITS[i] {
            count = count + 1;
        }
        i = i + 1;
    }
    count
}

/// The class of a cell whose combined distance is `c`.
pub fn classify_distance(c: i64) -> (r: CellType)
    ensures
        r == classify(c as int),
{
    if c <= PATH_CORE {
        CellType::OnPath
    } else {
        CellType::Glow(glow_intensity(c))
    }
}

proof fn lemma_levels_monotone(c1: int, c2: int, m: int)
    requires
        c1 <= c2,
    ensures
        levels_within(c2, m) <= levels_within(c1, m),
    decreases m,
{
    if m > 0 {
        lemma_levels_monotone(c1, c2, m - 1);
    }
}

proof fn lemma_levels_none(c: int, m: int)
    requires
        m <= 255,
        c > FALLOFF_LIMITS@[0],
    ensures
        levels_within(c, m) == 0,
    decreases m,
{
    if m > 0 {
        lemma_levels_none(c, m - 1);
        assert(FALLOFF_LIMITS@[m - 1] <= FALLOFF_LIMITS@[0]);
    }
}

/// Beyond the path core a cell glows, the glow fades as the distance grows,
/// and it is zero beyond the first falloff limit.
pub proof fn lemma_glow_fades(c1: int, c2: int)
    requires
        c1 <= c2,
    ensures
        c2 > PATH_CORE ==> classify(c2) is Glow,
        intensity(c2) <= intensity(c1),
        c2 > FALLOFF_LIMITS@[0] ==> classify(c2) == CellType::Glow(0),
{
    lemma_levels_monotone(c1, c2, 255);
    if c2 > FALLOFF_LIMITS@[0] {
        lemma_levels_none(c2, 255);
    }
}

/// A flattened grid of cells, row after row.
#[derive(Clone, Debug)]
pub struct CellTypeMap {
    pub map: Vec<CellType>,
}

/// The values of `v` as mathematical integers.
pub open spec fn ints(v: Seq<i64>) -> Seq<int> {
    v.map_values(|x: i64| x as int)
}

/// The waypoint lists of `paths`.
pub open spec fn path_views(paths: Seq<Path>) -> Seq<Seq<Coord>> {
    paths.map_values(|p: Path| p.nodes@)
}

/// The distances from `q` to each segment between consecutive waypoints.
pub open spec fn waypoint_distances(w: Seq<Coord>, q: Coord) -> Seq<int> {
    if w.len() < 2 {
        seq![]
    } else {
        Seq::new((w.len() - 1) as nat, |j: int| segment_distance(w[j], w[j + 1], q))
    }
}

/// The distances from `q` to every segment of every path, path by path.
pub open spec fn field_distances(paths: Seq<Seq<Coord>>, q: Coord) -> Seq<int>
    decreases paths.len(),
{
    if paths.len() == 0 {
        seq![]
    } else {
        field_distances(paths.drop_last(), q) + waypoint_distances(paths.last(), q)
    }
}

/// The cell (column, row) at `index` of a grid `width` cells wide.
pub open spec fn cell_of(index: int, width: int) -> Coord {
    ((index % width) as u16, (index / width) as u16)
}

/// A cell after rendering: node markers stay; any other cell takes the class
/// of its combined distance, and stays as it was where there is no segment.
pub open spec fn rendered_cell(paths: Seq<Seq<Coord>>, width: int, index: int, cell: CellType) -> CellType {
    if cell == CellType::NodeMarker {
        cell
    } else {
        match blend(first_two(field_distances(paths, cell_of(index, width)).sort())) {
            None => cell,
            Some(c) => classify(c),
        }
    }
}

/// The whole grid after rendering.
pub open spec fn rendered(paths: Seq<Seq<Coord>>, width: int, cells: Seq<CellType>) -> Seq<CellType> {
    Seq::new(cells.len(), |i: int| rendered_cell(paths, width, i, cells[i]))
}

fn insert_nearest(kept: &mut Vec<i64>, d: i64)
    requires
        old(kept).len() <= 2,
        0 <= d,
        forall|i: int| 0 <= i < old(kept).len() ==> 0 <= #[trigger] old(kept)@[i],
    ensures
        ints(final(kept)@) == first_two(insert_sorted(ints(old(kept)@), d as int)),
        final(kept).len() <= 2,
        forall|i: int| 0 <= i < final(kept).len() ==> 0 <= #[trigger] final(kept)@[i],
{
    proof {
        reveal_with_fuel(insert_sorted, 3);
    }
    let ghost before = ints(kept@);
    let ghost old_v = kept@;
    if kept.len() == 0 {
        kept.push(d);
    } else if d <= kept[0] {
        let first = kept[0];
        if kept.len() == 1 {
            kept.push(first);
        } else {
            kept.set(1, first);
        }
        kept.set(0, d);
    } else if kept.len() == 1 {
        kept.push(d);
    } else if d <= kept[1] {
        kept.set(1, d);
    }
    proof {
        let t = before;
        let x = d as int;
        let r = first_two(insert_sorted(t, x));
        assert(t.len() == old_v.len());
        assert(forall|i: int| 0 <= i < old_v.len() ==> t[i] == old_v[i] as int);
        if t.len() == 0 {
            assert(kept@ =~= seq![d]);
            assert(r =~= seq![x]);
        } else if x <= t[0] {
            assert(insert_sorted(t, x) == seq![x] + t);
            assert(kept@ =~= seq![d, old_v[0]]);
            assert(r =~= seq![x, t[0]]);
        } else {
            let u = t.drop_first();
            assert(insert_sorted(t, x) == seq![t[0]] + insert_sorted(u, x));
            if t.len() == 1 {
                assert(u =~= Seq::<int>::empty());
                assert(kept@ =~= seq![old_v[0], d]);
                assert(r =~= seq![t[0], x]);
            } else {
                assert(u =~= seq![t[1]]);
                if x <= t[1] {
                    assert(insert_sorted(u, x) == seq![x] + u);
                    assert(kept@ =~= seq![old_v[0], d]);
                    assert(r =~= seq![t[0], x]);
                } else {
                    assert(u.drop_first() =~= Seq::<int>::empty());
                    assert(insert_sorted(u, x) == seq![t[1]] + insert_sorted(u.drop_first(), x));
                    assert(kept@ =~= old_v);
                    assert(r =~= seq![t[0], t[1]]);
                }
            }
        }
        assert(ints(kept@) =~= r);
    }
}

/// The nearest two distances from `q` to the segments of `paths`: the first
/// two of all of them sorted in ascending order.
fn nearest_distances(paths: &[Path], q: Coord) -> (kept: Vec<i64>)
    ensures
        ints(kept@) == first_two(field_distances(path_views(paths@), q).sort()),
        kept.len() <= 2,
        forall|i: int| 0 <= i < kept.len() ==> 0 <= #[trigger] kept@[i],
{
    let ghost views = path_views(paths@);
    let mut kept: Vec<i64> = Vec::new();
    let ghost mut ds: Seq<int> = seq![];
    let mut pi: usize = 0;
    while pi < paths.len()
        invariant
            views == path_views(paths@),
            pi <= paths.len(),
            ds == field_distances(views.take(pi as int), q),
            ints(kept@) == nearest_two(ds),
            kept.len() <= 2,
            forall|i: int| 0 <= i < kept.len() ==> 0 <= #[trigger] kept@[i],
        decreases paths.len() - pi,
    {
        let w = &paths[pi].nodes;
        let ghost base = ds;
        let mut j: usize = 0;
        while j + 1 < w.len()
            invariant
                views == path_views(paths@),
                pi < paths.len(),
                w@ == views[pi as int],
                j == 0 || j < w.len(),
                ds == base + waypoint_distances(w@, q).take(j as int),
                ints(kept@) == nearest_two(ds),
                kept.len() <= 2,
                forall|i: int| 0 <= i < kept.len() ==> 0 <= #[trigger] kept@[i],
            decreases w.len() - j,
        {
            let p1 = w[j];
            let p2 = w[j + 1];
            let line = find_line_equation(p1, p2);
            let cp = find_closest_point_on_line_segment(p1, p2, line, q);
            let d = dist(cp, q);
            insert_nearest(&mut kept, d);
            proof {
                let next = ds.push(d as int);
                assert(next.drop_last() =~= ds);
                assert(waypoint_distances(w@, q).take(j + 1) =~= waypoint_distances(w@, q).take(j as int).push(d as int));
                ds = next;
            }
            j = j + 1;
        }
        proof {
            assert(views.take(pi + 1).drop_last() =~= views.take(pi as int));
            assert(waypoint_distances(w@, q).take(j as int) =~= waypoint_distances(w@, q));
        }
        pi = pi + 1;
    }
    proof {
        assert(views.take(paths.len() as int) =~= views);
        lemma_nearest_two_is_sorted_prefix(ds);
    }
    kept
}

impl CellTypeMap {
    pub fn new(vec: Vec<CellType>) -> (r: CellTypeMap)
        ensures
            r.map@ == vec@,
    {
        CellTypeMap { map: vec }
    }

    /// Recomputes every cell but the node markers from `paths`, on a grid of
    /// `size.0` columns and `size.1` rows.
    pub fn render_path_cells(&mut self, paths: &[Path], size: (u16, u16))
        requires
            old(self).map.len() == size.0 as int * size.1 as int,
        ensures
            final(self).map@ == rendered(path_views(paths@), size.0 as int, old(self).map@),
    {
        let width = size.0 as usize;
        let n = self.map.len();
        let mut i: usize = 0;
        while i < n
            invariant
                n == self.map.len(),
                n == old(self).map.len(),
                n == size.0 as int * size.1 as int,
                width == size.0,
                i <= n,
                forall|k: int| 0 <= k < i ==> self.map@[k] == rendered_cell(path_views(paths@), width as int, k, #[trigger] old(self).map@[k]),
                forall|k: int| i <= k < n ==> self.map@[k] == old(self).map@[k],
            decreases n - i,
        {
            let cell = self.map[i];
            if cell != CellType::NodeMarker {
                proof {
                    assert(width > 0) by (nonlinear_arith)
                        requires
                            i < n,
                            n == width * size.1,
                    ;
                }
                let q: Coord = ((i % width) as u16, (i / width) as u16);
                let kept = nearest_distances(paths, q);
                if kept.len() == 1 {
                    self.map.set(i, classify_distance(kept[0]));
                } else if kept.len() == 2 {
                    let c = smooth_min(kept[0], kept[1], BLEND_WIDTH);
                    self.map.set(i, classify_distance(c));
                }
            }
            i = i + 1;
        }
        proof {
            assert(self.map@ =~= rendered(path_views(paths@), size.0 as int, old(self).map@));
        }
    }
}

/// `t` is in ascending order.
pub open spec fn ascending(t: Seq<int>) -> bool {
    forall|i: int, j: int| 0 <= i < j < t.len() ==> t[i] <= t[j]
}

proof fn lemma_insert_sorted(t: Seq<int>, x: int)
    requires
        ascending(t),
    ensures
        ascending(insert_sorted(t, x)),
        insert_sorted(t, x).to_multiset() == t.to_multiset().insert(x),
        insert_sorted(t, x).len() == t.len() + 1,
        forall|i: int| 0 <= i < insert_sorted(t, x).len() ==> #[trigger] insert_sorted(t, x)[i] == x || t.contains(insert_sorted(t, x)[i]),
    decreases t.len(),
{
    broadcast use vstd::seq_lib::group_to_multiset_ensures;
    broadcast use vstd::seq_lib::lemma_multiset_commutative;
    assert(seq![x] =~= Seq::<int>::empty().push(x));
    if t.len() == 0 {
    } else if x <= t[0] {
        let u = seq![x] + t;
        assert forall|i: int| 0 <= i < u.len() implies #[trigger] u[i] == x || t.contains(u[i]) by {
            if i > 0 {
                assert(u[i] == t[i - 1]);
            }
        }
    } else {
        let rest = t.drop_first();
        lemma_insert_sorted(rest, x);
        let v = insert_sorted(rest, x);
        let u = seq![t[0]] + v;
        assert(t =~= seq![t[0]] + rest);
        assert(seq![t[0]] =~= Seq::<int>::empty().push(t[0]));
        assert forall|i: int| 0 <= i < u.len() implies #[trigger] u[i] == x || t.contains(u[i]) by {
            if i > 0 {
                assert(u[i] == v[i - 1]);
                if u[i] != x {
                    let k = choose|k: int| 0 <= k < rest.len() && rest[k] == u[i];
                    assert(t[k + 1] == u[i]);
                }
            }
        }
        assert forall|i: int, j: int| 0 <= i < j < u.len() implies u[i] <= u[j] by {
            if i == 0 {
                assert(u[j] == v[j - 1]);
                if v[j - 1] != x {
                    let k = choose|k: int| 0 <= k < rest.len() && rest[k] == v[j - 1];
                    assert(t[k + 1] == v[j - 1]);
                }
            } else {
                assert(u[i] == v[i - 1] && u[j] == v[j - 1]);
            }
        }
    }
}

proof fn lemma_first_two_insert(t: Seq<int>, x: int)
    ensures
        first_two(insert_sorted(t, x)) == first_two(insert_sorted(first_two(t), x)),
{
    reveal_with_fuel(insert_sorted, 3);
    if t.len() > 2 {
        let f = t.take(2);
        assert(f[0] == t[0]);
        if x > t[0] {
            assert(f.drop_first() =~= seq![t[1]]);
            let rest = t.drop_first();
            assert(rest[0] == t[1]);
            if x > t[1] {
                assert(insert_sorted(rest, x) == seq![t[1]] + insert_sorted(rest.drop_first(), x));
                assert(first_two(insert_sorted(t, x)) =~= seq![t[0], t[1]]);
                assert(first_two(insert_sorted(f, x)) =~= seq![t[0], t[1]]);
            } else {
                assert(first_two(insert_sorted(t, x)) =~= seq![t[0], x]);
                assert(first_two(insert_sorted(f, x)) =~= seq![t[0], x]);
            }
        } else {
            assert(first_two(insert_sorted(t, x)) =~= seq![x, t[0]]);
            assert(first_two(insert_sorted(f, x)) =~= seq![x, t[0]]);
        }
    }
}

proof fn lemma_sort_is_ascending(s: Seq<int>)
    ensures
        ascending(s.sort()),
        s.sort().to_multiset() == s.to_multiset(),
{
    s.lemma_sort_ensures();
    assert forall|i: int, j: int| 0 <= i < j < s.sort().len() implies s.sort()[i] <= s.sort()[j] by {
        assert((|a: int, b: int| a <= b)(s.sort()[i], s.sort()[j]));
    }
}

proof fn lemma_ascending_is_sort(s: Seq<int>, t: Seq<int>)
    requires
        ascending(t),
        t.to_multiset() == s.to_multiset(),
    ensures
        t == s.sort(),
{
    let leq = |a: int, b: int| a <= b;
    s.lemma_sort_ensures();
    assert(sorted_by(t, leq)) by {
        assert forall|i: int, j: int| 0 <= i < j < t.len() implies #[trigger] leq(t[i], t[j]) by {}
    }
    assert(total_ordering(leq));
    vstd::seq_lib::lemma_sorted_unique(t, s.sort(), leq);
}

/// The nearest two distances are the first two of all distances sorted in
/// ascending order.
pub proof fn lemma_nearest_two_is_sorted_prefix(ds: Seq<int>)
    ensures
        nearest_two(ds) == first_two(ds.sort()),
    decreases ds.len(),
{
    broadcast use vstd::seq_lib::group_to_multiset_ensures;
    if ds.len() == 0 {
        lemma_sort_is_ascending(ds);
        assert(ds.sort().to_multiset().len() == 0);
        assert(ds.sort() =~= Seq::<int>::empty());
    } else {
        let prev = ds.drop_last();
        let x = ds.last();
        lemma_nearest_two_is_sorted_prefix(prev);
        lemma_sort_is_ascending(prev);
        lemma_insert_sorted(prev.sort(), x);
        assert(ds =~= prev.push(x));
        lemma_ascending_is_sort(ds, insert_sorted(prev.sort(), x));
        lemma_first_two_insert(prev.sort(), x);
    }
}

} // verus!
