//! Streaming Cache: decides, once per rate-limited tick, which grid cells
//! to request from the asynchronous loader, which completed loads become
//! renderable instances, and which loaded cells to evict.
//!
//! Per grid coordinate the cache keeps one of three states: *Loading* (a
//! request is in flight), *Loaded* (an instance exists, owned by the scene
//! layer and tagged with the coordinate), or *Failed* (the load failed; the
//! coordinate is suppressed for the rest of the run). The caller polls the
//! loader between ticks and hands the per-request statuses in; the tick
//! itself never blocks.

use vstd::prelude::*;

verus! {

/// Integer cell coordinate of a patch in the fixed-size world grid.
#[derive(Clone, Copy, PartialEq, Eq, Structural, Debug, Hash)]
pub struct GridCoord {
    pub x: i32,
    pub z: i32,
}

/// Completion state of one in-flight load request, as the caller observed
/// it by polling the external loader.
#[derive(Clone, Copy, PartialEq, Eq, Structural, Debug)]
pub enum PollStatus {
    /// The loader has not finished with the request.
    Pending,
    /// The patch is available; an instance can be created.
    Ready,
    /// The load failed; the coordinate is suppressed from retry.
    Failed,
}

/// Squared planar distance between two grid coordinates.
pub open spec fn dist_sq(a: GridCoord, b: GridCoord) -> int {
    let dx = a.x - b.x;
    let dz = a.z - b.z;
    dx * dx + dz * dz
}

/// Whether cell `c` is inside the render radius `r` around `viewer`: its
/// offset `(dx, dz)` lies in `[-r, r)` on both axes with `dx*dx + dz*dz`
/// strictly below `r*r`.
pub open spec fn spec_desired(viewer: GridCoord, r: int, c: GridCoord) -> bool {
    let dx = c.x - viewer.x;
    let dz = c.z - viewer.z;
    &&& -r <= dx < r
    &&& -r <= dz < r
    &&& dx * dx + dz * dz < r * r
}

/// All cells the viewer's position makes desirable.
pub open spec fn desired_set(viewer: GridCoord, r: int) -> Set<GridCoord> {
    Set::new(|c: GridCoord| spec_desired(viewer, r, c))
}

/// The in-flight coordinates whose status equals `which`, in list order.
pub open spec fn resolved(l: Seq<GridCoord>, s: Seq<PollStatus>, which: PollStatus) -> Seq<
    GridCoord,
>
    decreases l.len(),
{
    if l.len() == 0 {
        Seq::empty()
    } else {
        resolved(l.drop_last(), s.drop_last(), which) + (if s[l.len() - 1] == which {
            seq![l[l.len() - 1]]
        } else {
            Seq::empty()
        })
    }
}

/// The loaded coordinates outside the eviction threshold, in list order.
pub open spec fn far_coords(d: Seq<GridCoord>, viewer: GridCoord, bound: int) -> Seq<GridCoord>
    decreases d.len(),
{
    if d.len() == 0 {
        Seq::empty()
    } else {
        far_coords(d.drop_last(), viewer, bound) + (if dist_sq(d.last(), viewer) > bound {
            seq![d.last()]
        } else {
            Seq::empty()
        })
    }
}

/// A coordinate is selected exactly when it sits in the in-flight list at
/// an index whose status is `which`.
pub proof fn lemma_resolved_contains(
    l: Seq<GridCoord>,
    s: Seq<PollStatus>,
    which: PollStatus,
    c: GridCoord,
)
    requires
        s.len() == l.len(),
    ensures
        resolved(l, s, which).contains(c) <==> (exists|i: int|
            0 <= i < l.len() && l[i] == c && s[i] == which),
    decreases l.len(),
{
    if l.len() > 0 {
        let n = l.len() - 1;
        lemma_resolved_contains(l.drop_last(), s.drop_last(), which, c);
        if resolved(l, s, which).contains(c) {
            if resolved(l.drop_last(), s.drop_last(), which).contains(c) {
                let i = choose|i: int|
                    0 <= i < n && l.drop_last()[i] == c && s.drop_last()[i] == which;
                assert(l[i] == c && s[i] == which);
            } else {
                assert(l[n] == c && s[n] == which);
            }
        }
        if exists|i: int| 0 <= i < l.len() && l[i] == c && s[i] == which {
            let i = choose|i: int| 0 <= i < l.len() && l[i] == c && s[i] == which;
            if i < n {
                assert(l.drop_last()[i] == c && s.drop_last()[i] == which);
                let r = resolved(l.drop_last(), s.drop_last(), which);
                assert(r.contains(c));
                let j = choose|j: int| 0 <= j < r.len() && r[j] == c;
                assert(resolved(l, s, which)[j] == c);
            } else {
                let r = resolved(l, s, which);
                assert(r[r.len() - 1] == c);
            }
        }
    }
}

/// Selection keeps a duplicate-free list duplicate-free.
pub proof fn lemma_resolved_no_dup(l: Seq<GridCoord>, s: Seq<PollStatus>, which: PollStatus)
    requires
        s.len() == l.len(),
        l.no_duplicates(),
    ensures
        resolved(l, s, which).no_duplicates(),
        forall|c: GridCoord| resolved(l, s, which).contains(c) ==> l.contains(c),
    decreases l.len(),
{
    if l.len() > 0 {
        let n = l.len() - 1;
        assert(l.drop_last().no_duplicates());
        lemma_resolved_no_dup(l.drop_last(), s.drop_last(), which);
        assert forall|c: GridCoord| resolved(l, s, which).contains(c) implies l.contains(c) by {
            lemma_resolved_contains(l, s, which, c);
            let i = choose|i: int| 0 <= i < l.len() && l[i] == c && s[i] == which;
            assert(l[i] == c);
        }
        let prefix = resolved(l.drop_last(), s.drop_last(), which);
        if s[n] == which {
            assert(!prefix.contains(l[n])) by {
                if prefix.contains(l[n]) {
                    let j = choose|j: int| 0 <= j < prefix.len() && prefix[j] == l[n];
                    lemma_resolved_contains(l.drop_last(), s.drop_last(), which, l[n]);
                    let i = choose|i: int|
                        0 <= i < n && l.drop_last()[i] == l[n] && s.drop_last()[i] == which;
                    assert(l[i] == l[n] && i != n);
                }
            }
            assert(resolved(l, s, which) == prefix.push(l[n]));
            assert forall|i: int, j: int|
                0 <= i < j < resolved(l, s, which).len() implies resolved(l, s, which)[i]
                != resolved(l, s, which)[j] by {
                if j < prefix.len() {
                } else {
                    assert(resolved(l, s, which)[j] == l[n]);
                    assert(resolved(l, s, which)[i] == prefix[i]);
                    assert(prefix.contains(prefix[i]));
                }
            }
        } else {
            assert(resolved(l, s, which) =~= prefix);
        }
    }
}

/// Two different statuses never select the same coordinate from a
/// duplicate-free in-flight list.
pub proof fn lemma_resolved_disjoint(
    l: Seq<GridCoord>,
    s: Seq<PollStatus>,
    w1: PollStatus,
    w2: PollStatus,
    c: GridCoord,
)
    requires
        s.len() == l.len(),
        l.no_duplicates(),
        w1 != w2,
    ensures
        !(resolved(l, s, w1).contains(c) && resolved(l, s, w2).contains(c)),
{
    if resolved(l, s, w1).contains(c) && resolved(l, s, w2).contains(c) {
        lemma_resolved_contains(l, s, w1, c);
        lemma_resolved_contains(l, s, w2, c);
        let i = choose|i: int| 0 <= i < l.len() && l[i] == c && s[i] == w1;
        let j = choose|j: int| 0 <= j < l.len() && l[j] == c && s[j] == w2;
        assert(i == j);
    }
}

/// A coordinate is evicted exactly when it is loaded and its squared
/// distance from the viewer exceeds the threshold.
pub proof fn lemma_far_coords_contains(
    d: Seq<GridCoord>,
    viewer: GridCoord,
    bound: int,
    c: GridCoord,
)
    ensures
        far_coords(d, viewer, bound).contains(c) <==> (d.contains(c) && dist_sq(c, viewer)
            > bound),
    decreases d.len(),
{
    if d.len() > 0 {
        let n = d.len() - 1;
        lemma_far_coords_contains(d.drop_last(), viewer, bound, c);
        if far_coords(d, viewer, bound).contains(c) {
            if far_coords(d.drop_last(), viewer, bound).contains(c) {
                let i = choose|i: int| 0 <= i < n && d.drop_last()[i] == c;
                assert(d[i] == c);
            } else {
                assert(d[n] == c);
            }
        }
        if d.contains(c) && dist_sq(c, viewer) > bound {
            let i = choose|i: int| 0 <= i < d.len() && d[i] == c;
            if i < n {
                assert(d.drop_last()[i] == c);
                let r = far_coords(d.drop_last(), viewer, bound);
                let j = choose|j: int| 0 <= j < r.len() && r[j] == c;
                assert(far_coords(d, viewer, bound)[j] == c);
            } else {
                let r = far_coords(d, viewer, bound);
                assert(r[r.len() - 1] == c);
            }
        }
    }
}

/// Enumerates every cell within render radius `r` of `viewer`, row-major
/// over the offset square (outer axis `x`, inner axis `z`), each exactly
/// once.
pub fn desired_coords(viewer: GridCoord, r: usize) -> (out: Vec<GridCoord>)
    requires
        viewer.x - r >= i32::MIN,
        viewer.x + r <= i32::MAX,
        viewer.z - r >= i32::MIN,
        viewer.z + r <= i32::MAX,
    ensures
        out@.no_duplicates(),
        forall|c: GridCoord| out@.contains(c) <==> spec_desired(viewer, r as int, c),
{
    let ri: i128 = r as i128;
    let vx: i128 = viewer.x as i128;
    let vz: i128 = viewer.z as i128;
    let mut out: Vec<GridCoord> = Vec::new();
    let mut dx: i128 = -ri;
    while dx < ri
        invariant
            ri == r as int,
            vx == viewer.x as int,
            vz == viewer.z as int,
            viewer.x - r >= i32::MIN,
            viewer.x + r <= i32::MAX,
            viewer.z - r >= i32::MIN,
            viewer.z + r <= i32::MAX,
            -ri <= dx <= ri,
            out@.no_duplicates(),
            forall|c: GridCoord|
                out@.contains(c) <==> (spec_desired(viewer, r as int, c) && c.x - viewer.x < dx),
        decreases ri - dx,
    {
        let mut dz: i128 = -ri;
        while dz < ri
            invariant
                ri == r as int,
                vx == viewer.x as int,
                vz == viewer.z as int,
                viewer.x - r >= i32::MIN,
                viewer.x + r <= i32::MAX,
                viewer.z - r >= i32::MIN,
                viewer.z + r <= i32::MAX,
                -ri <= dx < ri,
                -ri <= dz <= ri,
                out@.no_duplicates(),
                forall|c: GridCoord|
                    out@.contains(c) <==> (spec_desired(viewer, r as int, c) && (c.x - viewer.x
                        < dx || (c.x - viewer.x == dx && c.z - viewer.z < dz))),
            decreases ri - dz,
        {
            proof {
                assert(ri <= 0x1_0000_0000);
                assert(0 <= dx * dx <= 0x1_0000_0000_0000_0000 && 0 <= dz * dz
                    <= 0x1_0000_0000_0000_0000 && 0 <= ri * ri <= 0x1_0000_0000_0000_0000)
                    by (nonlinear_arith)
                    requires
                        -0x1_0000_0000 <= dx <= 0x1_0000_0000,
                        -0x1_0000_0000 <= dz <= 0x1_0000_0000,
                        0 <= ri <= 0x1_0000_0000,
                ;
            }
            if dx * dx + dz * dz < ri * ri {
                let cc = GridCoord { x: (vx + dx) as i32, z: (vz + dz) as i32 };
                assert(cc.x == viewer.x + dx && cc.z == viewer.z + dz);
                assert(spec_desired(viewer, r as int, cc));
                assert(!out@.contains(cc));
                let ghost prev = out@;
                out.push(cc);
                proof {
                    assert forall|i: int, j: int|
                        0 <= i < j < out@.len() implies out@[i] != out@[j] by {
                        if j < prev.len() {
                        } else {
                            assert(out@[j] == cc);
                            assert(out@[i] == prev[i]);
                            assert(prev.contains(prev[i]));
                        }
                    }
                    assert forall|c: GridCoord|
                        out@.contains(c) <==> (spec_desired(viewer, r as int, c) && (c.x - viewer.x
                            < dx || (c.x - viewer.x == dx && c.z - viewer.z < dz + 1))) by {
                        if out@.contains(c) {
                            let i = choose|i: int| 0 <= i < out@.len() && out@[i] == c;
                            if i < prev.len() {
                                assert(prev[i] == c);
                                assert(prev.contains(c));
                            } else {
                                assert(c == cc);
                            }
                        }
                        if spec_desired(viewer, r as int, c) && (c.x - viewer.x < dx || (c.x
                            - viewer.x == dx && c.z - viewer.z < dz + 1)) {
                            if c.x - viewer.x < dx || (c.x - viewer.x == dx && c.z - viewer.z
                                < dz) {
                                assert(prev.contains(c));
                                let i = choose|i: int| 0 <= i < prev.len() && prev[i] == c;
                                assert(out@[i] == c);
                            } else {
                                assert(c.x == cc.x && c.z == cc.z);
                                assert(out@[out@.len() - 1] == c);
                            }
                        }
                    }
                }
            }
            dz = dz + 1;
        }
        dx = dx + 1;
    }
    out
}

/// The desired cells not yet known to any bookkeeping list, in enumeration
/// order: these are the cells one tick newly requests.
pub open spec fn missing_of(
    d: Seq<GridCoord>,
    loaded: Seq<GridCoord>,
    ready: Seq<GridCoord>,
    pend: Seq<GridCoord>,
    fail: Seq<GridCoord>,
) -> Seq<GridCoord>
    decreases d.len(),
{
    if d.len() == 0 {
        Seq::empty()
    } else {
        missing_of(d.drop_last(), loaded, ready, pend, fail) + (if !loaded.contains(d.last())
            && !ready.contains(d.last()) && !pend.contains(d.last()) && !fail.contains(d.last()) {
            seq![d.last()]
        } else {
            Seq::empty()
        })
    }
}

/// A cell is requested exactly when it is desired and in none of the
/// loaded, freshly created, still pending, or failed lists.
pub proof fn lemma_missing_contains(
    d: Seq<GridCoord>,
    loaded: Seq<GridCoord>,
    ready: Seq<GridCoord>,
    pend: Seq<GridCoord>,
    fail: Seq<GridCoord>,
    c: GridCoord,
)
    ensures
        missing_of(d, loaded, ready, pend, fail).contains(c) <==> (d.contains(c)
            && !loaded.contains(c) && !ready.contains(c) && !pend.contains(c) && !fail.contains(
            c,
        )),
    decreases d.len(),
{
    if d.len() > 0 {
        let n = d.len() - 1;
        lemma_missing_contains(d.drop_last(), loaded, ready, pend, fail, c);
        if missing_of(d, loaded, ready, pend, fail).contains(c) {
            if missing_of(d.drop_last(), loaded, ready, pend, fail).contains(c) {
                let i = choose|i: int| 0 <= i < n && d.drop_last()[i] == c;
                assert(d[i] == c);
            } else {
                assert(d[n] == c);
            }
        }
        if d.contains(c) && !loaded.contains(c) && !ready.contains(c) && !pend.contains(c)
            && !fail.contains(c) {
            let i = choose|i: int| 0 <= i < d.len() && d[i] == c;
            if i < n {
                assert(d.drop_last()[i] == c);
                let r = missing_of(d.drop_last(), loaded, ready, pend, fail);
                let j = choose|j: int| 0 <= j < r.len() && r[j] == c;
                assert(missing_of(d, loaded, ready, pend, fail)[j] == c);
            } else {
                let r = missing_of(d, loaded, ready, pend, fail);
                assert(r[r.len() - 1] == c);
            }
        }
    }
}

/// Requesting from a duplicate-free enumeration requests each cell once.
pub proof fn lemma_missing_no_dup(
    d: Seq<GridCoord>,
    loaded: Seq<GridCoord>,
    ready: Seq<GridCoord>,
    pend: Seq<GridCoord>,
    fail: Seq<GridCoord>,
)
    requires
        d.no_duplicates(),
    ensures
        missing_of(d, loaded, ready, pend, fail).no_duplicates(),
    decreases d.len(),
{
    if d.len() > 0 {
        let n = d.len() - 1;
        assert(d.drop_last().no_duplicates());
        lemma_missing_no_dup(d.drop_last(), loaded, ready, pend, fail);
        let prefix = missing_of(d.drop_last(), loaded, ready, pend, fail);
        let whole = missing_of(d, loaded, ready, pend, fail);
        if !loaded.contains(d[n]) && !ready.contains(d[n]) && !pend.contains(d[n])
            && !fail.contains(d[n]) {
            assert(!prefix.contains(d[n])) by {
                if prefix.contains(d[n]) {
                    lemma_missing_contains(d.drop_last(), loaded, ready, pend, fail, d[n]);
                    let i = choose|i: int| 0 <= i < n && d.drop_last()[i] == d[n];
                    assert(d[i] == d[n] && i != n);
                }
            }
            assert(whole == prefix.push(d[n]));
            assert forall|i: int, j: int| 0 <= i < j < whole.len() implies whole[i] != whole[j] by {
                if j < prefix.len() {
                } else {
                    assert(whole[j] == d[n]);
                    assert(whole[i] == prefix[i]);
                    assert(prefix.contains(prefix[i]));
                }
            }
        } else {
            assert(whole =~= prefix);
        }
    }
}

/// The request characterization of one tick: a cell is newly requested
/// exactly when it is desired and neither loaded, freshly created, still
/// pending, nor failed.
pub open spec fn requested_exactly(
    old_loading: Seq<GridCoord>,
    statuses: Seq<PollStatus>,
    loaded: Seq<GridCoord>,
    viewer: GridCoord,
    rd: int,
    failed_after: Seq<GridCoord>,
    created: Seq<GridCoord>,
    requested: Seq<GridCoord>,
) -> bool {
    forall|c: GridCoord|
        #![trigger requested.contains(c)]
        requested.contains(c) <==> {
            &&& spec_desired(viewer, rd, c)
            &&& !loaded.contains(c)
            &&& !created.contains(c)
            &&& !resolved(old_loading, statuses, PollStatus::Pending).contains(c)
            &&& !failed_after.contains(c)
        }
}

/// Concatenation of two duplicate-free, disjoint lists is duplicate-free.
pub proof fn lemma_no_dup_concat(a: Seq<GridCoord>, b: Seq<GridCoord>)
    requires
        a.no_duplicates(),
        b.no_duplicates(),
        forall|c: GridCoord| !(a.contains(c) && b.contains(c)),
    ensures
        (a + b).no_duplicates(),
{
    assert forall|i: int, j: int| 0 <= i < j < (a + b).len() implies (a + b)[i] != (a + b)[j] by {
        if i < a.len() && j >= a.len() {
            assert((a + b)[i] == a[i] && (a + b)[j] == b[j - a.len()]);
            assert(a.contains(a[i]));
            assert(b.contains(b[j - a.len()]));
        }
    }
}

/// The eviction threshold: squared render radius plus a small hysteresis
/// margin, so cells at the boundary do not thrash between load and unload.
pub open spec fn evict_threshold(rd: int) -> int {
    rd * rd + 3
}

/// Law: the hysteresis boundary. A loaded cell at squared distance exactly
/// `rd*rd + 3` from the viewer is retained; from `rd*rd + 4` on it is
/// evicted.
pub proof fn lemma_eviction_hysteresis(
    loaded: Seq<GridCoord>,
    viewer: GridCoord,
    rd: int,
    c: GridCoord,
)
    requires
        loaded.contains(c),
    ensures
        dist_sq(c, viewer) <= rd * rd + 3 ==> !far_coords(
            loaded,
            viewer,
            evict_threshold(rd),
        ).contains(c),
        dist_sq(c, viewer) >= rd * rd + 4 ==> far_coords(
            loaded,
            viewer,
            evict_threshold(rd),
        ).contains(c),
{
    lemma_far_coords_contains(loaded, viewer, evict_threshold(rd), c);
}

/// Law: a tick from a fresh cache requests exactly the desired set. With
/// nothing loaded, in flight, or failed, the number of cells that enter
/// Loading equals the number of offsets `(dx, dz)` with both axes in
/// `[-r, r)` and `dx*dx + dz*dz < r*r`, which is the size of
/// [`desired_set`].
pub proof fn lemma_initial_tick_requests(requested: Seq<GridCoord>, viewer: GridCoord, rd: int)
    requires
        requested.no_duplicates(),
        requested_exactly(
            Seq::<GridCoord>::empty(),
            Seq::<PollStatus>::empty(),
            Seq::<GridCoord>::empty(),
            viewer,
            rd,
            Seq::<GridCoord>::empty(),
            Seq::<GridCoord>::empty(),
            requested,
        ),
    ensures
        requested.to_set() == desired_set(viewer, rd),
        requested.len() == desired_set(viewer, rd).len(),
{
    assert forall|c: GridCoord| requested.contains(c) <==> spec_desired(viewer, rd, c) by {
        assert(!Seq::<GridCoord>::empty().contains(c));
    }
    assert(requested.to_set() =~= desired_set(viewer, rd));
    requested.unique_seq_to_set();
}

/// Law: a coordinate that enters Failed is never re-issued in any later
/// tick. Over a run whose ticks each preserve the failed set and request
/// nothing out of it (as [`ChunkedLoader::update`] ensures of every tick),
/// a coordinate failed at the start is absent from every request list.
pub proof fn lemma_failed_stays_failed(
    failed_hist: Seq<Seq<GridCoord>>,
    requests: Seq<Seq<GridCoord>>,
    c: GridCoord,
    k: int,
)
    requires
        failed_hist.len() == requests.len() + 1,
        forall|i: int, d: GridCoord|
            0 <= i < requests.len() && #[trigger] failed_hist[i].contains(d)
                ==> failed_hist[i + 1].contains(d),
        failed_hist[0].contains(c),
        0 <= k <= requests.len(),
    ensures
        failed_hist[k].contains(c),
    decreases k,
{
    if k > 0 {
        lemma_failed_stays_failed(failed_hist, requests, c, k - 1);
    }
}

/// Law: with the step facts of [`lemma_failed_stays_failed`] plus each
/// tick's guarantee that failed coordinates are not requested, a
/// coordinate failed at the start appears in no later request list.
pub proof fn lemma_failed_never_reissued(
    failed_hist: Seq<Seq<GridCoord>>,
    requests: Seq<Seq<GridCoord>>,
    c: GridCoord,
    k: int,
)
    requires
        failed_hist.len() == requests.len() + 1,
        forall|i: int, d: GridCoord|
            0 <= i < requests.len() && #[trigger] failed_hist[i].contains(d)
                ==> failed_hist[i + 1].contains(d),
        forall|i: int, d: GridCoord|
            0 <= i < requests.len() && #[trigger] failed_hist[i].contains(d) ==> !requests[
                i
            ].contains(d),
        failed_hist[0].contains(c),
        0 <= k < requests.len(),
    ensures
        !requests[k].contains(c),
{
    lemma_failed_stays_failed(failed_hist, requests, c, k);
}

/// Linear membership scan.
fn coords_contain(v: &Vec<GridCoord>, c: GridCoord) -> (b: bool)
    ensures
        b == v@.contains(c),
{
    let mut i: usize = 0;
    while i < v.len()
        invariant
            i <= v@.len(),
            forall|j: int| 0 <= j < i ==> v@[j] != c,
        decreases v@.len() - i,
    {
        if v[i] == c {
            assert(v@[i as int] == c);
            return true;
        }
        i = i + 1;
    }
    false
}

/// What one tick decided: which completed cells to instantiate, which
/// cells to newly request from the loader, and which loaded instances to
/// destroy. Empty (with `ran == false`) when the tick was rate-limited.
pub struct TickResult {
    pub ran: bool,
    pub created: Vec<GridCoord>,
    pub requested: Vec<GridCoord>,
    pub evicted: Vec<GridCoord>,
}

/// The streaming cache. It owns the Loading and Failed bookkeeping and the
/// shared material handle; Loaded instances are owned by the scene layer,
/// tagged with their coordinate, and handed to [`Self::update`] per tick.
pub struct ChunkedLoader {
    /// Render radius, in grid cells.
    pub render_dist: usize,
    /// Coordinates with a request in flight, oldest first.
    pub loading: Vec<GridCoord>,
    /// Coordinates whose load failed; never requested again this run.
    pub failed: Vec<GridCoord>,
    /// The one material handle shared read-only by every instance.
    pub material: u64,
    /// When the last non-skipped tick ran, in milliseconds.
    pub last_update_ms: u64,
    /// Minimum interval between ticks, in milliseconds.
    pub update_tick_ms: u64,
}

impl ChunkedLoader {
    /// Bookkeeping invariant: a coordinate appears at most once over the
    /// Loading and Failed lists together.
    pub open spec fn wf(&self) -> bool {
        &&& self.loading@.no_duplicates()
        &&& self.failed@.no_duplicates()
        &&& forall|c: GridCoord| !(self.loading@.contains(c) && self.failed@.contains(c))
    }

    /// A fresh cache with the default configuration: radius 10 cells and a
    /// 200 ms tick, eligible to run its first tick immediately.
    pub fn new(material: u64, now_ms: u64) -> (s: Self)
        ensures
            s.wf(),
            s.render_dist == 10,
            s.update_tick_ms == 200,
            s.loading@ == Seq::<GridCoord>::empty(),
            s.failed@ == Seq::<GridCoord>::empty(),
            s.material == material,
            s.last_update_ms == if now_ms >= 200 {
                now_ms - 200
            } else {
                0
            },
            now_ms >= 200 ==> now_ms >= s.last_update_ms + s.update_tick_ms,
    {
        let update_tick_ms: u64 = 200;
        let last_update_ms: u64 = if now_ms >= update_tick_ms {
            now_ms - update_tick_ms
        } else {
            0
        };
        ChunkedLoader {
            render_dist: 10,
            loading: Vec::new(),
            failed: Vec::new(),
            material,
            last_update_ms,
            update_tick_ms,
        }
    }

    /// Sets the render radius, in grid cells.
    pub fn set_render_dist(&mut self, dist: usize)
        ensures
            *final(self) == (ChunkedLoader { render_dist: dist, ..*old(self) }),
    {
        self.render_dist = dist;
    }

    /// Sets the minimum interval between ticks, in milliseconds.
    pub fn set_update_tick(&mut self, ms: u64)
        ensures
            *final(self) == (ChunkedLoader { update_tick_ms: ms, ..*old(self) }),
    {
        self.update_tick_ms = ms;
    }

    /// Milliseconds since the last non-skipped tick (zero if the clock
    /// reads earlier than that tick).
    pub fn time_since_last_update(&self, now_ms: u64) -> (d: u64)
        ensures
            d == if now_ms >= self.last_update_ms {
                now_ms - self.last_update_ms
            } else {
                0
            },
    {
        if now_ms >= self.last_update_ms {
            now_ms - self.last_update_ms
        } else {
            0
        }
    }

    /// One tick: reconcile in-flight requests against the polled statuses,
    /// request every desired cell not yet known, then evict loaded cells
    /// beyond the hysteresis threshold. Skipped entirely (nothing changes,
    /// nothing is returned) until the configured interval has elapsed.
    ///
    /// `statuses[i]` is the polled status of `loading[i]`; `loaded` holds
    /// the tags of the instances the scene layer currently owns. A cell
    /// whose load completed this very tick counts as loaded for the
    /// request scan, and eviction considers the instances that existed
    /// when the tick began, so a freshly created instance outlives at
    /// least one tick.
    #[verifier::rlimit(100)]
    pub fn update(
        &mut self,
        now_ms: u64,
        viewer: GridCoord,
        statuses: &Vec<PollStatus>,
        loaded: &Vec<GridCoord>,
    ) -> (r: TickResult)
        requires
            old(self).wf(),
            statuses@.len() == old(self).loading@.len(),
            loaded@.no_duplicates(),
            forall|c: GridCoord| !(loaded@.contains(c) && old(self).loading@.contains(c)),
            forall|c: GridCoord| !(loaded@.contains(c) && old(self).failed@.contains(c)),
            viewer.x - old(self).render_dist >= i32::MIN,
            viewer.x + old(self).render_dist <= i32::MAX,
            viewer.z - old(self).render_dist >= i32::MIN,
            viewer.z + old(self).render_dist <= i32::MAX,
        ensures
            final(self).wf(),
            final(self).render_dist == old(self).render_dist,
            final(self).update_tick_ms == old(self).update_tick_ms,
            final(self).material == old(self).material,
            r.ran <==> now_ms >= old(self).last_update_ms + old(self).update_tick_ms,
            !r.ran ==> {
                &&& *final(self) == *old(self)
                &&& r.created@ == Seq::<GridCoord>::empty()
                &&& r.requested@ == Seq::<GridCoord>::empty()
                &&& r.evicted@ == Seq::<GridCoord>::empty()
            },
            r.ran ==> final(self).last_update_ms == now_ms,
            r.ran ==> r.created@ == resolved(old(self).loading@, statuses@, PollStatus::Ready),
            r.ran ==> final(self).failed@ == old(self).failed@ + resolved(
                old(self).loading@,
                statuses@,
                PollStatus::Failed,
            ),
            r.ran ==> final(self).loading@ == resolved(
                old(self).loading@,
                statuses@,
                PollStatus::Pending,
            ) + r.requested@,
            r.ran ==> r.requested@.no_duplicates(),
            r.ran ==> requested_exactly(
                old(self).loading@,
                statuses@,
                loaded@,
                viewer,
                old(self).render_dist as int,
                final(self).failed@,
                r.created@,
                r.requested@,
            ),
            r.ran ==> r.evicted@ == far_coords(
                loaded@,
                viewer,
                evict_threshold(old(self).render_dist as int),
            ),
            r.ran ==> (forall|c: GridCoord|
                r.evicted@.contains(c) <==> (loaded@.contains(c) && dist_sq(c, viewer)
                    > evict_threshold(old(self).render_dist as int))),
            r.ran ==> (forall|c: GridCoord|
                old(self).failed@.contains(c) ==> final(self).failed@.contains(c)
                    && !r.requested@.contains(c)),
            r.ran ==> (forall|c: GridCoord| r.requested@.contains(c) ==> !r.evicted@.contains(c)),
    {
        let run = now_ms >= self.last_update_ms && now_ms - self.last_update_ms
            >= self.update_tick_ms;
        if !run {
            return TickResult {
                ran: false,
                created: Vec::new(),
                requested: Vec::new(),
                evicted: Vec::new(),
            };
        }
        self.last_update_ms = now_ms;
        let ghost l0 = self.loading@;
        let ghost s0 = statuses@;
        let ghost f0 = self.failed@;
        // Reconcile every in-flight request against its polled status.
        let mut kept: Vec<GridCoord> = Vec::new();
        let mut created: Vec<GridCoord> = Vec::new();
        let mut i: usize = 0;
        while i < self.loading.len()
            invariant
                self.render_dist == old(self).render_dist,
                self.update_tick_ms == old(self).update_tick_ms,
                self.material == old(self).material,
                self.last_update_ms == now_ms,
                self.loading@ == l0,
                statuses@ == s0,
                s0.len() == l0.len(),
                i <= l0.len(),
                kept@ == resolved(l0.take(i as int), s0.take(i as int), PollStatus::Pending),
                created@ == resolved(l0.take(i as int), s0.take(i as int), PollStatus::Ready),
                self.failed@ == f0 + resolved(
                    l0.take(i as int),
                    s0.take(i as int),
                    PollStatus::Failed,
                ),
            decreases l0.len() - i,
        {
            let c = self.loading[i];
            let st = statuses[i];
            match st {
                PollStatus::Pending => kept.push(c),
                PollStatus::Ready => created.push(c),
                PollStatus::Failed => self.failed.push(c),
            }
            proof {
                assert(l0.take(i + 1 as int).drop_last() =~= l0.take(i as int));
                assert(s0.take(i + 1 as int).drop_last() =~= s0.take(i as int));
                assert(l0.take(i + 1 as int).last() == l0[i as int]);
                assert(s0.take(i + 1 as int)[i as int] == s0[i as int]);
                assert(kept@ =~= resolved(
                    l0.take(i + 1 as int),
                    s0.take(i + 1 as int),
                    PollStatus::Pending,
                ));
                assert(created@ =~= resolved(
                    l0.take(i + 1 as int),
                    s0.take(i + 1 as int),
                    PollStatus::Ready,
                ));
                assert(self.failed@ =~= f0 + resolved(
                    l0.take(i + 1 as int),
                    s0.take(i + 1 as int),
                    PollStatus::Failed,
                ));
            }
            i = i + 1;
        }
        proof {
            assert(l0.take(l0.len() as int) =~= l0);
            assert(s0.take(s0.len() as int) =~= s0);
        }
        self.loading = kept;
        let ghost pend = resolved(l0, s0, PollStatus::Pending);
        let ghost newfail = resolved(l0, s0, PollStatus::Failed);
        let ghost ready = resolved(l0, s0, PollStatus::Ready);
        let ghost f1 = self.failed@;
        proof {
            lemma_resolved_no_dup(l0, s0, PollStatus::Pending);
            lemma_resolved_no_dup(l0, s0, PollStatus::Ready);
            lemma_resolved_no_dup(l0, s0, PollStatus::Failed);
            assert forall|c: GridCoord| !(f0.contains(c) && newfail.contains(c)) by {
                if newfail.contains(c) {
                    assert(l0.contains(c));
                }
            }
            lemma_no_dup_concat(f0, newfail);
            assert(self.failed@.no_duplicates());
        }
        // Request every desired cell not already loaded, created this
        // tick, in flight, or failed.
        let desired = desired_coords(viewer, self.render_dist);
        let mut requested: Vec<GridCoord> = Vec::new();
        let mut k: usize = 0;
        while k < desired.len()
            invariant
                self.render_dist == old(self).render_dist,
                self.update_tick_ms == old(self).update_tick_ms,
                self.material == old(self).material,
                self.last_update_ms == now_ms,
                k <= desired@.len(),
                self.failed@ == f1,
                f1 == f0 + newfail,
                created@ == ready,
                desired@.no_duplicates(),
                forall|c: GridCoord|
                    desired@.contains(c) <==> spec_desired(
                        viewer,
                        old(self).render_dist as int,
                        c,
                    ),
                self.loading@ == pend + requested@,
                requested@ == missing_of(desired@.take(k as int), loaded@, ready, pend, f1),
            decreases desired@.len() - k,
        {
            let c = desired[k];
            proof {
                assert(!desired@.take(k as int).contains(desired@[k as int])) by {
                    if desired@.take(k as int).contains(desired@[k as int]) {
                        let j = choose|j: int|
                            0 <= j < k && desired@.take(k as int)[j] == desired@[k as int];
                        assert(desired@[j] == desired@[k as int]);
                    }
                }
                lemma_missing_contains(desired@.take(k as int), loaded@, ready, pend, f1, c);
                assert(!requested@.contains(c));
                assert(self.loading@.contains(c) <==> pend.contains(c)) by {
                    if self.loading@.contains(c) {
                        let j = choose|j: int|
                            0 <= j < self.loading@.len() && self.loading@[j] == c;
                        if j < pend.len() {
                            assert(pend[j] == c);
                        } else {
                            assert(requested@[j - pend.len()] == c);
                        }
                    }
                    if pend.contains(c) {
                        let j = choose|j: int| 0 <= j < pend.len() && pend[j] == c;
                        assert(self.loading@[j] == c);
                    }
                }
                assert(desired@.take(k + 1 as int).drop_last() =~= desired@.take(k as int));
                assert(desired@.take(k + 1 as int).last() == desired@[k as int]);
            }
            if !coords_contain(loaded, c) && !coords_contain(&created, c) && !coords_contain(
                &self.loading,
                c,
            ) && !coords_contain(&self.failed, c) {
                requested.push(c);
                self.loading.push(c);
                proof {
                    assert(requested@ =~= missing_of(
                        desired@.take(k + 1 as int),
                        loaded@,
                        ready,
                        pend,
                        f1,
                    ));
                    assert(self.loading@ =~= pend + requested@);
                }
            } else {
                proof {
                    assert(requested@ =~= missing_of(
                        desired@.take(k + 1 as int),
                        loaded@,
                        ready,
                        pend,
                        f1,
                    ));
                }
            }
            k = k + 1;
        }
        proof {
            assert(desired@.take(desired@.len() as int) =~= desired@);
            lemma_missing_no_dup(desired@, loaded@, ready, pend, f1);
            assert forall|c: GridCoord|
                requested@.contains(c) <==> {
                    &&& spec_desired(viewer, old(self).render_dist as int, c)
                    &&& !loaded@.contains(c)
                    &&& !ready.contains(c)
                    &&& !pend.contains(c)
                    &&& !f1.contains(c)
                } by {
                lemma_missing_contains(desired@, loaded@, ready, pend, f1, c);
            }
        }
        // Evict loaded cells beyond the hysteresis threshold.
        let rd = self.render_dist;
        proof {
            assert(rd <= 0x1_0000_0000);
            assert(0 <= (rd as int) * (rd as int) <= 0x1_0000_0000_0000_0000) by (nonlinear_arith)
                requires
                    0 <= rd <= 0x1_0000_0000,
            ;
        }
        let bound: i128 = (rd as i128) * (rd as i128) + 3;
        let mut evicted: Vec<GridCoord> = Vec::new();
        let mut k: usize = 0;
        while k < loaded.len()
            invariant
                k <= loaded@.len(),
                bound == evict_threshold(rd as int),
                evicted@ == far_coords(loaded@.take(k as int), viewer, evict_threshold(rd as int)),
            decreases loaded@.len() - k,
        {
            let c = loaded[k];
            let dx = c.x as i128 - viewer.x as i128;
            let dz = c.z as i128 - viewer.z as i128;
            proof {
                assert(0 <= dx * dx <= 0x4_0000_0000_0000_0000 && 0 <= dz * dz
                    <= 0x4_0000_0000_0000_0000) by (nonlinear_arith)
                    requires
                        -0x1_0000_0000 <= dx <= 0x1_0000_0000,
                        -0x1_0000_0000 <= dz <= 0x1_0000_0000,
                ;
            }
            if dx * dx + dz * dz > bound {
                evicted.push(c);
            }
            proof {
                assert(loaded@.take(k + 1 as int).drop_last() =~= loaded@.take(k as int));
                assert(loaded@.take(k + 1 as int).last() == loaded@[k as int]);
                assert(dx * dx + dz * dz == dist_sq(loaded@[k as int], viewer));
                assert(evicted@ =~= far_coords(
                    loaded@.take(k + 1 as int),
                    viewer,
                    evict_threshold(rd as int),
                ));
            }
            k = k + 1;
        }
        proof {
            assert(loaded@.take(loaded@.len() as int) =~= loaded@);
        }
        let out = TickResult { ran: true, created, requested, evicted };
        proof {
            // Well-formedness of the new bookkeeping.
            assert forall|c: GridCoord| !(pend.contains(c) && out.requested@.contains(c)) by {
                lemma_missing_contains(desired@, loaded@, ready, pend, f1, c);
            }
            lemma_no_dup_concat(pend, out.requested@);
            assert forall|c: GridCoord|
                !(self.loading@.contains(c) && self.failed@.contains(c)) by {
                if self.loading@.contains(c) {
                    let j = choose|j: int| 0 <= j < self.loading@.len() && self.loading@[j] == c;
                    if j < pend.len() {
                        assert(pend[j] == c);
                        assert(pend.contains(c));
                        if self.failed@.contains(c) {
                            let j2 = choose|j2: int|
                                0 <= j2 < self.failed@.len() && self.failed@[j2] == c;
                            if j2 < f0.len() {
                                assert(f0[j2] == c);
                                assert(f0.contains(c) && l0.contains(c));
                            } else {
                                assert(newfail[j2 - f0.len()] == c);
                                assert(newfail.contains(c));
                                lemma_resolved_disjoint(
                                    l0,
                                    s0,
                                    PollStatus::Pending,
                                    PollStatus::Failed,
                                    c,
                                );
                            }
                        }
                    } else {
                        assert(out.requested@[j - pend.len()] == c);
                        assert(out.requested@.contains(c));
                        lemma_missing_contains(desired@, loaded@, ready, pend, f1, c);
                    }
                }
            }
            // Eviction characterization.
            assert forall|c: GridCoord|
                out.evicted@.contains(c) <==> (loaded@.contains(c) && dist_sq(c, viewer)
                    > evict_threshold(rd as int)) by {
                lemma_far_coords_contains(loaded@, viewer, evict_threshold(rd as int), c);
            }
            // A failed coordinate stays failed and is never re-requested.
            assert forall|c: GridCoord|
                f0.contains(c) implies self.failed@.contains(c) && !out.requested@.contains(
                c,
            ) by {
                let j = choose|j: int| 0 <= j < f0.len() && f0[j] == c;
                assert(self.failed@[j] == c);
                lemma_missing_contains(desired@, loaded@, ready, pend, f1, c);
            }
            // A coordinate requested this tick is not loaded, so it cannot
            // be evicted in the same tick.
            assert forall|c: GridCoord|
                out.requested@.contains(c) implies !out.evicted@.contains(c) by {
                lemma_missing_contains(desired@, loaded@, ready, pend, f1, c);
                assert(!loaded@.contains(c));
                lemma_far_coords_contains(loaded@, viewer, evict_threshold(rd as int), c);
            }
            // The request characterization, over the tick's outputs.
            assert forall|c: GridCoord|
                out.requested@.contains(c) <==> {
                    &&& spec_desired(viewer, old(self).render_dist as int, c)
                    &&& !loaded@.contains(c)
                    &&& !out.created@.contains(c)
                    &&& !pend.contains(c)
                    &&& !self.failed@.contains(c)
                } by {
                lemma_missing_contains(desired@, loaded@, ready, pend, f1, c);
            }
            // Tie the tick's outputs back to the contract's terms.
            assert(self.failed@ == old(self).failed@ + resolved(
                old(self).loading@,
                statuses@,
                PollStatus::Failed,
            ));
            assert(self.loading@ == resolved(old(self).loading@, statuses@, PollStatus::Pending)
                + out.requested@);
            assert(out.created@ == resolved(old(self).loading@, statuses@, PollStatus::Ready));
            assert(out.evicted@ == far_coords(
                loaded@,
                viewer,
                evict_threshold(old(self).render_dist as int),
            ));
            assert(out.requested@.no_duplicates());
            assert(requested_exactly(
                old(self).loading@,
                statuses@,
                loaded@,
                viewer,
                old(self).render_dist as int,
                self.failed@,
                out.created@,
                out.requested@,
            )) by {
                assert forall|c: GridCoord| #![trigger out.requested@.contains(c)]
                    out.requested@.contains(c) <==> {
                        &&& spec_desired(viewer, old(self).render_dist as int, c)
                        &&& !loaded@.contains(c)
                        &&& !out.created@.contains(c)
                        &&& !resolved(
                            old(self).loading@,
                            statuses@,
                            PollStatus::Pending,
                        ).contains(c)
                        &&& !self.failed@.contains(c)
                    } by {
                    lemma_missing_contains(desired@, loaded@, ready, pend, f1, c);
                }
            }
            assert forall|c: GridCoord|
                out.evicted@.contains(c) <==> (loaded@.contains(c) && dist_sq(c, viewer)
                    > evict_threshold(old(self).render_dist as int)) by {
                lemma_far_coords_contains(loaded@, viewer, evict_threshold(rd as int), c);
            }
            assert forall|c: GridCoord|
                old(self).failed@.contains(c) implies self.failed@.contains(c)
                    && !out.requested@.contains(c) by {
                let j = choose|j: int| 0 <= j < f0.len() && f0[j] == c;
                assert(self.failed@[j] == c);
                lemma_missing_contains(desired@, loaded@, ready, pend, f1, c);
            }
        }
        out
    }
}

} // verus!
