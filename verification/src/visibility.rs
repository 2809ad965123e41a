//! The visibility engine: cast a ray from the origin toward every
//! obstacle endpoint (plus two probes turned by a small fixed angle when
//! the ray reaches the endpoint it aimed at), keep the nearest hit of
//! each ray, and return all hit points sorted by their angle around the
//! origin. A triangle fan over that boundary covers the visible region.

use vstd::prelude::*;
use crate::angle::{angle_le, angle_le_exec, lemma_angle_le_trans, lemma_angle_total, DirV};
use crate::rat::{abs_int, lemma_rat_le_trans, rat_int, rat_le, rat_lt, rat_wf, RatV};
use crate::segment::{
    crossing_param, crossing_param_v, lemma_crossing_props, lemma_endpoint_ray_hits,
    off_carrier_line, on_segment_v, seg_wf, sx, sy, SegV, Segment,
};
use crate::vector::{grid_point, point_dot, point_eq, point_sub, point_wf, PointV, Vector, COORD_LIMIT};

verus! {

/// Bound on direction components accepted by the angle comparator.
pub const SORT_DIR_LIMIT: i128 = 0x2000_0000;

/// A point tagged with the (integer) direction from the origin under
/// which it was found; the tag is the sort key.
pub ghost struct TaggedV {
    pub dir: DirV,
    pub pt: PointV,
}

/// Exec pairing of a point with its integer direction tag.
#[derive(Clone, Copy)]
pub(crate) struct DirPoint {
    pub dx: i128,
    pub dy: i128,
    pub pt: Vector,
}

impl View for DirPoint {
    type V = TaggedV;

    closed spec fn view(&self) -> TaggedV {
        TaggedV { dir: DirV { x: self.dx as int, y: self.dy as int }, pt: self.pt@ }
    }
}

/// The view of a tagged vector, elementwise.
pub(crate) open spec fn tagged_seq(s: Seq<DirPoint>) -> Seq<TaggedV> {
    s.map_values(|dp: DirPoint| dp@)
}

/// A direction small enough for the exact angle comparator.
pub open spec fn dir_bounded(d: DirV) -> bool {
    abs_int(d.x) <= SORT_DIR_LIMIT && abs_int(d.y) <= SORT_DIR_LIMIT
}

/// Every tag in the sequence is small enough to compare.
pub open spec fn dirs_bounded(s: Seq<TaggedV>) -> bool {
    forall|i: int| 0 <= i < s.len() ==> dir_bounded(#[trigger] s[i].dir)
}

/// Tags in ascending angle order.
pub open spec fn sorted_by_angle(s: Seq<TaggedV>) -> bool {
    forall|i: int, j: int| 0 <= i < j < s.len() ==> angle_le(#[trigger] s[i].dir, #[trigger] s[j].dir)
}

/// Stable insertion of `x` into the angle-sorted `s`: `x` goes after
/// every element whose angle is no greater than its own.
pub open spec fn insert_by_angle(s: Seq<TaggedV>, x: TaggedV) -> Seq<TaggedV>
    decreases s.len(),
{
    if s.len() == 0 {
        seq![x]
    } else if angle_le(s.last().dir, x.dir) {
        s.push(x)
    } else {
        insert_by_angle(s.drop_last(), x).push(s.last())
    }
}

/// Stable insertion sort of tagged points by angle: the unique stable
/// angle-sorted rearrangement.
pub open spec fn sort_by_angle(s: Seq<TaggedV>) -> Seq<TaggedV>
    decreases s.len(),
{
    if s.len() == 0 {
        Seq::empty()
    } else {
        insert_by_angle(sort_by_angle(s.drop_last()), s.last())
    }
}

/// Inserting splits the sequence at the scan point: everything from the
/// first element whose angle exceeds `x`'s moves one place right.
proof fn lemma_insert_shape(s: Seq<TaggedV>, x: TaggedV, j: int)
    requires
        0 <= j <= s.len(),
        forall|k: int| j <= k < s.len() ==> !angle_le(#[trigger] s[k].dir, x.dir),
        j > 0 ==> angle_le(s[j - 1].dir, x.dir),
    ensures
        insert_by_angle(s, x) == s.take(j).push(x) + s.skip(j),
    decreases s.len(),
{
    if s.len() == 0 {
        assert(insert_by_angle(s, x) =~= s.take(j).push(x) + s.skip(j));
    } else if angle_le(s.last().dir, x.dir) {
        assert(j == s.len());
        assert(s.take(j) =~= s);
        assert(insert_by_angle(s, x) =~= s.take(j).push(x) + s.skip(j));
    } else {
        assert(j <= s.len() - 1);
        lemma_insert_shape(s.drop_last(), x, j);
        assert(s.drop_last().take(j) =~= s.take(j));
        assert(insert_by_angle(s.drop_last(), x).push(s.last()) =~= s.take(j).push(x) + s.skip(
            j)) by {
            assert(s.drop_last().skip(j).push(s.last()) =~= s.skip(j));
        }
    }
}

/// Insertion keeps boundedness of the tags and sortedness.
proof fn lemma_insert_props(s: Seq<TaggedV>, x: TaggedV)
    requires
        dirs_bounded(s),
        dir_bounded(x.dir),
        sorted_by_angle(s),
    ensures
        dirs_bounded(insert_by_angle(s, x)),
        sorted_by_angle(insert_by_angle(s, x)),
        insert_by_angle(s, x).len() == s.len() + 1,
    decreases s.len(),
{
    if s.len() == 0 {
    } else if angle_le(s.last().dir, x.dir) {
        let r = s.push(x);
        assert forall|i: int, j: int| 0 <= i < j < r.len() implies angle_le(
            r[i].dir, r[j].dir) by {
            if j == r.len() - 1 {
                if i < s.len() - 1 {
                    lemma_angle_le_trans(s[i].dir, s.last().dir, x.dir);
                }
            }
        }
    } else {
        lemma_insert_props(s.drop_last(), x);
        let t = insert_by_angle(s.drop_last(), x);
        let r = t.push(s.last());
        lemma_angle_total(s.last().dir, x.dir);
        assert forall|i: int, j: int| 0 <= i < j < r.len() implies angle_le(
            r[i].dir, r[j].dir) by {
            if j == r.len() - 1 {
                lemma_insert_members(s.drop_last(), x, i);
                if t[i] == x {
                    assert(angle_le(x.dir, s.last().dir));
                } else {
                    // t[i] is an element of s.drop_last(), every one of
                    // which precedes s.last() in the order.
                }
            }
        }
    }
}

/// Every element of an insertion's result is the inserted element or an
/// element of the input sequence.
proof fn lemma_insert_members(s: Seq<TaggedV>, x: TaggedV, i: int)
    requires
        0 <= i < insert_by_angle(s, x).len(),
    ensures
        insert_by_angle(s, x)[i] == x || exists|k: int| 0 <= k < s.len() && s[k]
            == insert_by_angle(s, x)[i],
    decreases s.len(),
{
    if s.len() == 0 {
    } else if angle_le(s.last().dir, x.dir) {
        if i < s.len() {
            assert(s[i] == insert_by_angle(s, x)[i]);
        }
    } else {
        let t = insert_by_angle(s.drop_last(), x);
        if i < t.len() {
            lemma_insert_members(s.drop_last(), x, i);
            if t[i] != x {
                let k = choose|k: int| 0 <= k < s.drop_last().len() && s.drop_last()[k] == t[i];
                assert(s[k] == t[i]);
            }
        } else {
            assert(insert_by_angle(s, x)[i] == s[s.len() - 1]);
        }
    }
}

/// Sorting keeps boundedness and produces an angle-sorted sequence of
/// the same length.
proof fn lemma_sort_props(s: Seq<TaggedV>)
    requires
        dirs_bounded(s),
    ensures
        dirs_bounded(sort_by_angle(s)),
        sorted_by_angle(sort_by_angle(s)),
        sort_by_angle(s).len() == s.len(),
    decreases s.len(),
{
    if s.len() > 0 {
        assert(dirs_bounded(s.drop_last()));
        lemma_sort_props(s.drop_last());
        lemma_insert_props(sort_by_angle(s.drop_last()), s.last());
    }
}

/// Raw bound on the tag fields of one tagged point.
pub(crate) open spec fn dp_ok(d: DirPoint) -> bool {
    -SORT_DIR_LIMIT <= d.dx <= SORT_DIR_LIMIT && -SORT_DIR_LIMIT <= d.dy <= SORT_DIR_LIMIT
}

/// Raw bound on the tag fields of a sequence of tagged points.
pub(crate) open spec fn dp_bounded(s: Seq<DirPoint>) -> bool {
    forall|i: int| 0 <= i < s.len() ==> dp_ok(#[trigger] s[i])
}

/// Stable insertion sort of the tagged points by angle around the
/// origin; the exact counterpart of sorting by the `atan2` angle key.
pub(crate) fn sort_tagged(input: Vec<DirPoint>) -> (r: Vec<DirPoint>)
    requires
        dp_bounded(input@),
    ensures
        tagged_seq(r@) == sort_by_angle(tagged_seq(input@)),
{
    proof {
        assert forall|k: int| 0 <= k < tagged_seq(input@).len() implies dir_bounded(
            #[trigger] tagged_seq(input@)[k].dir) by {
            assert(tagged_seq(input@)[k] == input@[k]@);
        }
    }
    let mut out: Vec<DirPoint> = Vec::new();
    proof {
        assert(tagged_seq(out@) =~= sort_by_angle(tagged_seq(input@.take(0))));
        assert(tagged_seq(input@.take(0)) =~= Seq::<TaggedV>::empty());
    }
    let n = input.len();
    for i in 0..n
        invariant
            n == input.len(),
            dp_bounded(input@),
            dirs_bounded(tagged_seq(input@)),
            tagged_seq(out@) == sort_by_angle(tagged_seq(input@.take(i as int))),
            dp_bounded(out@),
            dirs_bounded(tagged_seq(out@)),
            sorted_by_angle(tagged_seq(out@)),
    {
        let x = input[i];
        proof {
            assert(tagged_seq(input@)[i as int] == x@);
            assert(dir_bounded(x@.dir));
        }
        let mut j: usize = out.len();
        while j > 0 && !angle_le_exec(out[j - 1].dx, out[j - 1].dy, x.dx, x.dy)
            invariant
                j <= out.len(),
                dp_bounded(out@),
                dirs_bounded(tagged_seq(out@)),
                dir_bounded(x@.dir),
                -SORT_DIR_LIMIT <= x.dx <= SORT_DIR_LIMIT,
                -SORT_DIR_LIMIT <= x.dy <= SORT_DIR_LIMIT,
                forall|k: int| j <= k < out@.len() ==> !angle_le(
                    #[trigger] tagged_seq(out@)[k].dir, x@.dir),
            decreases j,
        {
            proof {
                assert(tagged_seq(out@)[j - 1].dir == (DirV {
                    x: out@[j - 1].dx as int,
                    y: out@[j - 1].dy as int,
                }));
            }
            j = j - 1;
        }
        proof {
            if j > 0 {
                assert(tagged_seq(out@)[j - 1].dir == (DirV {
                    x: out@[j - 1].dx as int,
                    y: out@[j - 1].dy as int,
                }));
            }
            lemma_insert_shape(tagged_seq(out@), x@, j as int);
            lemma_insert_props(tagged_seq(out@), x@);
        }
        let ghost pre = tagged_seq(out@);
        let ghost preraw = out@;
        out.insert(j, x);
        proof {
            preraw.insert_ensures(j as int, x);
            assert(dp_ok(x));
            assert forall|k: int| 0 <= k < out@.len() implies dp_ok(#[trigger] out@[k]) by {
                if k < j {
                    assert(out@[k] == preraw[k]);
                    assert(dp_ok(preraw[k]));
                } else if k > j {
                    assert(out@[k] == preraw[k - 1]);
                    assert(dp_ok(preraw[k - 1]));
                } else {
                    assert(out@[k] == x);
                }
            }
            assert(tagged_seq(out@) =~= pre.take(j as int).push(x@) + pre.skip(j as int));
            assert(tagged_seq(input@.take(i + 1)) =~= tagged_seq(input@.take(i as int)).push(
                x@));
            assert(tagged_seq(input@.take(i + 1)).drop_last() =~= tagged_seq(input@.take(
                i as int)));
        }
    }
    proof {
        assert(input@.take(n as int) =~= input@);
    }
    out
}

/// Adjacent-duplicate removal by exact point value: after the angle
/// sort, coincident endpoints stand next to each other and all but the
/// first of each run are dropped.
pub open spec fn dedup_adjacent(s: Seq<TaggedV>) -> Seq<TaggedV>
    decreases s.len(),
{
    if s.len() == 0 {
        Seq::empty()
    } else {
        let rest = dedup_adjacent(s.drop_last());
        if rest.len() > 0 && point_eq(rest.last().pt, s.last().pt) {
            rest
        } else {
            rest.push(s.last())
        }
    }
}

/// Remove adjacent coincident points (exact value equality), keeping the
/// first of each run.
pub(crate) fn dedup_tagged(input: Vec<DirPoint>) -> (r: Vec<DirPoint>)
    ensures
        tagged_seq(r@) == dedup_adjacent(tagged_seq(input@)),
{
    let mut out: Vec<DirPoint> = Vec::new();
    proof {
        assert(tagged_seq(input@.take(0)) =~= Seq::<TaggedV>::empty());
        assert(tagged_seq(out@) =~= dedup_adjacent(tagged_seq(input@.take(0))));
    }
    let n = input.len();
    for i in 0..n
        invariant
            n == input.len(),
            tagged_seq(out@) == dedup_adjacent(tagged_seq(input@.take(i as int))),
    {
        let x = input[i];
        proof {
            assert(tagged_seq(input@)[i as int] == x@);
            assert(tagged_seq(input@.take(i + 1)) =~= tagged_seq(input@.take(i as int)).push(
                x@));
            assert(tagged_seq(input@.take(i + 1)).drop_last() =~= tagged_seq(input@.take(
                i as int)));
        }
        let keep: bool = if out.len() == 0 {
            true
        } else {
            let lastref = &out[out.len() - 1];
            proof {
                assert(tagged_seq(out@).last().pt == out@[out@.len() - 1].pt@);
            }
            !lastref.pt.eq_value(&x.pt)
        };
        let ghost pre = tagged_seq(out@);
        if keep {
            out.push(x);
            proof {
                assert(tagged_seq(out@) =~= pre.push(x@));
            }
        }
    }
    proof {
        assert(input@.take(n as int) =~= input@);
    }
    out
}


/// Views of a stored segment list.
pub open spec fn segs_v(s: Seq<Segment>) -> Seq<SegV> {
    s.map_values(|g: Segment| g@)
}

/// The points of a tagged sequence, tags dropped.
pub open spec fn points_of(s: Seq<TaggedV>) -> Seq<PointV> {
    s.map_values(|t: TaggedV| t.pt)
}

/// The models of a stored point list.
pub open spec fn points_view(s: Seq<Vector>) -> Seq<PointV> {
    s.map_values(|v: Vector| v@)
}

/// Appending a point appends its model.
proof fn lemma_points_view_push(s: Seq<Vector>, v: Vector)
    ensures
        points_view(s.push(v)) == points_view(s).push(v@),
{
    assert(points_view(s.push(v)) =~= points_view(s).push(v@));
}

/// Appending a tagged point appends its point.
proof fn lemma_points_of_push(s: Seq<TaggedV>, t: TaggedV)
    ensures
        points_of(s.push(t)) == points_of(s).push(t.pt),
{
    assert(points_of(s.push(t)) =~= points_of(s).push(t.pt));
}

/// Every endpoint of every segment, in segment order (`a` before `b`).
pub open spec fn endpoints_v(segs: Seq<SegV>) -> Seq<PointV>
    decreases segs.len(),
{
    if segs.len() == 0 {
        Seq::empty()
    } else {
        endpoints_v(segs.drop_last()).push(segs.last().a).push(segs.last().b)
    }
}

/// Each point paired with its integer direction from the origin.
pub open spec fn tagged_of(o: PointV, pts: Seq<PointV>) -> Seq<TaggedV>
    decreases pts.len(),
{
    if pts.len() == 0 {
        Seq::empty()
    } else {
        tagged_of(o, pts.drop_last()).push(TaggedV {
            dir: DirV { x: sx(pts.last()) - sx(o), y: sy(pts.last()) - sy(o) },
            pt: pts.last(),
        })
    }
}

/// The candidate list: every obstacle endpoint, angle-sorted around the
/// origin, exact coincident duplicates removed.
pub open spec fn candidates_v(o: PointV, segs: Seq<SegV>) -> Seq<TaggedV> {
    dedup_adjacent(sort_by_angle(tagged_of(o, endpoints_v(segs))))
}

/// The nearest crossing of the ray from `(ox, oy)` along `(dx, dy)`
/// against the first `n` segments: the hit point, the ray parameter
/// `tn/d` it was found at, and the index of the segment that produced
/// it. Nearness is least ray parameter; a strictly smaller parameter
/// displaces the incumbent, so the first segment (in list order) of any
/// tie is kept.
pub open spec fn nearest_hit_v(ox: int, oy: int, dx: int, dy: int, segs: Seq<SegV>, n: int)
    -> Option<(PointV, int, int, int)>
    decreases n,
{
    if n <= 0 {
        Option::None
    } else {
        let prev = nearest_hit_v(ox, oy, dx, dy, segs, n - 1);
        match crossing_param_v(ox, oy, dx, dy, segs[n - 1], false) {
            Option::None => prev,
            Option::Some((pt, tn, d)) => match prev {
                Option::None => Option::Some((pt, tn, d, n - 1)),
                Option::Some((ppt, ptn, pd, pidx)) => if tn * pd < ptn * d {
                    Option::Some((pt, tn, d, n - 1))
                } else {
                    prev
                },
            },
        }
    }
}

/// A probe ray scheduled at a silhouette vertex: the fixed-angle turned
/// direction, remembering which segment the vertex hit belonged to.
pub ghost struct ExtraV {
    pub seg: SegV,
    pub dir: DirV,
}

/// Exec counterpart of a scheduled probe ray.
pub(crate) struct ExtraRay {
    pub seg: Segment,
    pub dx: i128,
    pub dy: i128,
}

impl View for ExtraRay {
    type V = ExtraV;

    closed spec fn view(&self) -> ExtraV {
        ExtraV { seg: self.seg@, dir: DirV { x: self.dx as int, y: self.dy as int } }
    }
}

/// Views of a stored probe-ray list.
pub(crate) open spec fn extras_seq(s: Seq<ExtraRay>) -> Seq<ExtraV> {
    s.map_values(|e: ExtraRay| e@)
}

/// The direction turned clockwise by the fixed probe angle
/// `atan(1/100)`.
pub open spec fn rot_cw_d(d: DirV) -> DirV {
    DirV { x: 100 * d.x + d.y, y: -d.x + 100 * d.y }
}

/// The direction turned counterclockwise by the fixed probe angle.
pub open spec fn rot_ccw_d(d: DirV) -> DirV {
    DirV { x: 100 * d.x - d.y, y: d.x + 100 * d.y }
}

/// The direct pass: one ray per candidate point. Every nearest hit is
/// recorded under the candidate's direction. Where the ray reached the
/// very vertex it aimed at (a potential silhouette edge), two probe rays
/// turned by the fixed angle to either side are scheduled, tied to the
/// segment the vertex hit belonged to; the clockwise probe first.
pub open spec fn direct_pass_v(o: PointV, cands: Seq<TaggedV>, segs: Seq<SegV>)
    -> (Seq<TaggedV>, Seq<ExtraV>)
    decreases cands.len(),
{
    if cands.len() == 0 {
        (Seq::empty(), Seq::empty())
    } else {
        let prev = direct_pass_v(o, cands.drop_last(), segs);
        let c = cands.last();
        match nearest_hit_v(sx(o), sy(o), c.dir.x, c.dir.y, segs, segs.len() as int) {
            Option::None => prev,
            Option::Some((pt, tn, d, idx)) => {
                let hits = prev.0.push(TaggedV { dir: c.dir, pt });
                if point_eq(pt, c.pt) {
                    (hits, prev.1.push(ExtraV { seg: segs[idx], dir: rot_cw_d(c.dir) }).push(
                        ExtraV { seg: segs[idx], dir: rot_ccw_d(c.dir) }))
                } else {
                    (hits, prev.1)
                }
            },
        }
    }
}

/// The probe pass: each scheduled probe ray is resolved like a direct
/// ray, and its nearest hit is recorded only when it lands on a segment
/// other than the one its vertex hit belonged to (a hit on the same
/// segment reveals nothing new past the corner).
pub open spec fn extra_pass_v(o: PointV, extras: Seq<ExtraV>, segs: Seq<SegV>) -> Seq<TaggedV>
    decreases extras.len(),
{
    if extras.len() == 0 {
        Seq::empty()
    } else {
        let prev = extra_pass_v(o, extras.drop_last(), segs);
        let e = extras.last();
        match nearest_hit_v(sx(o), sy(o), e.dir.x, e.dir.y, segs, segs.len() as int) {
            Option::None => prev,
            Option::Some((pt, tn, d, idx)) => if segs[idx] == e.seg {
                prev
            } else {
                prev.push(TaggedV { dir: e.dir, pt })
            },
        }
    }
}

/// The visibility-point pipeline: collect candidates, resolve the direct
/// rays and the silhouette probes, and sort every recorded hit point by
/// its angle around the origin.
pub open spec fn spec_visibility_points(o: PointV, segs: Seq<SegV>) -> Seq<PointV> {
    let cands = candidates_v(o, segs);
    let passes = direct_pass_v(o, cands, segs);
    let hits2 = extra_pass_v(o, passes.1, segs);
    points_of(sort_by_angle(passes.0 + hits2))
}

/// Collect the endpoints of every segment, each tagged with its integer
/// direction from the origin.
fn collect_tagged(origin: &Vector, segments: &Vec<Segment>) -> (r: Vec<DirPoint>)
    requires
        grid_point(origin@),
    ensures
        tagged_seq(r@) == tagged_of(origin@, endpoints_v(segs_v(segments@))),
        dp_bounded(r@),
        forall|k: int| 0 <= k < r@.len() ==> grid_point(#[trigger] r@[k].pt@),
{
    let ox: i128 = origin.x.num();
    let oy: i128 = origin.y.num();
    let mut out: Vec<DirPoint> = Vec::new();
    proof {
        assert(segs_v(segments@.take(0)) =~= Seq::<SegV>::empty());
        assert(tagged_seq(out@) =~= tagged_of(origin@, endpoints_v(segs_v(segments@.take(0)))));
    }
    let n = segments.len();
    for i in 0..n
        invariant
            n == segments.len(),
            grid_point(origin@),
            ox as int == sx(origin@),
            oy as int == sy(origin@),
            tagged_seq(out@) == tagged_of(origin@, endpoints_v(segs_v(segments@.take(i as int)))),
            dp_bounded(out@),
            forall|k: int| 0 <= k < out@.len() ==> grid_point(#[trigger] out@[k].pt@),
    {
        let seg = segments[i];
        proof {
            use_type_invariant(&seg);
            assert(segs_v(segments@)[i as int] == seg@);
        }
        let pts = seg.points();
        let pa = pts[0];
        let pb = pts[1];
        let da = DirPoint { dx: pa.x.num() - ox, dy: pa.y.num() - oy, pt: pa };
        let db = DirPoint { dx: pb.x.num() - ox, dy: pb.y.num() - oy, pt: pb };
        let ghost pre = tagged_seq(out@);
        out.push(da);
        out.push(db);
        proof {
            assert(tagged_seq(out@) =~= pre.push(da@).push(db@));
            let prevsegs = segs_v(segments@.take(i as int));
            let segsv1 = segs_v(segments@.take(i + 1));
            assert(segsv1 =~= prevsegs.push(seg@));
            let base = endpoints_v(prevsegs);
            let ea = base.push(seg@.a);
            let eb = ea.push(seg@.b);
            assert(segsv1.drop_last() =~= prevsegs);
            assert(endpoints_v(segsv1) == eb);
            assert(eb.last() == seg@.b && eb.drop_last() =~= ea);
            assert(ea.last() == seg@.a && ea.drop_last() =~= base);
            let ta = TaggedV {
                dir: DirV { x: sx(seg@.a) - sx(origin@), y: sy(seg@.a) - sy(origin@) },
                pt: seg@.a,
            };
            let tb = TaggedV {
                dir: DirV { x: sx(seg@.b) - sx(origin@), y: sy(seg@.b) - sy(origin@) },
                pt: seg@.b,
            };
            assert(tagged_of(origin@, eb) == tagged_of(origin@, ea).push(tb));
            assert(tagged_of(origin@, ea) == tagged_of(origin@, base).push(ta));
            assert(da@ == ta && db@ == tb);
            assert(tagged_of(origin@, endpoints_v(segsv1)) == tagged_seq(out@));
        }
    }
    proof {
        assert(segments@.take(n as int) =~= segments@);
    }
    out
}

/// Resolve one ray against every segment and keep the nearest crossing,
/// in least-ray-parameter order with ties resolved toward the earlier
/// segment. This is the exact counterpart of scanning for the minimum
/// Euclidean hit distance: along one ray, distance grows with the
/// parameter.
fn nearest_hit(ox: i128, oy: i128, dx: i128, dy: i128, segments: &Vec<Segment>) -> (r: Option<(
    Vector,
    i128,
    i128,
    usize,
)>)
    requires
        abs_int(ox as int) <= COORD_LIMIT,
        abs_int(oy as int) <= COORD_LIMIT,
        abs_int(dx as int) <= crate::vector::DIR_LIMIT,
        abs_int(dy as int) <= crate::vector::DIR_LIMIT,
    ensures
        (match r {
            Option::Some((pt, tn, d, idx)) => nearest_hit_v(
                ox as int, oy as int, dx as int, dy as int, segs_v(segments@),
                segments@.len() as int)
                == Option::Some((pt@, tn as int, d as int, idx as int))
                && idx < segments@.len(),
            Option::None => nearest_hit_v(
                ox as int, oy as int, dx as int, dy as int, segs_v(segments@),
                segments@.len() as int) is None,
        }),
{
    let mut best: Option<(Vector, i128, i128, usize)> = Option::None;
    let n = segments.len();
    for i in 0..n
        invariant
            n == segments.len(),
            abs_int(ox as int) <= COORD_LIMIT,
            abs_int(oy as int) <= COORD_LIMIT,
            abs_int(dx as int) <= crate::vector::DIR_LIMIT,
            abs_int(dy as int) <= crate::vector::DIR_LIMIT,
            (match best {
                Option::Some((pt, tn, d, idx)) => nearest_hit_v(
                    ox as int, oy as int, dx as int, dy as int, segs_v(segments@), i as int)
                    == Option::Some((pt@, tn as int, d as int, idx as int))
                    && idx < i
                    && 1 <= d <= 0x800_0000_0000
                    && 0 <= tn <= 0x8_0000_0000,
                Option::None => nearest_hit_v(
                    ox as int, oy as int, dx as int, dy as int, segs_v(segments@), i as int)
                    is None,
            }),
    {
        proof {
            assert(segs_v(segments@)[i as int] == segments@[i as int]@);
        }
        let hit = crossing_param(ox, oy, dx, dy, &segments[i], false);
        match hit {
            Option::None => {},
            Option::Some((pt, tn, d)) => {
                match &best {
                    Option::None => {
                        best = Option::Some((pt, tn, d, i));
                    },
                    Option::Some((bpt, btn, bd, bidx)) => {
                        proof {
                            crate::rat::lemma_mul_bounds(
                                tn as int, 0x8_0000_0000, *bd as int, 0x800_0000_0000);
                            crate::rat::lemma_mul_bounds(
                                *btn as int, 0x8_0000_0000, d as int, 0x800_0000_0000);
                        }
                        if tn * *bd < *btn * d {
                            best = Option::Some((pt, tn, d, i));
                        }
                    },
                }
            },
        }
    }
    best
}


/// A candidate tag is consistent: the tag is the integer displacement
/// from the origin to the (grid) candidate point.
pub open spec fn cand_ok(o: PointV, t: TaggedV) -> bool {
    grid_point(t.pt) && t.dir.x == sx(t.pt) - sx(o) && t.dir.y == sy(t.pt) - sy(o)
}

/// Every element of an insertion-sorted sequence is an element of the
/// input.
proof fn lemma_sort_members(s: Seq<TaggedV>)
    ensures
        forall|i: int| 0 <= i < sort_by_angle(s).len() ==> exists|k: int| 0 <= k < s.len()
            && s[k] == #[trigger] sort_by_angle(s)[i],
    decreases s.len(),
{
    if s.len() > 0 {
        lemma_sort_members(s.drop_last());
        let t = sort_by_angle(s.drop_last());
        let r = insert_by_angle(t, s.last());
        assert forall|i: int| 0 <= i < r.len() implies exists|k: int| 0 <= k < s.len() && s[k]
            == #[trigger] r[i] by {
            lemma_insert_members(t, s.last(), i);
            if r[i] == s.last() {
                assert(s[s.len() - 1] == r[i]);
            } else {
                let k1 = choose|k1: int| 0 <= k1 < t.len() && t[k1] == r[i];
                let k2 = choose|k2: int| 0 <= k2 < s.drop_last().len() && s.drop_last()[k2] == t[
                    k1];
                assert(s[k2] == r[i]);
            }
        }
    }
}

/// Every element of a deduplicated sequence is an element of the input.
proof fn lemma_dedup_members(s: Seq<TaggedV>)
    ensures
        forall|i: int| 0 <= i < dedup_adjacent(s).len() ==> exists|k: int| 0 <= k < s.len()
            && s[k] == #[trigger] dedup_adjacent(s)[i],
    decreases s.len(),
{
    if s.len() > 0 {
        lemma_dedup_members(s.drop_last());
        let rest = dedup_adjacent(s.drop_last());
        assert forall|i: int| 0 <= i < dedup_adjacent(s).len() implies exists|k: int| 0 <= k
            < s.len() && s[k] == #[trigger] dedup_adjacent(s)[i] by {
            if i < rest.len() {
                let k2 = choose|k2: int| 0 <= k2 < s.drop_last().len() && s.drop_last()[k2]
                    == rest[i];
                assert(s[k2] == dedup_adjacent(s)[i]);
            } else {
                assert(dedup_adjacent(s)[i] == s.last());
                assert(s[s.len() - 1] == dedup_adjacent(s)[i]);
            }
        }
    }
}

/// Each collected tag pairs a point with its displacement from the
/// origin.
proof fn lemma_tagged_of_shape(o: PointV, pts: Seq<PointV>)
    ensures
        tagged_of(o, pts).len() == pts.len(),
        forall|i: int| 0 <= i < pts.len() ==> #[trigger] tagged_of(o, pts)[i] == (TaggedV {
            dir: DirV { x: sx(pts[i]) - sx(o), y: sy(pts[i]) - sy(o) },
            pt: pts[i],
        }),
    decreases pts.len(),
{
    if pts.len() > 0 {
        lemma_tagged_of_shape(o, pts.drop_last());
        assert forall|i: int| 0 <= i < pts.len() implies #[trigger] tagged_of(o, pts)[i]
            == (TaggedV {
            dir: DirV { x: sx(pts[i]) - sx(o), y: sy(pts[i]) - sy(o) },
            pt: pts[i],
        }) by {
            if i < pts.len() - 1 {
                assert(tagged_of(o, pts)[i] == tagged_of(o, pts.drop_last())[i]);
                assert(pts.drop_last()[i] == pts[i]);
            }
        }
    }
}

/// Bound on probe-ray direction components.
pub(crate) open spec fn er_ok(e: ExtraRay) -> bool {
    -crate::vector::DIR_LIMIT <= e.dx <= crate::vector::DIR_LIMIT && -crate::vector::DIR_LIMIT
        <= e.dy <= crate::vector::DIR_LIMIT
}

/// Compute the visibility points: the nearest intersection of a ray from
/// `origin` toward every obstacle endpoint (plus the fixed-angle probes
/// at vertices the direct ray reached), sorted by angle around the
/// origin.
///
/// The returned sequence is exactly the value of the pipeline
/// `spec_visibility_points` on the inputs: the result is a function of
/// the arguments, so two calls on identical inputs return identical
/// sequences, in the same order.
pub fn calculate_intersection_points(origin: Vector, segments: Vec<Segment>) -> (r: Vec<Vector>)
    requires
        grid_point(origin@),
        origin_is_clear(origin@, segs_v(segments@)),
    ensures
        points_view(r@) == spec_visibility_points(origin@, segs_v(segments@)),
        sorted_points(origin@, points_view(r@)),
{
    let ghost segsv = segs_v(segments@);
    let tagged = collect_tagged(&origin, &segments);
    proof {
        lemma_tagged_of_shape(origin@, endpoints_v(segsv));
        assert forall|k: int| 0 <= k < tagged_seq(tagged@).len() implies cand_ok(
            origin@, #[trigger] tagged_seq(tagged@)[k]) by {
            assert(tagged_seq(tagged@)[k] == tagged@[k]@);
            assert(grid_point(tagged@[k].pt@));
            assert(tagged_of(origin@, endpoints_v(segsv))[k] == (TaggedV {
                dir: DirV {
                    x: sx(endpoints_v(segsv)[k]) - sx(origin@),
                    y: sy(endpoints_v(segsv)[k]) - sy(origin@),
                },
                pt: endpoints_v(segsv)[k],
            }));
        }
    }
    let sorted = sort_tagged(tagged);
    let cands = dedup_tagged(sorted);
    let ghost candsv = tagged_seq(cands@);
    proof {
        assert(candsv == candidates_v(origin@, segsv));
        lemma_sort_members(tagged_seq(tagged@));
        lemma_dedup_members(tagged_seq(sorted@));
        assert forall|i: int| 0 <= i < candsv.len() implies cand_ok(
            origin@, #[trigger] candsv[i]) by {
            let k1 = choose|k1: int| 0 <= k1 < tagged_seq(sorted@).len() && tagged_seq(
                sorted@)[k1] == candsv[i];
            let k2 = choose|k2: int| 0 <= k2 < tagged_seq(tagged@).len() && tagged_seq(
                tagged@)[k2] == tagged_seq(sorted@)[k1];
        }
    }
    let ox: i128 = origin.x.num();
    let oy: i128 = origin.y.num();
    let mut hits: Vec<DirPoint> = Vec::new();
    let mut extras: Vec<ExtraRay> = Vec::new();
    proof {
        assert(candsv.take(0) =~= Seq::<TaggedV>::empty());
        assert(tagged_seq(hits@) =~= direct_pass_v(origin@, candsv.take(0), segsv).0);
        assert(extras_seq(extras@) =~= direct_pass_v(origin@, candsv.take(0), segsv).1);
    }
    let nc = cands.len();
    for i in 0..nc
        invariant
            nc == cands.len(),
            candsv == tagged_seq(cands@),
            segsv == segs_v(segments@),
            grid_point(origin@),
            ox as int == sx(origin@),
            oy as int == sy(origin@),
            forall|k: int| 0 <= k < candsv.len() ==> cand_ok(origin@, #[trigger] candsv[k]),
            origin_is_clear(origin@, segsv),
            tagged_seq(hits@) == direct_pass_v(origin@, candsv.take(i as int), segsv).0,
            extras_seq(extras@) == direct_pass_v(origin@, candsv.take(i as int), segsv).1,
            dp_bounded(hits@),
            forall|k: int| 0 <= k < tagged_seq(hits@).len() ==> hit_prop(
                origin@, #[trigger] tagged_seq(hits@)[k]),
            forall|k: int| 0 <= k < extras@.len() ==> er_ok(#[trigger] extras@[k]),
    {
        let c = cands[i];
        proof {
            assert(candsv[i as int] == c@);
            assert(cand_ok(origin@, c@));
            assert(candsv.take(i + 1).drop_last() =~= candsv.take(i as int));
        }
        let ghost prehits = tagged_seq(hits@);
        let ghost preextras = extras_seq(extras@);
        match nearest_hit(ox, oy, c.dx, c.dy, &segments) {
            Option::None => {
                proof {
                    assert(tagged_seq(hits@) =~= direct_pass_v(origin@, candsv.take(i + 1),
                        segsv).0);
                    assert(extras_seq(extras@) =~= direct_pass_v(origin@, candsv.take(i + 1),
                        segsv).1);
                }
            },
            Option::Some((pt, tn, d, idx)) => {
                let hit_on_candidate: bool = pt.eq_value(&c.pt);
                proof {
                    lemma_hit_prop_of_nearest(
                        origin@, ox as int, oy as int, c.dx as int, c.dy as int, segsv, pt@,
                        tn as int, d as int, idx as int);
                }
                hits.push(DirPoint { dx: c.dx, dy: c.dy, pt });
                proof {
                    assert(tagged_seq(hits@) =~= prehits.push(TaggedV {
                        dir: c@.dir,
                        pt: pt@,
                    }));
                    assert forall|k: int| 0 <= k < tagged_seq(hits@).len() implies hit_prop(
                        origin@, #[trigger] tagged_seq(hits@)[k]) by {
                        if k < prehits.len() {
                            assert(tagged_seq(hits@)[k] == prehits[k]);
                        } else {
                            assert(tagged_seq(hits@)[k] == (TaggedV { dir: c@.dir, pt: pt@ }));
                        }
                    }
                    assert(segsv[idx as int] == segments@[idx as int]@);
                }
                if hit_on_candidate {
                    let hseg = segments[idx];
                    extras.push(ExtraRay { seg: hseg, dx: 100 * c.dx + c.dy, dy: -c.dx + 100
                        * c.dy });
                    extras.push(ExtraRay { seg: hseg, dx: 100 * c.dx - c.dy, dy: c.dx + 100
                        * c.dy });
                    proof {
                        assert(extras_seq(extras@) =~= preextras.push(ExtraV {
                            seg: segsv[idx as int],
                            dir: rot_cw_d(c@.dir),
                        }).push(ExtraV { seg: segsv[idx as int], dir: rot_ccw_d(c@.dir) }));
                        assert(extras_seq(extras@) =~= direct_pass_v(origin@, candsv.take(i + 1),
                            segsv).1);
                        assert(tagged_seq(hits@) =~= direct_pass_v(origin@, candsv.take(i + 1),
                            segsv).0);
                    }
                } else {
                    proof {
                        assert(extras_seq(extras@) =~= direct_pass_v(origin@, candsv.take(i + 1),
                            segsv).1);
                        assert(tagged_seq(hits@) =~= direct_pass_v(origin@, candsv.take(i + 1),
                            segsv).0);
                    }
                }
            },
        }
    }
    proof {
        assert(candsv.take(nc as int) =~= candsv);
    }
    let ghost extrasv = extras_seq(extras@);
    let mut hits2: Vec<DirPoint> = Vec::new();
    proof {
        assert(extrasv.take(0) =~= Seq::<ExtraV>::empty());
        assert(tagged_seq(hits2@) =~= extra_pass_v(origin@, extrasv.take(0), segsv));
    }
    let ne = extras.len();
    for i in 0..ne
        invariant
            ne == extras.len(),
            extrasv == extras_seq(extras@),
            segsv == segs_v(segments@),
            grid_point(origin@),
            ox as int == sx(origin@),
            oy as int == sy(origin@),
            forall|k: int| 0 <= k < extras@.len() ==> er_ok(#[trigger] extras@[k]),
            origin_is_clear(origin@, segsv),
            tagged_seq(hits2@) == extra_pass_v(origin@, extrasv.take(i as int), segsv),
            dp_bounded(hits2@),
            forall|k: int| 0 <= k < tagged_seq(hits2@).len() ==> hit_prop(
                origin@, #[trigger] tagged_seq(hits2@)[k]),
    {
        let e = &extras[i];
        proof {
            assert(extrasv[i as int] == extras@[i as int]@);
            assert(er_ok(extras@[i as int]));
            assert(extrasv.take(i + 1).drop_last() =~= extrasv.take(i as int));
        }
        let ghost prehits2 = tagged_seq(hits2@);
        let edx: i128 = e.dx;
        let edy: i128 = e.dy;
        let eseg: Segment = e.seg;
        match nearest_hit(ox, oy, edx, edy, &segments) {
            Option::None => {
                proof {
                    assert(tagged_seq(hits2@) =~= extra_pass_v(origin@, extrasv.take(i + 1),
                        segsv));
                }
            },
            Option::Some((pt, tn, d, idx)) => {
                let hseg = segments[idx];
                proof {
                    assert(segsv[idx as int] == segments@[idx as int]@);
                    crate::segment::lemma_segment_view_injective(hseg, eseg);
                }
                if hseg == eseg {
                    proof {
                        assert(tagged_seq(hits2@) =~= extra_pass_v(origin@, extrasv.take(i + 1),
                            segsv));
                    }
                } else {
                    proof {
                        lemma_hit_prop_of_nearest(
                            origin@, ox as int, oy as int, edx as int, edy as int, segsv, pt@,
                            tn as int, d as int, idx as int);
                    }
                    hits2.push(DirPoint { dx: edx, dy: edy, pt });
                    proof {
                        assert(tagged_seq(hits2@) =~= prehits2.push(TaggedV {
                            dir: extrasv[i as int].dir,
                            pt: pt@,
                        }));
                        assert forall|k: int| 0 <= k < tagged_seq(hits2@).len() implies hit_prop(
                            origin@, #[trigger] tagged_seq(hits2@)[k]) by {
                            if k < prehits2.len() {
                                assert(tagged_seq(hits2@)[k] == prehits2[k]);
                            } else {
                                assert(tagged_seq(hits2@)[k] == (TaggedV {
                                    dir: extrasv[i as int].dir,
                                    pt: pt@,
                                }));
                            }
                        }
                        assert(tagged_seq(hits2@) =~= extra_pass_v(origin@, extrasv.take(i + 1),
                            segsv));
                    }
                }
            },
        }
    }
    proof {
        assert(extrasv.take(ne as int) =~= extrasv);
    }
    let ghost hitsv = tagged_seq(hits@);
    let ghost hits2v = tagged_seq(hits2@);
    let ghost h1raw = hits@;
    let ghost h2raw = hits2@;
    let mut all: Vec<DirPoint> = hits;
    all.append(&mut hits2);
    proof {
        assert(all@ == h1raw + h2raw);
        assert(tagged_seq(all@) =~= hitsv + hits2v);
        assert(dp_bounded(all@)) by {
            assert forall|k: int| 0 <= k < all@.len() implies dp_ok(#[trigger] all@[k]) by {
                if k < h1raw.len() {
                    assert(all@[k] == h1raw[k]);
                    assert(dp_ok(h1raw[k]));
                } else {
                    assert(all@[k] == h2raw[k - h1raw.len()]);
                    assert(dp_ok(h2raw[k - h1raw.len()]));
                }
            }
        }
    }
    proof {
        assert forall|k: int| 0 <= k < tagged_seq(all@).len() implies hit_prop(
            origin@, #[trigger] tagged_seq(all@)[k]) by {
            if k < h1raw.len() {
                assert(all@[k] == h1raw[k]);
                assert(tagged_seq(all@)[k] == hitsv[k]);
            } else {
                assert(all@[k] == h2raw[k - h1raw.len()]);
                assert(tagged_seq(all@)[k] == hits2v[k - h1raw.len()]);
            }
        }
        assert forall|k: int| 0 <= k < tagged_seq(all@).len() implies dir_bounded(
            #[trigger] tagged_seq(all@)[k].dir) by {
            assert(tagged_seq(all@)[k] == all@[k]@);
            assert(dp_ok(all@[k]));
        }
    }
    let ghost allv = tagged_seq(all@);
    let final_sorted = sort_tagged(all);
    proof {
        lemma_sort_props(allv);
        lemma_sort_members(allv);
        assert forall|k: int| 0 <= k < tagged_seq(final_sorted@).len() implies hit_prop(
            origin@, #[trigger] tagged_seq(final_sorted@)[k]) by {
            let k2 = choose|k2: int| 0 <= k2 < allv.len() && allv[k2] == tagged_seq(
                final_sorted@)[k];
        }
        lemma_sorted_tags_give_sorted_points(origin@, tagged_seq(final_sorted@));
    }
    let mut out: Vec<Vector> = Vec::new();
    proof {
        assert(points_view(out@) =~= points_of(tagged_seq(final_sorted@).take(0)));
    }
    let nf = final_sorted.len();
    for i in 0..nf
        invariant
            nf == final_sorted.len(),
            points_view(out@) == points_of(tagged_seq(final_sorted@).take(i as int)),
    {
        let dp = final_sorted[i];
        let ghost preout = out@;
        out.push(dp.pt);
        proof {
            assert(tagged_seq(final_sorted@)[i as int] == final_sorted@[i as int]@);
            assert(out@ =~= preout.push(dp.pt));
            lemma_points_view_push(preout, dp.pt);
            let fsv = tagged_seq(final_sorted@);
            assert(fsv.take(i + 1) =~= fsv.take(i as int).push(fsv[i as int]));
            lemma_points_of_push(fsv.take(i as int), fsv[i as int]);
            assert(points_view(out@) == points_of(fsv.take(i + 1)));
        }
    }
    proof {
        assert(tagged_seq(final_sorted@).take(nf as int) =~= tagged_seq(final_sorted@));
        assert(points_view(out@) == spec_visibility_points(origin@, segsv));
        assert(sorted_points(origin@, points_view(out@)));
    }
    out
}

/// A hit the nearest-crossing scan reports satisfies the ray property:
/// with the origin clear of every segment, the crossing parameter is
/// strictly positive, so the hit point lies away from the origin along
/// the cast direction.
proof fn lemma_hit_prop_of_nearest(
    o: PointV, ox: int, oy: int, dx: int, dy: int, segs: Seq<SegV>, pt: PointV, tn: int, d: int,
    idx: int,
)
    requires
        grid_point(o),
        ox == sx(o),
        oy == sy(o),
        origin_is_clear(o, segs),
        nearest_hit_v(ox, oy, dx, dy, segs, segs.len() as int) == Option::Some((pt, tn, d, idx)),
    ensures
        hit_prop(o, TaggedV { dir: DirV { x: dx, y: dy }, pt }),
{
    lemma_nearest_from_crossing(ox, oy, dx, dy, segs, segs.len() as int);
    lemma_crossing_props(ox, oy, dx, dy, segs[idx], false, pt, tn, d);
    if tn == 0 {
        assert((PointV { x: rat_int(ox), y: rat_int(oy) }) == o) by {
            assert(o.x.den == 1 && o.y.den == 1);
        }
        assert(!on_segment_v(o, segs[idx]));
        assert(false);
    }
    lemma_hit_dir(o, dx, dy, pt, tn, d);
}


/// Model of an output triangle.
pub ghost struct TriangleV {
    pub a: PointV,
    pub b: PointV,
    pub c: PointV,
}

/// One triangle of the output fan; `a` is always the visibility origin.
#[derive(Clone, Copy, Debug, PartialEq, Eq, Structural)]
pub struct Triangle {
    pub a: Vector,
    pub b: Vector,
    pub c: Vector,
}

impl View for Triangle {
    type V = TriangleV;

    open spec fn view(&self) -> TriangleV {
        TriangleV { a: self.a@, b: self.b@, c: self.c@ }
    }
}

/// Failure of the visibility computation.
#[derive(Clone, Copy, Debug, PartialEq, Eq, Structural)]
pub enum VisibilityError {
    /// Fewer than two visibility points were produced (for instance on
    /// an empty segment list), so no fan can be assembled.
    TooFewPoints,
}

/// Whether the origin lies on none of the segments. The visibility
/// computation requires a clear origin; a caller that cannot establish
/// this statically checks it with this function first.
pub fn origin_clear(origin: &Vector, segments: &Vec<Segment>) -> (r: bool)
    requires
        grid_point(origin@),
    ensures
        r == (forall|i: int| 0 <= i < segments@.len() ==> !crate::segment::on_segment_v(
            origin@, #[trigger] segs_v(segments@)[i])),
{
    let n = segments.len();
    for i in 0..n
        invariant
            n == segments.len(),
            grid_point(origin@),
            forall|k: int| 0 <= k < i ==> !crate::segment::on_segment_v(
                origin@, #[trigger] segs_v(segments@)[k]),
    {
        proof {
            assert(segs_v(segments@)[i as int] == segments@[i as int]@);
        }
        if segments[i].contains_point(origin) {
            return false;
        }
    }
    true
}

/// The triangle fan over the visibility points: one triangle per
/// consecutive pair of points, with the origin as the shared first
/// vertex, plus a closing triangle between the first and last point.
/// Fails when fewer than two visibility points exist.
pub fn raycast(origin: Vector, segments: Vec<Segment>) -> (r: Result<Vec<Triangle>, VisibilityError>)
    requires
        grid_point(origin@),
        origin_is_clear(origin@, segs_v(segments@)),
    ensures
        sorted_points(origin@, spec_visibility_points(origin@, segs_v(segments@))),
        (match r {
            Result::Ok(tris) => {
                let pts = spec_visibility_points(origin@, segs_v(segments@));
                pts.len() >= 2 && tris@.len() == pts.len() && (forall|i: int|
                    0 <= i < pts.len() - 1 ==> #[trigger] tris@[i]@ == (TriangleV {
                        a: origin@,
                        b: pts[i],
                        c: pts[i + 1],
                    })) && tris@[pts.len() - 1]@ == (TriangleV {
                    a: origin@,
                    b: pts[0],
                    c: pts[pts.len() - 1],
                })
            },
            Result::Err(e) => e == VisibilityError::TooFewPoints && spec_visibility_points(
                origin@, segs_v(segments@)).len() < 2,
        }),
{
    let ghost specpts = spec_visibility_points(origin@, segs_v(segments@));
    let points = calculate_intersection_points(origin, segments);
    proof {
        assert(points_view(points@).len() == points@.len());
    }
    if points.len() < 2 {
        return Result::Err(VisibilityError::TooFewPoints);
    }
    let mut tris: Vec<Triangle> = Vec::new();
    let n = points.len();
    for i in 0..n - 1
        invariant
            n == points.len(),
            2 <= n,
            points_view(points@) == specpts,
            tris@.len() == i,
            forall|k: int| 0 <= k < i ==> #[trigger] tris@[k]@ == (TriangleV {
                a: origin@,
                b: specpts[k],
                c: specpts[k + 1],
            }),
    {
        tris.push(Triangle { a: origin, b: points[i], c: points[i + 1] });
        proof {
            assert(points_view(points@)[i as int] == points@[i as int]@);
            assert(points_view(points@)[i + 1] == points@[i + 1]@);
        }
    }
    tris.push(Triangle { a: origin, b: points[0], c: points[n - 1] });
    proof {
        assert(points_view(points@)[0] == points@[0]@);
        assert(points_view(points@)[n - 1] == points@[n - 1]@);
    }
    Result::Ok(tris)
}


/// The integer direction from a grid origin to a rational point: the
/// displacement's coordinates put over a common positive denominator,
/// with only the numerator pair kept (which preserves the angle).
pub open spec fn dir_from(o: PointV, p: PointV) -> DirV {
    DirV {
        x: (p.x.num - sx(o) * p.x.den) * p.y.den,
        y: (p.y.num - sy(o) * p.y.den) * p.x.den,
    }
}

/// `(m, d)` witnesses that the displacement from the origin to the
/// tagged point is the tag direction scaled by the positive rational
/// `m/d`.
pub open spec fn scaled_dir(o: PointV, t: TaggedV, m: int, d: int) -> bool {
    dir_from(o, t.pt).x * d == m * t.dir.x && dir_from(o, t.pt).y * d == m * t.dir.y
}

/// A recorded hit points away from the origin along its tag direction:
/// the hit lies on the open ray cast from the origin under that tag.
pub open spec fn hit_prop(o: PointV, t: TaggedV) -> bool {
    point_wf(t.pt) && exists|m: int, d: int| m >= 1 && d >= 1 && #[trigger] scaled_dir(
        o, t, m, d)
}

/// The origin lies on none of the segments.
pub open spec fn origin_is_clear(o: PointV, segs: Seq<SegV>) -> bool {
    forall|i: int| 0 <= i < segs.len() ==> !on_segment_v(o, #[trigger] segs[i])
}

/// A sequence of points in ascending angle order around the origin.
pub open spec fn sorted_points(o: PointV, pts: Seq<PointV>) -> bool {
    forall|i: int| 0 <= i && i + 1 < pts.len() ==> angle_le(
        dir_from(o, #[trigger] pts[i]), dir_from(o, pts[i + 1]))
}

/// A hit at ray parameter `tn/d >= 1/d > 0` satisfies the ray property:
/// its displacement from the origin is the ray direction scaled by the
/// positive rational `tn * xden * yden / d`.
proof fn lemma_hit_dir(o: PointV, dirx: int, diry: int, pt: PointV, tn: int, d: int)
    requires
        grid_point(o),
        point_wf(pt),
        tn >= 1,
        d >= 1,
        pt.x.num * d == (sx(o) * d + tn * dirx) * pt.x.den,
        pt.y.num * d == (sy(o) * d + tn * diry) * pt.y.den,
    ensures
        hit_prop(o, TaggedV { dir: DirV { x: dirx, y: diry }, pt }),
{
    let m = tn * (pt.x.den * pt.y.den);
    let t = TaggedV { dir: DirV { x: dirx, y: diry }, pt };
    assert(m >= 1) by (nonlinear_arith)
        requires m == tn * (pt.x.den * pt.y.den), tn >= 1, pt.x.den >= 1, pt.y.den >= 1,
    ;
    let kx = pt.x.num - sx(o) * pt.x.den;
    let ky = pt.y.num - sy(o) * pt.y.den;
    assert(kx * d == tn * dirx * pt.x.den) by (nonlinear_arith)
        requires
            pt.x.num * d == (sx(o) * d + tn * dirx) * pt.x.den,
            kx == pt.x.num - sx(o) * pt.x.den,
    ;
    assert(ky * d == tn * diry * pt.y.den) by (nonlinear_arith)
        requires
            pt.y.num * d == (sy(o) * d + tn * diry) * pt.y.den,
            ky == pt.y.num - sy(o) * pt.y.den,
    ;
    assert((kx * pt.y.den) * d == m * dirx) by (nonlinear_arith)
        requires
            kx * d == tn * dirx * pt.x.den,
            m == tn * (pt.x.den * pt.y.den),
    ;
    assert((ky * pt.x.den) * d == m * diry) by (nonlinear_arith)
        requires
            ky * d == tn * diry * pt.y.den,
            m == tn * (pt.x.den * pt.y.den),
    ;
    assert(dir_from(o, pt).x == kx * pt.y.den && dir_from(o, pt).y == ky * pt.x.den);
    assert(scaled_dir(o, t, m, d));
}

/// A nearest hit among the first `n` segments is the crossing that one
/// of them reports.
proof fn lemma_nearest_from_crossing(ox: int, oy: int, dx: int, dy: int, segs: Seq<SegV>, n: int)
    requires
        n <= segs.len(),
    ensures
        (match nearest_hit_v(ox, oy, dx, dy, segs, n) {
            Option::Some((pt, tn, d, idx)) => 0 <= idx < n && crossing_param_v(
                ox, oy, dx, dy, segs[idx], false) == Option::Some((pt, tn, d)),
            Option::None => true,
        }),
    decreases n,
{
    if n > 0 {
        lemma_nearest_from_crossing(ox, oy, dx, dy, segs, n - 1);
    }
}

/// Angle-sorted tags carry over to their points when every element
/// satisfies the ray property: positive scaling does not move a
/// direction in the angle order.
proof fn lemma_sorted_tags_give_sorted_points(o: PointV, s: Seq<TaggedV>)
    requires
        sorted_by_angle(s),
        forall|k: int| 0 <= k < s.len() ==> hit_prop(o, #[trigger] s[k]),
    ensures
        sorted_points(o, points_of(s)),
{
    let pts = points_of(s);
    assert forall|i: int| 0 <= i && i + 1 < pts.len() implies angle_le(
        dir_from(o, #[trigger] pts[i]), dir_from(o, pts[i + 1])) by {
        assert(pts[i] == s[i].pt);
        assert(pts[i + 1] == s[i + 1].pt);
        assert(hit_prop(o, s[i]));
        assert(hit_prop(o, s[i + 1]));
        let (m1, d1) = choose|m1: int, d1: int| m1 >= 1 && d1 >= 1 && #[trigger] scaled_dir(
            o, s[i], m1, d1);
        let (m2, d2) = choose|m2: int, d2: int| m2 >= 1 && d2 >= 1 && #[trigger] scaled_dir(
            o, s[i + 1], m2, d2);
        assert(angle_le(s[i].dir, s[i + 1].dir));
        crate::angle::lemma_angle_positive_scale(
            dir_from(o, s[i].pt), s[i].dir, m1, d1, s[i + 1].dir);
        crate::angle::lemma_angle_positive_scale(
            dir_from(o, s[i + 1].pt), s[i + 1].dir, m2, d2, dir_from(o, s[i].pt));
    }
}


/// Every endpoint of a list of well-formed segments is a grid point.
proof fn lemma_endpoints_grid(segs: Seq<SegV>)
    requires
        forall|i: int| 0 <= i < segs.len() ==> seg_wf(#[trigger] segs[i]),
    ensures
        forall|k: int| 0 <= k < endpoints_v(segs).len() ==> grid_point(
            #[trigger] endpoints_v(segs)[k]),
        endpoints_v(segs).len() == 2 * segs.len(),
    decreases segs.len(),
{
    if segs.len() > 0 {
        assert(forall|i: int| 0 <= i < segs.drop_last().len() ==> seg_wf(
            #[trigger] segs.drop_last()[i]));
        lemma_endpoints_grid(segs.drop_last());
        assert(seg_wf(segs[segs.len() - 1]));
        assert forall|k: int| 0 <= k < endpoints_v(segs).len() implies grid_point(
            #[trigger] endpoints_v(segs)[k]) by {
            if k < endpoints_v(segs).len() - 2 {
                assert(endpoints_v(segs)[k] == endpoints_v(segs.drop_last())[k]);
            }
        }
    }
}

/// Removing adjacent duplicates keeps the angle order.
proof fn lemma_dedup_sorted(s: Seq<TaggedV>)
    requires
        sorted_by_angle(s),
    ensures
        sorted_by_angle(dedup_adjacent(s)),
    decreases s.len(),
{
    if s.len() > 0 {
        assert(sorted_by_angle(s.drop_last()));
        lemma_dedup_sorted(s.drop_last());
        lemma_dedup_members(s.drop_last());
        let rest = dedup_adjacent(s.drop_last());
        if !(rest.len() > 0 && point_eq(rest.last().pt, s.last().pt)) {
            let r = rest.push(s.last());
            assert forall|i: int, j: int| 0 <= i < j < r.len() implies angle_le(
                r[i].dir, r[j].dir) by {
                if j == r.len() - 1 {
                    let k = choose|k: int| 0 <= k < s.drop_last().len() && s.drop_last()[k]
                        == rest[i];
                    assert(s[k] == rest[i]);
                    assert(angle_le(s[k].dir, s[s.len() - 1].dir));
                }
            }
        }
    }
}

/// After adjacent-duplicate removal, neighbouring points differ in
/// value.
proof fn lemma_dedup_adjacent_distinct(s: Seq<TaggedV>)
    ensures
        forall|i: int| 0 <= i && i + 1 < dedup_adjacent(s).len() ==> !point_eq(
            #[trigger] dedup_adjacent(s)[i].pt, dedup_adjacent(s)[i + 1].pt),
    decreases s.len(),
{
    if s.len() > 0 {
        lemma_dedup_adjacent_distinct(s.drop_last());
        let rest = dedup_adjacent(s.drop_last());
        assert forall|i: int| 0 <= i && i + 1 < dedup_adjacent(s).len() implies !point_eq(
            #[trigger] dedup_adjacent(s)[i].pt, dedup_adjacent(s)[i + 1].pt) by {
            if i + 1 < rest.len() {
                assert(dedup_adjacent(s)[i] == rest[i]);
                assert(rest[i + 1] == dedup_adjacent(s)[i + 1]);
            }
        }
    }
}

/// Law: the deduplicated candidate list names each endpoint value at
/// most once, provided no two distinct endpoint values share their exact
/// angle from the origin (coincident endpoints always share it; the
/// hypothesis rules out a farther vertex hiding exactly behind a nearer
/// one, for which only the adjacent-distinctness part holds).
pub proof fn lemma_candidates_distinct(o: PointV, segs: Seq<SegV>)
    requires
        grid_point(o),
        forall|i: int| 0 <= i < segs.len() ==> seg_wf(#[trigger] segs[i]),
        (forall|i: int, j: int|
            #![trigger tagged_of(o, endpoints_v(segs))[i], tagged_of(o, endpoints_v(segs))[j]]
            0 <= i < tagged_of(o, endpoints_v(segs)).len() && 0 <= j < tagged_of(
                o, endpoints_v(segs)).len() && angle_le(
                tagged_of(o, endpoints_v(segs))[i].dir, tagged_of(o, endpoints_v(segs))[j].dir)
                && angle_le(
                tagged_of(o, endpoints_v(segs))[j].dir, tagged_of(o, endpoints_v(segs))[i].dir)
                ==> point_eq(
                tagged_of(o, endpoints_v(segs))[i].pt, tagged_of(o, endpoints_v(segs))[j].pt)),
    ensures
        forall|i: int, j: int| 0 <= i < j < candidates_v(o, segs).len() ==> !point_eq(
            #[trigger] candidates_v(o, segs)[i].pt, #[trigger] candidates_v(o, segs)[j].pt),
{
    let t = tagged_of(o, endpoints_v(segs));
    let sorted = sort_by_angle(t);
    let c = candidates_v(o, segs);
    lemma_endpoints_grid(segs);
    lemma_tagged_of_shape(o, endpoints_v(segs));
    assert forall|k: int| 0 <= k < t.len() implies cand_ok(o, #[trigger] t[k]) by {
        assert(grid_point(endpoints_v(segs)[k]));
    }
    assert forall|k: int| 0 <= k < t.len() implies dir_bounded(#[trigger] t[k].dir) by {
        assert(cand_ok(o, t[k]));
    }
    lemma_sort_props(t);
    lemma_sort_members(t);
    lemma_dedup_sorted(sorted);
    lemma_dedup_members(sorted);
    lemma_dedup_adjacent_distinct(sorted);
    assert forall|k: int| 0 <= k < c.len() implies cand_ok(o, #[trigger] c[k]) by {
        let k1 = choose|k1: int| 0 <= k1 < sorted.len() && sorted[k1] == c[k];
        let k2 = choose|k2: int| 0 <= k2 < t.len() && t[k2] == sorted[k1];
    }
    assert forall|i: int, j: int| 0 <= i < j < c.len() implies !point_eq(
        #[trigger] c[i].pt, #[trigger] c[j].pt) by {
        if point_eq(c[i].pt, c[j].pt) {
            // Coincident values at grid points have identical
            // coordinates, hence identical direction tags.
            assert(cand_ok(o, c[i]) && cand_ok(o, c[j]) && cand_ok(o, c[i + 1]));
            assert(c[i].pt.x.den == 1 && c[j].pt.x.den == 1);
            assert(c[i].dir == c[j].dir);
            // The element right after position i sits between two equal
            // angles, so it shares them.
            assert(angle_le(c[i].dir, c[i + 1].dir));
            if i + 1 < j {
                assert(angle_le(c[i + 1].dir, c[j].dir));
            }
            assert(angle_le(c[i + 1].dir, c[i].dir));
            let k1 = choose|k1: int| 0 <= k1 < sorted.len() && sorted[k1] == c[i];
            let k2 = choose|k2: int| 0 <= k2 < sorted.len() && sorted[k2] == c[i + 1];
            let m1 = choose|m1: int| 0 <= m1 < t.len() && t[m1] == sorted[k1];
            let m2 = choose|m2: int| 0 <= m2 < t.len() && t[m2] == sorted[k2];
            assert(angle_le(t[m1].dir, t[m2].dir) && angle_le(t[m2].dir, t[m1].dir));
            assert(point_eq(t[m1].pt, t[m2].pt));
            assert(point_eq(c[i].pt, c[i + 1].pt));
            assert(false);
        }
    }
}


/// Squared Euclidean distance between two points, as an exact rational.
pub open spec fn dist2(o: PointV, p: PointV) -> RatV {
    point_dot(point_sub(p, o), point_sub(p, o))
}

/// Law: along one cast ray, hits are ordered by their ray parameter
/// exactly as by their Euclidean distance from the origin, so the
/// nearest-hit scan (least parameter, first segment on ties) picks the
/// hit at minimum distance.
#[verifier::rlimit(50)]
pub proof fn lemma_param_order_is_distance_order(
    o: PointV, dx: int, dy: int, s1: SegV, s2: SegV, pt1: PointV, tn1: int, d1: int, pt2: PointV,
    tn2: int, d2: int,
)
    requires
        grid_point(o),
        !(dx == 0 && dy == 0),
        crossing_param_v(sx(o), sy(o), dx, dy, s1, false) == Option::Some((pt1, tn1, d1)),
        crossing_param_v(sx(o), sy(o), dx, dy, s2, false) == Option::Some((pt2, tn2, d2)),
    ensures
        (tn1 * d2 < tn2 * d1) == rat_lt(dist2(o, pt1), dist2(o, pt2)),
{
    lemma_crossing_props(sx(o), sy(o), dx, dy, s1, false, pt1, tn1, d1);
    lemma_crossing_props(sx(o), sy(o), dx, dy, s2, false, pt2, tn2, d2);
    let ll = dx * dx + dy * dy;
    assert(ll >= 1) by (nonlinear_arith)
        requires ll == dx * dx + dy * dy, !(dx == 0 && dy == 0),
    ;
    lemma_dist2_shape(o, dx, dy, pt1, tn1, d1, ll);
    lemma_dist2_shape(o, dx, dy, pt2, tn2, d2, ll);
    let xd1 = pt1.x.den;
    let yd1 = pt1.y.den;
    let xd2 = pt2.x.den;
    let yd2 = pt2.y.den;
    let dd1 = xd1 * xd1 * (yd1 * yd1);
    let dd2 = xd2 * xd2 * (yd2 * yd2);
    let nn1 = dist2(o, pt1).num;
    let nn2 = dist2(o, pt2).num;
    // Clearing the denominators turns the distance comparison into the
    // squared parameter comparison.
    let p = ll * (dd1 * dd2);
    assert(dd1 >= 1 && dd2 >= 1) by (nonlinear_arith)
        requires
            dd1 == xd1 * xd1 * (yd1 * yd1),
            dd2 == xd2 * xd2 * (yd2 * yd2),
            xd1 >= 1, yd1 >= 1, xd2 >= 1, yd2 >= 1,
    ;
    assert(p >= 1) by (nonlinear_arith)
        requires p == ll * (dd1 * dd2), ll >= 1, dd1 >= 1, dd2 >= 1,
    ;
    let e1 = nn1 * (d1 * d1);
    let e2 = nn2 * (d2 * d2);
    assert((nn1 * dd2) * (d1 * d1 * (d2 * d2)) == e1 * (dd2 * (d2 * d2))) by (nonlinear_arith)
        requires
            e1 == nn1 * (d1 * d1),
    ;
    assert(e1 * (dd2 * (d2 * d2)) == (tn1 * d2) * (tn1 * d2) * p) by (nonlinear_arith)
        requires
            e1 == tn1 * tn1 * ll * dd1,
            p == ll * (dd1 * dd2),
    ;
    assert((nn2 * dd1) * (d1 * d1 * (d2 * d2)) == e2 * (dd1 * (d1 * d1))) by (nonlinear_arith)
        requires
            e2 == nn2 * (d2 * d2),
    ;
    assert(e2 * (dd1 * (d1 * d1)) == (tn2 * d1) * (tn2 * d1) * p) by (nonlinear_arith)
        requires
            e2 == tn2 * tn2 * ll * dd2,
            p == ll * (dd1 * dd2),
    ;
    assert((nn1 * dd2) * (d1 * d1 * (d2 * d2)) == (tn1 * d2) * (tn1 * d2) * p);
    assert((nn2 * dd1) * (d1 * d1 * (d2 * d2)) == (tn2 * d1) * (tn2 * d1) * p);
    let sq = d1 * d1 * (d2 * d2);
    assert(sq >= 1) by (nonlinear_arith)
        requires sq == d1 * d1 * (d2 * d2), d1 >= 1, d2 >= 1,
    ;
    let a = tn1 * d2;
    let b = tn2 * d1;
    assert(a >= 0 && b >= 0) by (nonlinear_arith)
        requires a == tn1 * d2, b == tn2 * d1, tn1 >= 0, tn2 >= 0, d1 >= 1, d2 >= 1,
    ;
    assert((a < b) == (a * a * p < b * b * p)) by (nonlinear_arith)
        requires a >= 0, b >= 0, p >= 1,
    ;
    assert((nn1 * dd2 < nn2 * dd1) == (nn1 * dd2 * sq < nn2 * dd1 * sq)) by (nonlinear_arith)
        requires sq >= 1,
    ;
    assert(nn1 * dd2 * sq == a * a * p && nn2 * dd1 * sq == b * b * p) by (nonlinear_arith)
        requires
            (nn1 * dd2) * (d1 * d1 * (d2 * d2)) == (tn1 * d2) * (tn1 * d2) * p,
            (nn2 * dd1) * (d1 * d1 * (d2 * d2)) == (tn2 * d1) * (tn2 * d1) * p,
            sq == d1 * d1 * (d2 * d2),
            a == tn1 * d2,
            b == tn2 * d1,
    ;
    assert(dist2(o, pt1).den == dd1 && dist2(o, pt2).den == dd2);
}

/// The squared distance from the origin to a hit at parameter `tn/d` is
/// `(tn/d)^2` times the squared length of the cast direction: its
/// numerator satisfies `num * d^2 == tn^2 * |dir|^2 * den` over the
/// denominator `xden^2 * yden^2`.
proof fn lemma_dist2_shape(o: PointV, dx: int, dy: int, pt: PointV, tn: int, d: int, ll: int)
    requires
        grid_point(o),
        d >= 1,
        ll == dx * dx + dy * dy,
        pt.x.den >= 1,
        pt.y.den >= 1,
        pt.x.num * d == (sx(o) * d + tn * dx) * pt.x.den,
        pt.y.num * d == (sy(o) * d + tn * dy) * pt.y.den,
    ensures
        dist2(o, pt).den == pt.x.den * pt.x.den * (pt.y.den * pt.y.den),
        dist2(o, pt).num * (d * d) == tn * tn * ll * (pt.x.den * pt.x.den * (pt.y.den
            * pt.y.den)),
{
    let kx = pt.x.num - sx(o) * pt.x.den;
    let ky = pt.y.num - sy(o) * pt.y.den;
    let xd = pt.x.den;
    let yd = pt.y.den;
    assert(kx * d == tn * dx * xd) by (nonlinear_arith)
        requires
            pt.x.num * d == (sx(o) * d + tn * dx) * pt.x.den,
            kx == pt.x.num - sx(o) * pt.x.den,
            xd == pt.x.den,
    ;
    assert(ky * d == tn * dy * yd) by (nonlinear_arith)
        requires
            pt.y.num * d == (sy(o) * d + tn * dy) * pt.y.den,
            ky == pt.y.num - sy(o) * pt.y.den,
            yd == pt.y.den,
    ;
    // The exact shape of the squared-distance fraction.
    assert(point_sub(pt, o).x.num == kx && point_sub(pt, o).x.den == xd);
    assert(point_sub(pt, o).y.num == ky && point_sub(pt, o).y.den == yd);
    assert(dist2(o, pt).num == kx * kx * (yd * yd) + ky * ky * (xd * xd));
    assert(dist2(o, pt).den == xd * xd * (yd * yd));
    assert((kx * d) * (kx * d) == (tn * dx * xd) * (tn * dx * xd));
    assert((ky * d) * (ky * d) == (tn * dy * yd) * (tn * dy * yd));
    assert(kx * kx * (d * d) == tn * tn * (dx * dx) * (xd * xd)) by (nonlinear_arith)
        requires
            (kx * d) * (kx * d) == (tn * dx * xd) * (tn * dx * xd),
    ;
    assert(ky * ky * (d * d) == tn * tn * (dy * dy) * (yd * yd)) by (nonlinear_arith)
        requires
            (ky * d) * (ky * d) == (tn * dy * yd) * (tn * dy * yd),
    ;
    let qx2 = kx * kx;
    let qy2 = ky * ky;
    let fx = tn * tn * (dx * dx);
    let fy = tn * tn * (dy * dy);
    assert((qx2 * (yd * yd) + qy2 * (xd * xd)) * (d * d) == qx2 * (d * d) * (yd * yd) + qy2 * (d
        * d) * (xd * xd)) by (nonlinear_arith);
    assert(qx2 * (d * d) * (yd * yd) == fx * (xd * xd) * (yd * yd)) by (nonlinear_arith)
        requires
            qx2 * (d * d) == fx * (xd * xd),
    ;
    assert(qy2 * (d * d) * (xd * xd) == fy * (yd * yd) * (xd * xd)) by (nonlinear_arith)
        requires
            qy2 * (d * d) == fy * (yd * yd),
    ;
    assert(fx * (xd * xd) * (yd * yd) + fy * (yd * yd) * (xd * xd) == tn * tn * ll * (xd * xd
        * (yd * yd))) by (nonlinear_arith)
        requires
            fx == tn * tn * (dx * dx),
            fy == tn * tn * (dy * dy),
            ll == dx * dx + dy * dy,
    ;
    assert((kx * kx * (yd * yd) + ky * ky * (xd * xd)) * (d * d) == tn * tn * ll * (xd * xd * (yd
        * yd)));
}


/// Every endpoint belongs to one of the segments.
proof fn lemma_endpoint_member(segs: Seq<SegV>, k: int)
    requires
        0 <= k < endpoints_v(segs).len(),
    ensures
        exists|i: int| 0 <= i < segs.len() && (endpoints_v(segs)[k] == #[trigger] segs[i].a
            || endpoints_v(segs)[k] == segs[i].b),
    decreases segs.len(),
{
    let eps = endpoints_v(segs);
    if k < eps.len() - 2 {
        lemma_endpoint_member(segs.drop_last(), k);
        let i = choose|i: int| 0 <= i < segs.drop_last().len() && (endpoints_v(
            segs.drop_last())[k] == #[trigger] segs.drop_last()[i].a || endpoints_v(
            segs.drop_last())[k] == segs.drop_last()[i].b);
        assert(eps[k] == endpoints_v(segs.drop_last())[k]);
        assert(segs[i] == segs.drop_last()[i]);
    } else {
        assert(eps[k] == segs[segs.len() - 1].a || eps[k] == segs[segs.len() - 1].b);
    }
}

/// Sorting keeps the length (independently of any bound on the tags).
proof fn lemma_sort_len(s: Seq<TaggedV>)
    ensures
        sort_by_angle(s).len() == s.len(),
    decreases s.len(),
{
    if s.len() > 0 {
        lemma_sort_len(s.drop_last());
        lemma_insert_len(sort_by_angle(s.drop_last()), s.last());
    }
}

/// Insertion adds exactly one element.
proof fn lemma_insert_len(s: Seq<TaggedV>, x: TaggedV)
    ensures
        insert_by_angle(s, x).len() == s.len() + 1,
    decreases s.len(),
{
    if s.len() > 0 && !angle_le(s.last().dir, x.dir) {
        lemma_insert_len(s.drop_last(), x);
    }
}

/// Deduplication of a nonempty sequence is nonempty.
proof fn lemma_dedup_nonempty(s: Seq<TaggedV>)
    requires
        s.len() >= 1,
    ensures
        dedup_adjacent(s).len() >= 1,
    decreases s.len(),
{
    if s.len() > 1 {
        lemma_dedup_nonempty(s.drop_last());
    }
}

/// Once some segment reports a crossing for a ray, the nearest-hit scan
/// over a list containing it reports a hit.
proof fn lemma_nearest_some(ox: int, oy: int, dx: int, dy: int, segs: Seq<SegV>, k: int, n: int)
    requires
        0 <= k < n <= segs.len(),
        crossing_param_v(ox, oy, dx, dy, segs[k], false) is Some,
    ensures
        nearest_hit_v(ox, oy, dx, dy, segs, n) is Some,
    decreases n,
{
    if k < n - 1 {
        lemma_nearest_some(ox, oy, dx, dy, segs, k, n - 1);
    }
}

/// The direct pass records one hit for every candidate whose ray hits
/// something.
proof fn lemma_direct_pass_len(o: PointV, cands: Seq<TaggedV>, segs: Seq<SegV>)
    requires
        forall|i: int| 0 <= i < cands.len() ==> nearest_hit_v(
            sx(o), sy(o), (#[trigger] cands[i]).dir.x, cands[i].dir.y, segs,
            segs.len() as int) is Some,
    ensures
        direct_pass_v(o, cands, segs).0.len() == cands.len(),
    decreases cands.len(),
{
    if cands.len() > 0 {
        assert(forall|i: int| 0 <= i < cands.drop_last().len() ==> cands.drop_last()[i]
            == cands[i]);
        lemma_direct_pass_len(o, cands.drop_last(), segs);
        assert(cands[cands.len() - 1] == cands.last());
    }
}

/// Law: with at least one obstacle segment and the origin off every
/// segment's carrier line, the visibility computation returns at least
/// one point (the ray toward any endpoint crosses that endpoint's own
/// segment).
pub proof fn lemma_visibility_nonempty(o: PointV, segs: Seq<SegV>)
    requires
        grid_point(o),
        segs.len() >= 1,
        forall|i: int| 0 <= i < segs.len() ==> seg_wf(#[trigger] segs[i]),
        forall|i: int| 0 <= i < segs.len() ==> off_carrier_line(o, #[trigger] segs[i]),
    ensures
        spec_visibility_points(o, segs).len() >= 1,
{
    let eps = endpoints_v(segs);
    let t = tagged_of(o, eps);
    let sorted = sort_by_angle(t);
    let cands = candidates_v(o, segs);
    lemma_endpoints_grid(segs);
    lemma_tagged_of_shape(o, eps);
    lemma_sort_len(t);
    lemma_sort_members(t);
    lemma_dedup_nonempty(sorted);
    lemma_dedup_members(sorted);
    assert(cands.len() >= 1);
    assert forall|i: int| 0 <= i < cands.len() implies nearest_hit_v(
        sx(o), sy(o), (#[trigger] cands[i]).dir.x, cands[i].dir.y, segs,
        segs.len() as int) is Some by {
        let k1 = choose|k1: int| 0 <= k1 < sorted.len() && sorted[k1] == cands[i];
        let k2 = choose|k2: int| 0 <= k2 < t.len() && t[k2] == sorted[k1];
        assert(t[k2] == (TaggedV {
            dir: DirV { x: sx(eps[k2]) - sx(o), y: sy(eps[k2]) - sy(o) },
            pt: eps[k2],
        }));
        lemma_endpoint_member(segs, k2);
        let si = choose|si: int| 0 <= si < segs.len() && (eps[k2] == #[trigger] segs[si].a
            || eps[k2] == segs[si].b);
        lemma_endpoint_ray_hits(o, segs[si], eps[k2]);
        lemma_nearest_some(
            sx(o), sy(o), cands[i].dir.x, cands[i].dir.y, segs, si, segs.len() as int);
    }
    lemma_direct_pass_len(o, cands, segs);
    let passes = direct_pass_v(o, cands, segs);
    let all = passes.0 + extra_pass_v(o, passes.1, segs);
    assert(all.len() >= 1);
    lemma_sort_len(all);
    assert(points_of(sort_by_angle(all)).len() == sort_by_angle(all).len());
}


/// The squared distance between well-formed points is a well-formed
/// rational.
proof fn lemma_dist2_wf(o: PointV, p: PointV)
    requires
        point_wf(o),
        point_wf(p),
    ensures
        rat_wf(dist2(o, p)),
{
    assert(dist2(o, p).den >= 1) by (nonlinear_arith)
        requires
            dist2(o, p).den == (p.x.den * o.x.den) * (p.x.den * o.x.den) * ((p.y.den * o.y.den)
                * (p.y.den * o.y.den)),
            p.x.den >= 1,
            o.x.den >= 1,
            p.y.den >= 1,
            o.y.den >= 1,
    ;
}

/// Law: the nearest-hit scan returns a hit at minimum squared Euclidean
/// distance from the origin among every crossing that any of the
/// scanned segments reports for the ray; and it reports nothing only
/// when no segment crosses the ray.
pub proof fn lemma_nearest_minimal(o: PointV, dx: int, dy: int, segs: Seq<SegV>, n: int)
    requires
        grid_point(o),
        !(dx == 0 && dy == 0),
        n <= segs.len(),
    ensures
        (match nearest_hit_v(sx(o), sy(o), dx, dy, segs, n) {
            Option::Some((pt, tn, d, idx)) => forall|j: int| 0 <= j < n
                ==> (match crossing_param_v(sx(o), sy(o), dx, dy, #[trigger] segs[j], false) {
                    Option::Some(hit) => rat_le(dist2(o, pt), dist2(o, hit.0)),
                    Option::None => true,
                }),
            Option::None => forall|j: int| 0 <= j < n ==> crossing_param_v(
                sx(o), sy(o), dx, dy, #[trigger] segs[j], false) is None,
        }),
    decreases n,
{
    if n > 0 {
        lemma_nearest_minimal(o, dx, dy, segs, n - 1);
        let prev = nearest_hit_v(sx(o), sy(o), dx, dy, segs, n - 1);
        match crossing_param_v(sx(o), sy(o), dx, dy, segs[n - 1], false) {
            Option::None => {},
            Option::Some((ptn, tnn, dn)) => {
                lemma_crossing_props(sx(o), sy(o), dx, dy, segs[n - 1], false, ptn, tnn, dn);
                lemma_dist2_wf(o, ptn);
                match prev {
                    Option::None => {},
                    Option::Some((pp, ptn_, pd, pidx)) => {
                        lemma_nearest_from_crossing(sx(o), sy(o), dx, dy, segs, n - 1);
                        lemma_crossing_props(
                            sx(o), sy(o), dx, dy, segs[pidx], false, pp, ptn_, pd);
                        lemma_dist2_wf(o, pp);
                        lemma_param_order_is_distance_order(
                            o, dx, dy, segs[n - 1], segs[pidx], ptn, tnn, dn, pp, ptn_, pd);
                        if tnn * pd < ptn_ * dn {
                            // The new crossing displaces the incumbent:
                            // it is strictly nearer, so it is no farther
                            // than anything the incumbent was no farther
                            // than.
                            assert(rat_lt(dist2(o, ptn), dist2(o, pp)));
                            assert forall|j: int| 0 <= j < n implies (match crossing_param_v(
                                sx(o), sy(o), dx, dy, #[trigger] segs[j], false) {
                                Option::Some(hit) => rat_le(dist2(o, ptn), dist2(o, hit.0)),
                                Option::None => true,
                            }) by {
                                if j < n - 1 {
                                    match crossing_param_v(
                                        sx(o), sy(o), dx, dy, segs[j], false) {
                                        Option::Some(hit) => {
                                            let (ptj, tnj, dj) = hit;
                                            lemma_crossing_props(
                                                sx(o), sy(o), dx, dy, segs[j], false, ptj, tnj,
                                                dj);
                                            lemma_dist2_wf(o, ptj);
                                            lemma_rat_le_trans(
                                                dist2(o, ptn), dist2(o, pp), dist2(o, ptj));
                                        },
                                        Option::None => {},
                                    }
                                }
                            }
                        } else {
                            // The incumbent stays: it is no farther than
                            // the new crossing either.
                            assert(rat_le(dist2(o, pp), dist2(o, ptn))) by {
                                assert(!rat_lt(dist2(o, ptn), dist2(o, pp)));
                            }
                        }
                    },
                }
            },
        }
    }
}

} // verus!
