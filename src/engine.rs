//! The smoothing pass: each point's intensity becomes the mean of the nine
//! intensities found at its 3x3 neighbourhood, looked up by exact coordinate
//! equality among the original points, with a floor below which it is zero.
use vstd::prelude::*;

use crate::binary32::{float_eq, float_lt, less_than, same_value};
use crate::codec::{
    decode, encode, encoding, is_framed, lemma_encoding_len, lemma_encoding_record,
    lemma_record_round_trip, point_at, records, Point,
};

verus! {

/// The bit pattern of the binary32 value nearest 0.02: a mean below it
/// becomes zero.
pub const FLOOR_BITS: u32 = 0x3ca3_d70a;

/// The translated coordinates at which the neighbours of a point at `(x, y)`
/// are looked up: `xs[a]` holds `x - (a - 1)` and `ys[b]` holds `y - (b - 1)`,
/// each as computed in binary32 arithmetic.
#[derive(Clone, Copy, Debug)]
pub struct Neighbors {
    pub xs: [u32; 3],
    pub ys: [u32; 3],
}

/// `p` stands at `(x, y)` under IEEE-754 equality.
pub open spec fn at_position(p: Point, x: u32, y: u32) -> bool {
    float_eq(p.x, x) && float_eq(p.y, y)
}

/// Some point stands at `(x, y)`.
pub open spec fn occupied(ps: Seq<Point>, x: u32, y: u32) -> bool {
    exists|m: int| 0 <= m < ps.len() && #[trigger] at_position(ps[m], x, y)
}

/// The first index from `i` on whose point stands at `(x, y)`.
pub open spec fn first_hit_from(ps: Seq<Point>, x: u32, y: u32, i: int) -> Option<int>
    decreases ps.len() - i,
{
    if 0 <= i < ps.len() {
        if at_position(ps[i], x, y) {
            Some(i)
        } else {
            first_hit_from(ps, x, y, i + 1)
        }
    } else {
        None
    }
}

/// The first index whose point stands at `(x, y)`.
pub open spec fn first_hit(ps: Seq<Point>, x: u32, y: u32) -> Option<int> {
    first_hit_from(ps, x, y, 0)
}

/// What the position `(x, y)` adds to a neighbourhood: the intensity of the
/// first point there, or `+0.0` where there is none.
pub open spec fn contribution(ps: Seq<Point>, x: u32, y: u32) -> u32 {
    match first_hit(ps, x, y) {
        Some(k) => ps[k].intensity,
        None => 0,
    }
}

/// The nine contributions around one point, offset `(dx, dy)` at index
/// `3 * (dx + 1) + (dy + 1)`.
pub open spec fn neighborhood_of(ps: Seq<Point>, n: Neighbors) -> Seq<u32> {
    Seq::new(9, |j: int| contribution(ps, n.xs@[j / 3], n.ys@[j % 3]))
}

/// A mean below the floor becomes `+0.0`; any other value, NaN included,
/// is kept.
pub open spec fn floored(m: u32) -> u32 {
    if float_lt(m, FLOOR_BITS) {
        0
    } else {
        m
    }
}

/// The points with their intensities replaced by the floored means.
pub open spec fn smoothed(ps: Seq<Point>, means: Seq<u32>) -> Seq<Point> {
    Seq::new(ps.len(), |k: int| Point { x: ps[k].x, y: ps[k].y, intensity: floored(means[k]) })
}

/// The ASCII bytes of `Malformed data`.
pub open spec fn sentinel() -> Seq<u8> {
    seq![77u8, 97, 108, 102, 111, 114, 109, 101, 100, 32, 100, 97, 116, 97]
}

/// The index of the first point that stands at `(x, y)`.
pub fn find_position(points: &Vec<Point>, x: u32, y: u32) -> (r: Option<usize>)
    ensures
        match r {
            Some(k) => k < points@.len() && first_hit(points@, x, y) == Some(k as int),
            None => first_hit(points@, x, y) == None::<int>,
        },
{
    let mut i: usize = 0;
    while i < points.len()
        invariant
            i <= points@.len(),
            first_hit(points@, x, y) == first_hit_from(points@, x, y, i as int),
        decreases points@.len() - i,
    {
        let p = points[i];
        if same_value(p.x, x) && same_value(p.y, y) {
            return Some(i);
        }
        i = i + 1;
    }
    None
}

/// The nine contributions of the neighbourhood that `n` describes, read from
/// the intensities of `points`.
pub fn neighborhood(points: &Vec<Point>, n: &Neighbors) -> (r: Vec<u32>)
    ensures
        r@ == neighborhood_of(points@, *n),
{
    let mut r: Vec<u32> = Vec::with_capacity(9);
    let mut j: usize = 0;
    while j < 9
        invariant
            j <= 9,
            r@ =~= neighborhood_of(points@, *n).take(j as int),
        decreases 9 - j,
    {
        let c = match find_position(points, n.xs[j / 3], n.ys[j % 3]) {
            Some(k) => points[k].intensity,
            None => 0,
        };
        r.push(c);
        j = j + 1;
        assert(r@ =~= neighborhood_of(points@, *n).take(j as int));
    }
    assert(r@ =~= neighborhood_of(points@, *n));
    r
}

/// Applies the floor to a mean.
pub fn floor_clamp(mean: u32) -> (r: u32)
    ensures
        r == floored(mean),
{
    if less_than(mean, FLOOR_BITS) {
        0
    } else {
        mean
    }
}

/// Gives each point the floored mean at its index; coordinates are kept.
/// Every mean was computed before any point is changed.
pub fn commit(points: &Vec<Point>, means: &Vec<u32>) -> (r: Vec<Point>)
    requires
        means@.len() == points@.len(),
    ensures
        r@ == smoothed(points@, means@),
{
    let mut r: Vec<Point> = Vec::with_capacity(points.len());
    let mut k: usize = 0;
    while k < points.len()
        invariant
            k <= points@.len(),
            means@.len() == points@.len(),
            r@ =~= smoothed(points@, means@).take(k as int),
        decreases points@.len() - k,
    {
        let p = points[k];
        r.push(Point { x: p.x, y: p.y, intensity: floor_clamp(means[k]) });
        k = k + 1;
        assert(r@ =~= smoothed(points@, means@).take(k as int));
    }
    assert(r@ =~= smoothed(points@, means@));
    r
}

/// The reply to a body whose length is not a multiple of the record length.
pub fn malformed_reply() -> (r: Vec<u8>)
    ensures
        r@ == sentinel(),
{
    let r: Vec<u8> = vec![77, 97, 108, 102, 111, 114, 109, 101, 100, 32, 100, 97, 116, 97];
    assert(r@ =~= sentinel());
    r
}

proof fn lemma_first_hit_found(ps: Seq<Point>, x: u32, y: u32, i: int, m: int)
    requires
        0 <= i <= m < ps.len(),
        at_position(ps[m], x, y),
    ensures
        first_hit_from(ps, x, y, i) matches Some(k) && i <= k <= m && at_position(ps[k], x, y),
    decreases m - i,
{
    if !at_position(ps[i], x, y) {
        lemma_first_hit_found(ps, x, y, i + 1, m);
    }
}

/// In a field where every point has intensity `v` and each of the nine
/// positions that `n` names holds a point, all nine contributions are `v`;
/// and a `v` not below the floor is kept by the floor.
pub proof fn lemma_uniform_field(ps: Seq<Point>, n: Neighbors, v: u32)
    requires
        forall|k: int| 0 <= k < ps.len() ==> #[trigger] ps[k].intensity == v,
        forall|a: int, b: int|
            0 <= a < 3 && 0 <= b < 3 ==> #[trigger] occupied(ps, n.xs@[a], n.ys@[b]),
    ensures
        neighborhood_of(ps, n) == Seq::new(9, |j: int| v),
        !float_lt(v, FLOOR_BITS) ==> floored(v) == v,
{
    assert forall|j: int| 0 <= j < 9 implies #[trigger] neighborhood_of(ps, n)[j] == v by {
        let (x, y) = (n.xs@[j / 3], n.ys@[j % 3]);
        assert(occupied(ps, x, y));
        let m = choose|m: int| 0 <= m < ps.len() && #[trigger] at_position(ps[m], x, y);
        lemma_first_hit_found(ps, x, y, 0, m);
    }
    assert(neighborhood_of(ps, n) =~= Seq::new(9, |j: int| v));
}

/// `n` holds what `shift` returned for the coordinates of `p` and the
/// offsets -1, 0 and 1.
pub open spec fn shifted_by<S: Fn(u32, i32) -> u32>(shift: S, p: Point, n: Neighbors) -> bool {
    forall|a: int|
        0 <= a < 3 ==> {
            &&& shift.ensures((p.x, (a - 1) as i32), #[trigger] n.xs@[a])
            &&& shift.ensures((p.y, (a - 1) as i32), n.ys@[a])
        }
}

/// One smoothing pass over `ps` as driven by the two closures: `shifts[k]`
/// is what `shift` gave for point `k`, `sent[k]` the contributions handed to
/// `mean` for it (all read from the original points), and `means[k]` what
/// `mean` returned.
pub open spec fn pass_by<S: Fn(u32, i32) -> u32, M: Fn(Vec<u32>) -> u32>(
    shift: S,
    mean: M,
    ps: Seq<Point>,
    shifts: Seq<Neighbors>,
    sent: Seq<Vec<u32>>,
    means: Seq<u32>,
) -> bool {
    &&& shifts.len() == ps.len()
    &&& sent.len() == ps.len()
    &&& means.len() == ps.len()
    &&& forall|k: int|
        0 <= k < ps.len() ==> {
            &&& shifted_by(shift, ps[k], #[trigger] shifts[k])
            &&& sent[k]@ == neighborhood_of(ps, shifts[k])
            &&& mean.ensures((sent[k],), means[k])
        }
}

/// Smoothing keeps the frame: whatever the means, the encoded result of a
/// framed body is as long as the body, and the coordinate bytes of every
/// record are those of the body.
pub proof fn lemma_smoothing_keeps_frame(body: Seq<u8>, means: Seq<u32>)
    requires
        is_framed(body),
        means.len() == records(body).len(),
    ensures
        encoding(smoothed(records(body), means)).len() == body.len(),
        forall|k: int|
            0 <= k < body.len() / 12 ==> #[trigger] encoding(smoothed(records(body), means)).subrange(
                12 * k,
                12 * k + 8,
            ) == body.subrange(12 * k, 12 * k + 8),
{
    let ps = smoothed(records(body), means);
    let e = encoding(ps);
    lemma_encoding_len(ps);
    assert forall|k: int| 0 <= k < body.len() / 12 implies #[trigger] e.subrange(12 * k, 12 * k + 8)
        == body.subrange(12 * k, 12 * k + 8) by {
        lemma_encoding_record(ps, k);
        lemma_record_round_trip(body, 12 * k);
        let q = point_at(body, 12 * k);
        assert(ps[k].x == q.x && ps[k].y == q.y);
        assert(e.subrange(12 * k, 12 * k + 8) =~= e.subrange(12 * k, 12 * k + 12).subrange(0, 8));
        assert(body.subrange(12 * k, 12 * k + 8) =~= body.subrange(12 * k, 12 * k + 12).subrange(
            0,
            8,
        ));
    }
}

/// Answers one request body. A body whose length is not a multiple of the
/// record length gets the `Malformed data` reply. Otherwise every point gets
/// the floored mean of its neighbourhood, where `shift(c, d)` yields the bit
/// pattern of `c - d` and `mean(cs)` that of the mean of the nine values in
/// `cs`; all lookups read the original intensities.
pub fn respond<S, M>(body: &Vec<u8>, shift: S, mean: M) -> (r: Vec<u8>) where
    S: Fn(u32, i32) -> u32,
    M: Fn(Vec<u32>) -> u32,

    requires
        forall|c: u32, d: i32| shift.requires((c, d)),
        forall|cs: Vec<u32>| mean.requires((cs,)),
    ensures
        !is_framed(body@) ==> r@ == sentinel(),
        is_framed(body@) ==> r@.len() == body@.len(),
        is_framed(body@) ==> forall|k: int|
            0 <= k < body@.len() / 12 ==> #[trigger] r@.subrange(12 * k, 12 * k + 8)
                == body@.subrange(12 * k, 12 * k + 8),
        is_framed(body@) ==> exists|shifts: Seq<Neighbors>, sent: Seq<Vec<u32>>, means: Seq<u32>|
            {
                &&& pass_by(shift, mean, records(body@), shifts, sent, means)
                &&& r@ == encoding(smoothed(records(body@), means))
            },
{
    let points = match decode(body) {
        Ok(ps) => ps,
        Err(_) => {
            return malformed_reply();
        },
    };
    let ghost ps = points@;
    let mut means: Vec<u32> = Vec::with_capacity(points.len());
    let ghost mut shifts: Seq<Neighbors> = Seq::empty();
    let ghost mut sent: Seq<Vec<u32>> = Seq::empty();
    let mut k: usize = 0;
    while k < points.len()
        invariant
            ps == points@,
            k <= ps.len(),
            forall|c: u32, d: i32| shift.requires((c, d)),
            forall|cs: Vec<u32>| mean.requires((cs,)),
            ps == records(body@),
            shifts.len() == k,
            sent.len() == k,
            means@.len() == k,
            forall|i: int|
                0 <= i < k ==> {
                    &&& shifted_by(shift, ps[i], #[trigger] shifts[i])
                    &&& sent[i]@ == neighborhood_of(ps, shifts[i])
                    &&& mean.ensures((sent[i],), means@[i])
                },
        decreases ps.len() - k,
    {
        let p = points[k];
        let n = Neighbors {
            xs: [shift(p.x, -1), shift(p.x, 0), shift(p.x, 1)],
            ys: [shift(p.y, -1), shift(p.y, 0), shift(p.y, 1)],
        };
        assert(shifted_by(shift, p, n));
        let cs = neighborhood(&points, &n);
        let ghost given = cs;
        let m = mean(cs);
        means.push(m);
        proof {
            shifts = shifts.push(n);
            sent = sent.push(given);
        }
        k = k + 1;
    }
    assert(pass_by(shift, mean, ps, shifts, sent, means@));
    let out = commit(&points, &means);
    proof {
        lemma_smoothing_keeps_frame(body@, means@);
        assert(out@.len() * 12 == body.len());
    }
    encode(&out)
}

} // verus!
