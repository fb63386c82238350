//! The wire format: a body is a run of 12-byte records, one per point, each
//! holding x, y and intensity as little-endian 32-bit words.
use vstd::prelude::*;

verus! {

/// Bytes in the record of one point.
pub const RECORD_LEN: usize = 12;

/// One point; each field is the bit pattern of an IEEE-754 binary32 value.
#[derive(Clone, Copy, Debug, PartialEq, Eq, Structural)]
pub struct Point {
    pub x: u32,
    pub y: u32,
    pub intensity: u32,
}

/// The body's length is not a multiple of the record length.
#[derive(Clone, Copy, Debug, PartialEq, Eq, Structural)]
pub struct FramingError {
    pub len: usize,
}

/// The word stored little-endian in `b[at..at + 4]`.
pub open spec fn word_at(b: Seq<u8>, at: int) -> u32 {
    (b[at] as int + b[at + 1] as int * 0x100 + b[at + 2] as int * 0x1_0000 + b[at + 3] as int
        * 0x100_0000) as u32
}

/// The four little-endian bytes of a word.
pub open spec fn word_bytes(w: u32) -> Seq<u8> {
    seq![
        (w % 0x100) as u8,
        (w / 0x100 % 0x100) as u8,
        (w / 0x1_0000 % 0x100) as u8,
        (w / 0x100_0000) as u8,
    ]
}

/// The point whose record starts at `b[at]`.
pub open spec fn point_at(b: Seq<u8>, at: int) -> Point {
    Point { x: word_at(b, at), y: word_at(b, at + 4), intensity: word_at(b, at + 8) }
}

/// The record of one point.
pub open spec fn point_bytes(p: Point) -> Seq<u8> {
    word_bytes(p.x) + word_bytes(p.y) + word_bytes(p.intensity)
}

pub open spec fn is_framed(b: Seq<u8>) -> bool {
    b.len() % 12 == 0
}

/// The points of a framed body, one per record, in order.
pub open spec fn records(b: Seq<u8>) -> Seq<Point> {
    Seq::new(b.len() / 12, |k: int| point_at(b, 12 * k))
}

/// The records of `ps`, concatenated in order.
pub open spec fn encoding(ps: Seq<Point>) -> Seq<u8>
    decreases ps.len(),
{
    if ps.len() == 0 {
        Seq::empty()
    } else {
        encoding(ps.drop_last()) + point_bytes(ps.last())
    }
}

fn read_word(b: &Vec<u8>, at: usize) -> (w: u32)
    requires
        at + 4 <= b.len(),
    ensures
        w == word_at(b@, at as int),
{
    let b0 = b[at] as u32;
    let b1 = b[at + 1] as u32;
    let b2 = b[at + 2] as u32;
    let b3 = b[at + 3] as u32;
    assert(b0 + b1 * 0x100 + b2 * 0x1_0000 + b3 * 0x100_0000 <= 0xffff_ffff) by (nonlinear_arith)
        requires
            b0 <= 0xff,
            b1 <= 0xff,
            b2 <= 0xff,
            b3 <= 0xff,
    ;
    b0 + b1 * 0x100 + b2 * 0x1_0000 + b3 * 0x100_0000
}

fn push_word(out: &mut Vec<u8>, w: u32)
    ensures
        final(out)@ == old(out)@ + word_bytes(w),
{
    out.push((w % 0x100) as u8);
    out.push((w / 0x100 % 0x100) as u8);
    out.push((w / 0x1_0000 % 0x100) as u8);
    out.push((w / 0x100_0000) as u8);
    assert(final(out)@ =~= old(out)@ + word_bytes(w));
}

/// Splits a body into its points. Fails, reading nothing, when the length is
/// not a multiple of the record length.
pub fn decode(body: &Vec<u8>) -> (r: Result<Vec<Point>, FramingError>)
    ensures
        match r {
            Ok(ps) => is_framed(body@) && ps@ == records(body@),
            Err(e) => !is_framed(body@) && e == (FramingError { len: body@.len() as usize }),
        },
{
    if body.len() % RECORD_LEN != 0 {
        return Err(FramingError { len: body.len() });
    }
    let n: usize = body.len() / RECORD_LEN;
    let mut ps: Vec<Point> = Vec::with_capacity(n);
    let mut k: usize = 0;
    let mut at: usize = 0;
    while k < n
        invariant
            body.len() == 12 * n,
            k <= n,
            at == 12 * k,
            ps@ =~= records(body@).take(k as int),
        decreases n - k,
    {
        let p = Point {
            x: read_word(body, at),
            y: read_word(body, at + 4),
            intensity: read_word(body, at + 8),
        };
        ps.push(p);
        k = k + 1;
        at = at + RECORD_LEN;
        assert(ps@ =~= records(body@).take(k as int));
    }
    assert(ps@ =~= records(body@));
    Ok(ps)
}

/// The records of `points`, concatenated in order.
pub fn encode(points: &Vec<Point>) -> (r: Vec<u8>)
    requires
        points@.len() * 12 <= usize::MAX,
    ensures
        r@ == encoding(points@),
{
    let mut out: Vec<u8> = Vec::new();
    let mut k: usize = 0;
    while k < points.len()
        invariant
            k <= points@.len(),
            out@ == encoding(points@.take(k as int)),
        decreases points@.len() - k,
    {
        let p = points[k];
        push_word(&mut out, p.x);
        push_word(&mut out, p.y);
        push_word(&mut out, p.intensity);
        proof {
            assert(points@.take(k + 1).drop_last() =~= points@.take(k as int));
            assert(out@ =~= encoding(points@.take(k as int)) + point_bytes(p));
        }
        k = k + 1;
    }
    assert(points@.take(points@.len() as int) =~= points@);
    out
}

proof fn lemma_word_from_bytes(b0: u8, b1: u8, b2: u8, b3: u8)
    ensures
        ({
            let w = (b0 as int + b1 as int * 0x100 + b2 as int * 0x1_0000 + b3 as int * 0x100_0000);
            &&& 0 <= w <= 0xffff_ffff
            &&& w % 0x100 == b0
            &&& w / 0x100 % 0x100 == b1
            &&& w / 0x1_0000 % 0x100 == b2
            &&& w / 0x100_0000 == b3
        }),
{
    let w = (b0 as int + b1 as int * 0x100 + b2 as int * 0x1_0000 + b3 as int * 0x100_0000);
    assert(0 <= w <= 0xffff_ffff) by (nonlinear_arith)
        requires
            w == (b0 as int + b1 as int * 0x100 + b2 as int * 0x1_0000 + b3 as int * 0x100_0000),
            b0 <= 0xff,
            b1 <= 0xff,
            b2 <= 0xff,
            b3 <= 0xff,
    ;
    assert(w % 0x100 == b0 && w / 0x100 == b1 as int + b2 as int * 0x100 + b3 as int * 0x1_0000)
        by (nonlinear_arith)
        requires
            w == (b0 as int + b1 as int * 0x100 + b2 as int * 0x1_0000 + b3 as int * 0x100_0000),
            0 <= b0 <= 0xff,
    ;
    assert(w / 0x100 % 0x100 == b1 && w / 0x1_0000 == b2 as int + b3 as int * 0x100)
        by (nonlinear_arith)
        requires
            w / 0x100 == b1 as int + b2 as int * 0x100 + b3 as int * 0x1_0000,
            0 <= b1 <= 0xff,
            w >= 0,
    ;
    assert(w / 0x1_0000 % 0x100 == b2 && w / 0x100_0000 == b3) by (nonlinear_arith)
        requires
            w / 0x1_0000 == b2 as int + b3 as int * 0x100,
            0 <= b2 <= 0xff,
            w >= 0,
    ;
}

proof fn lemma_bytes_from_word(w: u32)
    ensures
        word_at(word_bytes(w), 0) == w,
{
    let bs = word_bytes(w);
    let v = w as int;
    assert(v == v % 0x100 + (v / 0x100 % 0x100) * 0x100 + (v / 0x1_0000 % 0x100) * 0x1_0000 + (v
        / 0x100_0000) * 0x100_0000) by (nonlinear_arith)
        requires
            0 <= v <= 0xffff_ffff,
    ;
}

/// A record's bytes, read as words and written back, are the same bytes.
pub(crate) proof fn lemma_record_round_trip(b: Seq<u8>, at: int)
    requires
        0 <= at,
        at + 12 <= b.len(),
    ensures
        point_bytes(point_at(b, at)) == b.subrange(at, at + 12),
{
    lemma_word_from_bytes(b[at], b[at + 1], b[at + 2], b[at + 3]);
    lemma_word_from_bytes(b[at + 4], b[at + 5], b[at + 6], b[at + 7]);
    lemma_word_from_bytes(b[at + 8], b[at + 9], b[at + 10], b[at + 11]);
    assert(point_bytes(point_at(b, at)) =~= b.subrange(at, at + 12));
}

/// The encoding of `ps` is 12 bytes for each point.
pub proof fn lemma_encoding_len(ps: Seq<Point>)
    ensures
        encoding(ps).len() == 12 * ps.len(),
    decreases ps.len(),
{
    if ps.len() > 0 {
        lemma_encoding_len(ps.drop_last());
    }
}

/// Bytes `12 * k .. 12 * k + 12` of the encoding of `ps` are the record of
/// `ps[k]`.
pub proof fn lemma_encoding_record(ps: Seq<Point>, k: int)
    requires
        0 <= k < ps.len(),
    ensures
        encoding(ps).subrange(12 * k, 12 * k + 12) == point_bytes(ps[k]),
    decreases ps.len(),
{
    let front = ps.drop_last();
    lemma_encoding_len(front);
    if k == ps.len() - 1 {
        assert(encoding(ps).subrange(12 * k, 12 * k + 12) =~= point_bytes(ps[k]));
    } else {
        lemma_encoding_record(front, k);
        assert(encoding(ps).subrange(12 * k, 12 * k + 12) =~= encoding(front).subrange(
            12 * k,
            12 * k + 12,
        ));
    }
}

/// Decoding an encoding gives back the points.
pub proof fn lemma_decode_encoding(ps: Seq<Point>)
    ensures
        is_framed(encoding(ps)),
        records(encoding(ps)) == ps,
{
    let b = encoding(ps);
    lemma_encoding_len(ps);
    assert forall|k: int| 0 <= k < ps.len() implies #[trigger] point_at(b, 12 * k) == ps[k] by {
        lemma_encoding_record(ps, k);
        let r = b.subrange(12 * k, 12 * k + 12);
        assert(r =~= point_bytes(ps[k]));
        assert(r.subrange(0, 4) =~= word_bytes(ps[k].x));
        assert(r.subrange(4, 8) =~= word_bytes(ps[k].y));
        assert(r.subrange(8, 12) =~= word_bytes(ps[k].intensity));
        lemma_bytes_from_word(ps[k].x);
        lemma_bytes_from_word(ps[k].y);
        lemma_bytes_from_word(ps[k].intensity);
        assert(word_at(b, 12 * k) == word_at(word_bytes(ps[k].x), 0));
        assert(word_at(b, 12 * k + 4) == word_at(word_bytes(ps[k].y), 0));
        assert(word_at(b, 12 * k + 8) == word_at(word_bytes(ps[k].intensity), 0));
    }
    assert(records(b) =~= ps);
}

/// Encoding the points of a framed body gives back the body.
pub proof fn lemma_encode_records(b: Seq<u8>)
    requires
        is_framed(b),
    ensures
        encoding(records(b)) == b,
{
    let ps = records(b);
    let e = encoding(ps);
    lemma_encoding_len(ps);
    assert forall|i: int| 0 <= i < b.len() implies e[i] == b[i] by {
        let k = i / 12;
        lemma_encoding_record(ps, k);
        lemma_record_round_trip(b, 12 * k);
        assert(e[i] == e.subrange(12 * k, 12 * k + 12)[i - 12 * k]);
        assert(b[i] == b.subrange(12 * k, 12 * k + 12)[i - 12 * k]);
    }
    assert(e =~= b);
}

} // verus!
