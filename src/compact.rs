//! The compact byte format of breakpoint curves: a tag byte 1, the first
//! and last domain value as little-endian single-precision floats, a point
//! count, then one quantized (domain, range) byte pair per point.

use vstd::prelude::*;
use crate::canonical::{x_ok, y_ok, ONE};
use crate::curve::{valid_points, Curve, Tup};
use crate::float_bits::{f32_bits, f32_bits_of, f32_ok, f32_raw, f32_value};
use crate::irregular_dynamic::{prepared, IrregularDynamicCurve};
use crate::simplification::drop_rounds;

verus! {

/// `(v - lo) / (hi - lo) * 255`, rounded to the nearest integer, halves up.
pub open spec fn quantize(v: int, lo: int, hi: int) -> int {
    ((v - lo) * 510 + (hi - lo)) / (2 * (hi - lo))
}

/// The four little-endian bytes of a 32-bit value.
pub open spec fn le_bytes(b: int) -> Seq<u8> {
    seq![(b % 256) as u8, ((b / 256) % 256) as u8, ((b / 65536) % 256) as u8, ((b / 16777216) % 256) as u8]
}

/// The 32-bit value of four little-endian bytes at `off`.
pub open spec fn le_value(s: Seq<u8>, off: int) -> int {
    s[off] + 256 * s[off + 1] + 65536 * s[off + 2] + 16777216 * s[off + 3]
}

/// The quantized byte pairs of the points.
pub open spec fn point_bytes(p: Seq<Tup>) -> Seq<u8> {
    let lo = p[0].x as int;
    let hi = p[p.len() - 1].x as int;
    Seq::new(
        2 * p.len(),
        |j: int|
            if j % 2 == 0 {
                quantize(p[j / 2].x as int, lo, hi) as u8
            } else {
                quantize(p[j / 2].y as int, 0, ONE as int) as u8
            },
    )
}

/// The encoding of a breakpoint sequence.
pub open spec fn compact_bytes(p: Seq<Tup>) -> Seq<u8> {
    seq![1u8] + le_bytes(f32_bits_of(p[0].x as int)) + le_bytes(f32_bits_of(p[p.len() - 1].x as int)) + seq![
        p.len() as u8,
    ] + point_bytes(p)
}

/// Domain value of a quantized byte.
pub open spec fn dequant_x(xb: int, lo: int, hi: int) -> int {
    lo + xb * (hi - lo) / 255
}

/// Range value of a quantized byte.
pub open spec fn dequant_y(yb: int) -> int {
    yb * ONE / 255
}

/// The points of the first `i` byte pairs, a pair dropped where its domain
/// byte repeats the one before it.
pub open spec fn decoded_prefix(b: Seq<u8>, i: int) -> Seq<Tup>
    decreases i,
{
    if i <= 0 {
        Seq::empty()
    } else {
        let r = decoded_prefix(b, i - 1);
        let xb = b[10 + 2 * (i - 1)];
        if i > 1 && xb == b[10 + 2 * (i - 2)] {
            r
        } else {
            let lo = f32_raw(le_value(b, 1));
            let hi = f32_raw(le_value(b, 5));
            r.push(
                Tup {
                    x: dequant_x(xb as int, lo, hi) as i64,
                    y: dequant_y(b[11 + 2 * (i - 1)] as int) as i64,
                },
            )
        }
    }
}

/// The header of an encoding can be read: tag 1, enough bytes for the
/// declared count, bounds that a curve can hold with the first below the
/// last.
pub open spec fn header_ok(b: Seq<u8>) -> bool {
    &&& b.len() >= 10
    &&& b[0] == 1
    &&& b.len() >= 10 + 2 * b[9]
    &&& f32_ok(le_value(b, 1))
    &&& f32_ok(le_value(b, 5))
    &&& f32_raw(le_value(b, 1)) < f32_raw(le_value(b, 5))
}

/// Bytes that decode to a curve.
pub open spec fn compact_ok(b: Seq<u8>) -> bool {
    header_ok(b) && valid_points(prepared(decoded_prefix(b, b[9] as int)))
}

fn quantize_exec(v: i64, lo: i64, hi: i64) -> (r: u8)
    requires
        lo <= v <= hi,
        lo < hi,
        hi - lo <= 0x20000000000000,
    ensures
        r == quantize(v as int, lo as int, hi as int),
{
    let d: u128 = (hi - lo) as u128;
    let t: u128 = (v - lo) as u128;
    proof {
        assert(0 <= t * 510 + d <= 511 * d) by (nonlinear_arith)
            requires t <= d;
        vstd::arithmetic::div_mod::lemma_div_is_ordered((t * 510 + d) as int, (511 * d) as int, (2 * d) as int);
        assert(511 * d == 2 * d * 255 + d) by (nonlinear_arith);
        vstd::arithmetic::div_mod::lemma_fundamental_div_mod_converse((511 * d) as int, (2 * d) as int, 255, d as int);
    }
    ((t * 510 + d) / (2 * d)) as u8
}

fn push_le_bytes(out: &mut Vec<u8>, b: u32)
    ensures
        final(out)@ == old(out)@ + le_bytes(b as int),
{
    out.push((b % 256) as u8);
    out.push(((b / 256) % 256) as u8);
    out.push(((b / 65536) % 256) as u8);
    out.push(((b / 16777216) % 256) as u8);
    assert(final(out)@ =~= old(out)@ + le_bytes(b as int));
}

fn read_le(b: &Vec<u8>, off: usize) -> (r: u32)
    requires
        off + 4 <= b@.len(),
    ensures
        r == le_value(b@, off as int),
{
    let n = b.len();
    assert(off + 3 < n);
    let b0 = b[off] as u32;
    let b1 = b[off + 1] as u32;
    let b2 = b[off + 2] as u32;
    let b3 = b[off + 3] as u32;
    b0 + 256 * b1 + 65536 * b2 + 16777216 * b3
}

impl IrregularDynamicCurve {
    /// Encodes the curve in the compact byte format, quantizing each point.
    pub fn serialize_compact(&self) -> (r: Vec<u8>)
        requires
            self.wf(),
            self.breakpoints().len() <= 255,
        ensures
            r@ == compact_bytes(self.breakpoints()),
    {
        let ghost p = self.breakpoints();
        proof {
            self.lemma_wf();
        }
        let (xs, ys) = self.get_values_as_vectors();
        let n = xs.len();
        let lo = xs[0];
        let hi = xs[n - 1];
        proof {
            assert(xs@[0] == p[0].x && xs@[n - 1] == p[n - 1].x);
            assert(x_ok(p[0].x as int) && x_ok(p[n - 1].x as int));
            assert(p[0].x < p[n - 1].x);
        }
        let mut out: Vec<u8> = Vec::new();
        out.push(1);
        push_le_bytes(&mut out, f32_bits(lo));
        push_le_bytes(&mut out, f32_bits(hi));
        out.push(n as u8);
        let ghost head = out@;
        let mut i: usize = 0;
        while i < n
            invariant
                n == p.len(),
                valid_points(p),
                xs@ == crate::curve::xs_of(p),
                ys@ == crate::curve::ys_of(p),
                lo == p[0].x,
                hi == p[n - 1].x,
                i <= n,
                out@ == head + point_bytes(p).take(2 * i),
            decreases n - i,
        {
            proof {
                assert(x_ok(p[i as int].x as int) && y_ok(p[i as int].y as int));
                if i > 0 {
                    assert(p[0].x < p[i as int].x);
                }
                if i < n - 1 {
                    assert(p[i as int].x < p[n - 1].x);
                }
            }
            let xb = quantize_exec(xs[i], lo, hi);
            let yb = quantize_exec(ys[i], 0, ONE);
            out.push(xb);
            out.push(yb);
            proof {
                let pb = point_bytes(p);
                assert(pb[2 * i] == xb);
                assert(pb[2 * i + 1] == yb);
                assert(pb.take(2 * i + 2) =~= pb.take(2 * i as int).push(xb).push(yb));
            }
            i += 1;
        }
        proof {
            assert(point_bytes(p).take(2 * n as int) =~= point_bytes(p));
            assert(out@ =~= compact_bytes(p));
        }
        out
    }

    /// Encodes the curve in at most `max_bytes` bytes: as it is where its
    /// points fit, else after `simplify_fixed` down to the points that fit.
    pub fn serialize_compact_limited(&self, max_bytes: usize) -> (r: Vec<u8>)
        requires
            self.wf(),
            max_bytes >= 10,
            self.breakpoints().len() <= (max_bytes - 10) / 2 ==> self.breakpoints().len() <= 255,
            self.breakpoints().len() > (max_bytes - 10) / 2 ==> 2 <= (max_bytes - 10) / 2 <= 255,
        ensures
            r@ == (if self.breakpoints().len() <= (max_bytes - 10) / 2 {
                compact_bytes(self.breakpoints())
            } else {
                compact_bytes(
                    drop_rounds(self.breakpoints(), (self.breakpoints().len() - (max_bytes - 10) / 2) as nat),
                )
            }),
    {
        let max_points = (max_bytes - 10) / 2;
        if self.len() <= max_points {
            self.serialize_compact()
        } else {
            let mut c = self.duplicate();
            c.simplify_fixed(max_points);
            c.serialize_compact()
        }
    }

    /// Decodes the byte pairs into points, dropping a pair whose domain byte
    /// repeats the one before it.
    fn decode_points(bytes: &Vec<u8>) -> (r: Vec<Tup>)
        requires
            header_ok(bytes@),
        ensures
            r@ == decoded_prefix(bytes@, bytes@[9] as int),
    {
        let lo = f32_value(read_le(bytes, 1));
        let hi = f32_value(read_le(bytes, 5));
        let n = bytes[9] as usize;
        let mut points: Vec<Tup> = Vec::new();
        let mut i: usize = 0;
        while i < n
            invariant
                header_ok(bytes@),
                n == bytes@[9],
                lo == f32_raw(le_value(bytes@, 1)),
                hi == f32_raw(le_value(bytes@, 5)),
                x_ok(lo as int),
                x_ok(hi as int),
                i <= n,
                points@ == decoded_prefix(bytes@, i as int),
            decreases n - i,
        {
            let xb = bytes[10 + 2 * i];
            let yb = bytes[11 + 2 * i];
            if i == 0 || xb != bytes[10 + 2 * (i - 1)] {
                proof {
                    assert(0 <= (xb as int) * (hi - lo) <= 255 * (hi - lo)) by (nonlinear_arith)
                        requires xb <= 255, lo < hi;
                    vstd::arithmetic::div_mod::lemma_div_is_ordered((xb as int) * (hi - lo), 255 * (hi - lo), 255);
                    vstd::arithmetic::div_mod::lemma_div_pos_is_pos((xb as int) * (hi - lo), 255);
                    assert(0 <= (yb as int) * ONE <= 255 * ONE) by (nonlinear_arith)
                        requires yb <= 255;
                    vstd::arithmetic::div_mod::lemma_div_is_ordered((yb as int) * ONE, 255 * ONE, 255);
                }
                let x: i64 = lo + ((xb as u128 * (hi - lo) as u128) / 255) as i64;
                let y: i64 = ((yb as u128 * ONE as u128) / 255) as i64;
                points.push(Tup { x, y });
            }
            i += 1;
        }
        points
    }

    /// Decodes bytes in the compact format; the points are then taken as
    /// `new` takes them.
    pub fn deserialize_compact(bytes: Vec<u8>) -> (r: Self)
        requires
            compact_ok(bytes@),
        ensures
            r.wf(),
            r.breakpoints() == prepared(decoded_prefix(bytes@, bytes@[9] as int)),
    {
        let points = Self::decode_points(&bytes);
        IrregularDynamicCurve::new(points)
    }

    /// Decodes bytes in the compact format, or returns `None` where they do
    /// not hold a curve.
    pub fn try_deserialize_compact(bytes: Vec<u8>) -> (r: Option<Self>)
        ensures
            r.is_some() == compact_ok(bytes@),
            r.is_some() ==> r.unwrap().wf() && r.unwrap().breakpoints() == prepared(
                decoded_prefix(bytes@, bytes@[9] as int),
            ),
    {
        if bytes.len() < 10 || bytes[0] != 1 || bytes.len() < 10 + 2 * (bytes[9] as usize) {
            return None;
        }
        let lo_bits = read_le(&bytes, 1);
        let hi_bits = read_le(&bytes, 5);
        if (lo_bits / 0x800000) % 256 > 146 || (hi_bits / 0x800000) % 256 > 146 {
            return None;
        }
        if f32_value(lo_bits) >= f32_value(hi_bits) {
            return None;
        }
        let points = Self::decode_points(&bytes);
        IrregularDynamicCurve::try_new(points)
    }
}

/// Quantizing a value between `lo` and `hi` to a byte and decoding the
/// byte moves it by at most a 510th of the span plus one unit, that is
/// about half a quantization step. With `lo = 0` and `hi = ONE` this is the
/// range byte of the format.
pub proof fn lemma_quantization_error(v: int, lo: int, hi: int)
    requires
        lo <= v <= hi,
        lo < hi,
    ensures
        0 <= quantize(v, lo, hi) <= 255,
        -(hi - lo) - 510 <= 510 * (dequant_x(quantize(v, lo, hi), lo, hi) - v) <= hi - lo,
        dequant_y(quantize(v, 0, ONE as int)) == dequant_x(quantize(v, 0, ONE as int), 0, ONE as int),
{
    let d = hi - lo;
    let r = v - lo;
    let q = quantize(v, lo, hi);
    vstd::arithmetic::div_mod::lemma_fundamental_div_mod(r * 510 + d, 2 * d);
    vstd::arithmetic::div_mod::lemma_mod_bound(r * 510 + d, 2 * d);
    let rq = (r * 510 + d) % (2 * d);
    assert(r * 510 + d == 2 * d * q + rq);
    assert(0 <= q <= 255) by (nonlinear_arith)
        requires r * 510 + d == 2 * d * q + rq, 0 <= rq < 2 * d, 0 <= r <= d, 0 < d;
    let p = q * d / 255;
    vstd::arithmetic::div_mod::lemma_fundamental_div_mod(q * d, 255);
    vstd::arithmetic::div_mod::lemma_mod_bound(q * d, 255);
    let rp = (q * d) % 255;
    assert(q * d == 255 * p + rp);
    assert(-d - 510 <= 510 * (p - r) <= d) by (nonlinear_arith)
        requires r * 510 + d == 2 * d * q + rq, 0 <= rq < 2 * d, q * d == 255 * p + rp, 0 <= rp < 255, 0 < d;
    assert(dequant_x(q, lo, hi) == lo + p);
}

} // verus!
