use vstd::prelude::*;
use vstd::slice::slice_subrange;
use vstd::string::StringSliceAdditionalSpecFns;
use vstd::utf8::{decode_utf8, valid_utf8};

use unicode_segmentation::UnicodeSegmentation;

use crate::options::Range;

verus! {

/// The in-bounds positions of every range, range after range, for `n` units.
pub open spec fn all_positions(ranges: Seq<Range>, n: int) -> Seq<int>
    decreases ranges.len(),
{
    if ranges.len() == 0 {
        seq![]
    } else {
        all_positions(ranges.drop_last(), n) + ranges.last().in_bounds(n)
    }
}

/// Field mode: each position picks one field on its own.
pub open spec fn select_fields_spec(ranges: Seq<Range>, fields: Seq<Seq<char>>) -> Seq<Seq<char>> {
    all_positions(ranges, fields.len() as int).map_values(|p: int| fields[p - 1])
}

/// Byte or character mode: the contiguous units from a range's first to its
/// last in-bounds position, or nothing.
pub open spec fn span_of<T>(r: Range, units: Seq<T>) -> Seq<T> {
    if r.lo() > r.hi(units.len() as int) {
        seq![]
    } else {
        units.subrange(r.lo() - 1, r.hi(units.len() as int))
    }
}

/// What `String::from_utf8_lossy` makes of a byte sequence.
pub uninterp spec fn lossy_utf8(b: Seq<u8>) -> Seq<char>;

/// The extended grapheme clusters of a text, as `unicode-segmentation` finds them.
pub uninterp spec fn graphemes_of(s: Seq<char>) -> Seq<Seq<char>>;

/// The text of a byte sequence: its decoding when it is valid UTF-8, else what
/// the lossy conversion makes of it.
pub open spec fn bytes_text(b: Seq<u8>) -> Seq<char> {
    if valid_utf8(b) {
        decode_utf8(b)
    } else {
        lossy_utf8(b)
    }
}

/// Byte mode: each range's span decoded on its own, concatenated.
pub open spec fn bytes_output(ranges: Seq<Range>, b: Seq<u8>) -> Seq<char>
    decreases ranges.len(),
{
    if ranges.len() == 0 {
        seq![]
    } else {
        let r = ranges.last();
        bytes_output(ranges.drop_last(), b) + if r.lo() > r.hi(b.len() as int) {
            seq![]
        } else {
            bytes_text(span_of(r, b))
        }
    }
}

/// Character mode: each range's span of clusters, concatenated.
pub open spec fn chars_output(ranges: Seq<Range>, g: Seq<Seq<char>>) -> Seq<char>
    decreases ranges.len(),
{
    if ranges.len() == 0 {
        seq![]
    } else {
        chars_output(ranges.drop_last(), g) + span_of(ranges.last(), g).flatten()
    }
}

/// Relies on `String::from_utf8_lossy`: the bytes decoded, each invalid sequence
/// replaced by U+FFFD; valid UTF-8 comes back decoded unchanged.
#[verifier::external_body]
fn utf8_lossy(b: &[u8]) -> (r: String)
    ensures
        valid_utf8(b@) ==> r@ == decode_utf8(b@),
        !valid_utf8(b@) ==> r@ == lossy_utf8(b@),
{
    String::from_utf8_lossy(b).into_owned()
}

/// Relies on `UnicodeSegmentation::graphemes(s, true)`: the extended grapheme
/// clusters of `s` in order, which are consecutive slices that make up `s`.
#[verifier::external_body]
fn grapheme_clusters(s: &str) -> (r: Vec<&str>)
    ensures
        r@.map_values(|g: &str| g@) == graphemes_of(s@),
        r@.map_values(|g: &str| g@).flatten() == s@,
{
    s.graphemes(true).collect()
}

/// The fields that the ranges pick, one per in-bounds position.
pub fn select_fields<'a>(ranges: &Vec<Range>, fields: &Vec<&'a str>) -> (r: Vec<&'a str>)
    ensures
        r@.map_values(|f: &str| f@) == select_fields_spec(
            ranges@,
            fields@.map_values(|f: &str| f@),
        ),
{
    let ghost fv = fields@.map_values(|f: &str| f@);
    let n = fields.len();
    let mut out: Vec<&'a str> = Vec::new();
    let mut k: usize = 0;
    while k < ranges.len()
        invariant
            k <= ranges@.len(),
            n == fields@.len() == fv.len(),
            fv == fields@.map_values(|f: &str| f@),
            out@.map_values(|f: &str| f@) == all_positions(ranges@.subrange(0, k as int), n as int).map_values(
                |p: int| fv[p - 1],
            ),
        decreases ranges.len() - k,
    {
        let r = ranges[k];
        let ghost before = out@.map_values(|f: &str| f@);
        let ghost ib = r.in_bounds(n as int);
        proof {
            assert(ranges@.subrange(0, k + 1).drop_last() =~= ranges@.subrange(0, k as int));
            assert(ranges@.subrange(0, k + 1).last() == r);
        }
        match r.bounds(n) {
            Some((lo, hi)) => {
                let mut j: usize = 0;
                let len = hi - lo + 1;
                while j < len
                    invariant
                        1 <= lo <= hi <= n,
                        len == hi - lo + 1,
                        j <= len,
                        ib.len() == len,
                        ib == r.in_bounds(n as int),
                        lo == r.lo(),
                        hi == r.hi(n as int),
                        n == fields@.len() == fv.len(),
                        fv == fields@.map_values(|f: &str| f@),
                        out@.map_values(|f: &str| f@) == before + ib.subrange(0, j as int).map_values(
                            |p: int| fv[p - 1],
                        ),
                    decreases len - j,
                {
                    let p: usize = if r.end > 0 && r.start > r.end {
                        hi - j
                    } else {
                        lo + j
                    };
                    assert(ib[j as int] == p);
                    let ghost mid = out@.map_values(|f: &str| f@);
                    out.push(fields[p - 1]);
                    proof {
                        assert(out@.map_values(|f: &str| f@) =~= mid.push(fv[p - 1]));
                        assert(ib.subrange(0, j + 1) =~= ib.subrange(0, j as int).push(p as int));
                        assert(ib.subrange(0, j + 1).map_values(|p: int| fv[p - 1])
                            =~= ib.subrange(0, j as int).map_values(|p: int| fv[p - 1]).push(
                            fv[p - 1],
                        ));
                    }
                    j = j + 1;
                }
                assert(ib.subrange(0, j as int) =~= ib);
            },
            None => {
                assert(ib =~= Seq::<int>::empty());
            },
        }
        proof {
            let prev = all_positions(ranges@.subrange(0, k as int), n as int);
            assert(all_positions(ranges@.subrange(0, k + 1), n as int) == prev + ib);
            assert((prev + ib).map_values(|p: int| fv[p - 1]) =~= prev.map_values(
                |p: int| fv[p - 1],
            ) + ib.map_values(|p: int| fv[p - 1]));
        }
        k = k + 1;
    }
    assert(ranges@.subrange(0, k as int) =~= ranges@);
    out
}

/// Byte mode on one line's content.
pub fn extract_bytes(ranges: &Vec<Range>, line: &str) -> (r: String)
    ensures
        r@ == bytes_output(ranges@, line.spec_bytes()),
{
    let b = line.as_bytes();
    let n = b.len();
    let mut out = String::new();
    let mut k: usize = 0;
    while k < ranges.len()
        invariant
            k <= ranges@.len(),
            n == b@.len(),
            b@ == line.spec_bytes(),
            out@ == bytes_output(ranges@.subrange(0, k as int), b@),
        decreases ranges.len() - k,
    {
        let r = ranges[k];
        proof {
            assert(ranges@.subrange(0, k + 1).drop_last() =~= ranges@.subrange(0, k as int));
            assert(ranges@.subrange(0, k + 1).last() == r);
        }
        match r.bounds(n) {
            Some((lo, hi)) => {
                let piece = slice_subrange(b, lo - 1, hi);
                let s = utf8_lossy(piece);
                out.append(s.as_str());
            },
            None => {
                assert(bytes_output(ranges@.subrange(0, k + 1), b@) =~= out@);
            },
        }
        k = k + 1;
    }
    assert(ranges@.subrange(0, k as int) =~= ranges@);
    out
}

/// Character mode on one line's content.
pub fn extract_chars(ranges: &Vec<Range>, line: &str) -> (r: String)
    ensures
        r@ == chars_output(ranges@, graphemes_of(line@)),
        graphemes_of(line@).flatten() == line@,
{
    let g = grapheme_clusters(line);
    let ghost gv = g@.map_values(|c: &str| c@);
    let n = g.len();
    let mut out = String::new();
    let mut k: usize = 0;
    while k < ranges.len()
        invariant
            k <= ranges@.len(),
            n == g@.len() == gv.len(),
            gv == g@.map_values(|c: &str| c@),
            gv == graphemes_of(line@),
            out@ == chars_output(ranges@.subrange(0, k as int), gv),
        decreases ranges.len() - k,
    {
        let r = ranges[k];
        let ghost before = out@;
        proof {
            assert(ranges@.subrange(0, k + 1).drop_last() =~= ranges@.subrange(0, k as int));
            assert(ranges@.subrange(0, k + 1).last() == r);
        }
        match r.bounds(n) {
            Some((lo, hi)) => {
                let mut q: usize = lo - 1;
                assert(gv.subrange(lo - 1, lo - 1) =~= Seq::<Seq<char>>::empty());
                while q < hi
                    invariant
                        1 <= lo <= q + 1 <= hi + 1,
                        hi <= n == g@.len() == gv.len(),
                        gv == g@.map_values(|c: &str| c@),
                        out@ == before + gv.subrange(lo - 1, q as int).flatten(),
                    decreases hi - q,
                {
                    out.append(g[q]);
                    proof {
                        assert(gv.subrange(lo - 1, q + 1) =~= gv.subrange(lo - 1, q as int).push(
                            gv[q as int],
                        ));
                        gv.subrange(lo - 1, q as int).lemma_flatten_push(gv[q as int]);
                    }
                    q = q + 1;
                }
            },
            None => {},
        }
        assert(out@ =~= chars_output(ranges@.subrange(0, k + 1), gv));
        k = k + 1;
    }
    assert(ranges@.subrange(0, k as int) =~= ranges@);
    out
}

} // verus!
