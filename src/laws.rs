use vstd::prelude::*;
use vstd::seq_lib::lemma_flatten_concat;

use vstd::utf8::*;

use crate::extract::{all_positions, bytes_output, bytes_text, chars_output, select_fields_spec, span_of};
use crate::{content_spec, has_mode, item_output, line_output, raw_content, raw_terminator};
use crate::text::{last_newline, lemma_encode_concat, line_split_point};
use crate::options::Options;
use crate::options::{
    all_digits,
    decimal_value,
    is_digit,
    lemma_first_index,
    lemma_no_index,
    parse_spec,
    Range,
};
use crate::text::{join_spec, lemma_join_split, split_spec};

verus! {

/// The ranges' in-bounds spans, read back to front, lie end to end and cover
/// `1..=m` (ranges that select nothing are skipped).
pub open spec fn covers(ranges: Seq<Range>, m: int, n: int) -> bool
    decreases ranges.len(),
{
    if ranges.len() == 0 {
        m == 0
    } else {
        let r = ranges.last();
        if r.lo() > r.hi(n) {
            covers(ranges.drop_last(), m, n)
        } else {
            r.hi(n) == m && covers(ranges.drop_last(), r.lo() - 1, n)
        }
    }
}

/// A token made of decimal digits alone, `N`, parses to the range `N..=N`.
pub proof fn lemma_parse_single(s: Seq<char>)
    requires
        s.len() > 0,
        all_digits(s),
        decimal_value(s) <= usize::MAX,
    ensures
        parse_spec(s) == Some(
            Range { start: decimal_value(s) as usize, end: decimal_value(s) as usize },
        ),
{
    assert forall|j: int| 0 <= j < s.len() implies s[j] != '-' by {
        assert(is_digit(s[j]));
    }
    lemma_no_index(s, '-');
}

proof fn lemma_parse_pair(a: Seq<char>, b: Seq<char>)
    requires
        all_digits(a),
    ensures
        ({
            let t = a + seq!['-'] + b;
            &&& t.subrange(0, a.len() as int) == a
            &&& t.subrange(a.len() as int + 1, t.len() as int) == b
        }),
        crate::options::first_index_of(a + seq!['-'] + b, '-') == Some(a.len() as int),
{
    let t = a + seq!['-'] + b;
    assert forall|j: int| 0 <= j < a.len() implies t[j] != '-' by {
        assert(t[j] == a[j]);
        assert(is_digit(a[j]));
    }
    lemma_first_index(t, '-', a.len() as int);
    assert(t.subrange(0, a.len() as int) =~= a);
    assert(t.subrange(a.len() as int + 1, t.len() as int) =~= b);
}

/// `N-M` with `1 <= N <= M` yields `N, N+1, ..., M`; with `N > M >= 1` it
/// yields `N, N-1, ..., M`.
pub proof fn lemma_parse_closed(a: Seq<char>, b: Seq<char>)
    requires
        a.len() > 0,
        b.len() > 0,
        all_digits(a),
        all_digits(b),
        1 <= decimal_value(a) <= usize::MAX,
        1 <= decimal_value(b) <= usize::MAX,
    ensures
        ({
            let n = decimal_value(a) as int;
            let m = decimal_value(b) as int;
            let r = parse_spec(a + seq!['-'] + b);
            &&& r == Some(Range { start: n as usize, end: m as usize })
            &&& n <= m ==> r->Some_0.position_seq() == Seq::new(
                (m - n + 1) as nat,
                |i: int| n + i,
            )
            &&& n > m ==> r->Some_0.position_seq() == Seq::new(
                (n - m + 1) as nat,
                |i: int| n - i,
            )
        }),
{
    lemma_parse_pair(a, b);
    let n = decimal_value(a) as int;
    let m = decimal_value(b) as int;
    let r = Range { start: n as usize, end: m as usize };
    assert(r.position_seq() =~= Seq::new((m - n + 1) as nat, |i: int| n + i) || n > m);
    assert(r.position_seq() =~= Seq::new((n - m + 1) as nat, |i: int| n - i) || n <= m);
}

/// `-M` yields `1, 2, ..., M`.
pub proof fn lemma_parse_open_start(b: Seq<char>)
    requires
        b.len() > 0,
        all_digits(b),
        decimal_value(b) <= usize::MAX,
    ensures
        ({
            let m = decimal_value(b) as int;
            let r = parse_spec(seq!['-'] + b);
            &&& r == Some(Range { start: 0, end: m as usize })
            &&& r->Some_0.position_seq() == Seq::new(m as nat, |i: int| i + 1)
        }),
{
    let t = seq!['-'] + b;
    lemma_first_index(t, '-', 0);
    assert(t.subrange(1, t.len() as int) =~= b);
    let r = Range { start: 0, end: decimal_value(b) as usize };
    assert(r.position_seq() =~= Seq::new(decimal_value(b), |i: int| i + 1));
}

/// `N-` with `N >= 1` yields `N, N+1, ...` without end: its first `k` positions
/// are `N..N+k`, for every `k` that keeps them within `usize`.
pub proof fn lemma_parse_open_end(a: Seq<char>, k: nat)
    requires
        a.len() > 0,
        all_digits(a),
        1 <= decimal_value(a) <= usize::MAX,
        decimal_value(a) + k <= usize::MAX + 1,
    ensures
        ({
            let n = decimal_value(a) as int;
            let r = parse_spec(a + seq!['-']);
            &&& r == Some(Range { start: n as usize, end: 0 })
            &&& r->Some_0.position_seq().take(k as int) == Seq::new(k, |i: int| n + i)
        }),
{
    let t = a + seq!['-'];
    assert forall|j: int| 0 <= j < a.len() implies t[j] != '-' by {
        assert(t[j] == a[j]);
        assert(is_digit(a[j]));
    }
    lemma_first_index(t, '-', a.len() as int);
    assert(t.subrange(0, a.len() as int) =~= a);
    assert(t.subrange(a.len() as int + 1, t.len() as int) =~= Seq::<char>::empty());
    let n = decimal_value(a) as int;
    let r = Range { start: n as usize, end: 0 };
    assert(r.position_seq().take(k as int) =~= Seq::new(k, |i: int| n + i));
}

/// The positions that the engine uses for `n` units are exactly the positions
/// the range yields that lie within `1..=n`.
pub proof fn lemma_in_bounds_are_positions(r: Range, n: int, p: int)
    requires
        0 <= n <= usize::MAX,
    ensures
        r.in_bounds(n).contains(p) <==> (1 <= p <= n && r.position_seq().contains(p)),
{
    let ib = r.in_bounds(n);
    let ps = r.position_seq();
    if ib.contains(p) {
        let j = choose|j: int| 0 <= j < ib.len() && ib[j] == p;
        let i = if r.start == 0 {
            p - 1
        } else if r.descending() {
            r.start - p
        } else {
            p - r.start
        };
        assert(ps[i] == p);
    }
    if 1 <= p <= n && ps.contains(p) {
        let i = choose|i: int| 0 <= i < ps.len() && ps[i] == p;
        let j = if r.descending() {
            r.hi(n) - p
        } else {
            p - r.lo()
        };
        assert(ib[j] == p);
    }
}

/// Field mode: when the ranges select every position `1..=field_count` in
/// order, the line comes back unchanged.
pub proof fn lemma_fields_identity(ranges: Seq<Range>, s: Seq<char>, d: char)
    requires
        all_positions(ranges, split_spec(s, d).len() as int) == Seq::new(
            split_spec(s, d).len(),
            |i: int| i + 1,
        ),
    ensures
        join_spec(select_fields_spec(ranges, split_spec(s, d)), d) == s,
{
    let f = split_spec(s, d);
    assert(select_fields_spec(ranges, f) =~= f);
    lemma_join_split(s, d);
}

/// Character mode: ranges whose spans lie end to end over `1..=m` give back
/// the first `m` clusters, joined.
pub proof fn lemma_chars_cover(ranges: Seq<Range>, g: Seq<Seq<char>>, m: int)
    requires
        covers(ranges, m, g.len() as int),
    ensures
        0 <= m <= g.len(),
        chars_output(ranges, g) == g.subrange(0, m).flatten(),
    decreases ranges.len(),
{
    if ranges.len() == 0 {
        assert(g.subrange(0, 0) =~= Seq::<Seq<char>>::empty());
    } else {
        let r = ranges.last();
        let n = g.len() as int;
        if r.lo() > r.hi(n) {
            lemma_chars_cover(ranges.drop_last(), g, m);
        } else {
            lemma_chars_cover(ranges.drop_last(), g, r.lo() - 1);
            lemma_flatten_concat(g.subrange(0, r.lo() - 1), g.subrange(r.lo() - 1, m));
            assert(g.subrange(0, r.lo() - 1) + g.subrange(r.lo() - 1, m) =~= g.subrange(0, m));
        }
    }
}

/// Character mode: ranges that cover every cluster once, in order, give back
/// the text the clusters make up.
pub proof fn lemma_chars_identity(ranges: Seq<Range>, g: Seq<Seq<char>>)
    requires
        covers(ranges, g.len() as int, g.len() as int),
    ensures
        chars_output(ranges, g) == g.flatten(),
{
    lemma_chars_cover(ranges, g, g.len() as int);
    assert(g.subrange(0, g.len() as int) =~= g);
}

/// Every non-empty span of the ranges starts and ends on a character boundary of `b`.
pub open spec fn cuts_on_boundaries(ranges: Seq<Range>, b: Seq<u8>) -> bool {
    forall|k: int|
        0 <= k < ranges.len() && (#[trigger] ranges[k]).lo() <= ranges[k].hi(b.len() as int)
            ==> is_char_boundary(b, ranges[k].lo() - 1) && is_char_boundary(
            b,
            ranges[k].hi(b.len() as int),
        )
}

/// Byte mode: spans that lie end to end over the first `m` bytes, each cut on
/// a character boundary, give back the text of those bytes.
pub proof fn lemma_bytes_cover(ranges: Seq<Range>, b: Seq<u8>, m: int)
    requires
        valid_utf8(b),
        covers(ranges, m, b.len() as int),
        cuts_on_boundaries(ranges, b),
        0 <= m <= b.len(),
        is_char_boundary(b, m),
    ensures
        bytes_output(ranges, b) == decode_utf8(b.subrange(0, m)),
    decreases ranges.len(),
{
    let n = b.len() as int;
    if ranges.len() == 0 {
        assert(b.subrange(0, 0) =~= Seq::<u8>::empty());
    } else {
        let r = ranges.last();
        let rest = ranges.drop_last();
        assert(cuts_on_boundaries(rest, b)) by {
            assert forall|k: int|
                0 <= k < rest.len() && (#[trigger] rest[k]).lo() <= rest[k].hi(n) implies is_char_boundary(
                b,
                rest[k].lo() - 1,
            ) && is_char_boundary(b, rest[k].hi(n)) by {
                assert(rest[k] == ranges[k]);
            }
        }
        if r.lo() > r.hi(n) {
            lemma_bytes_cover(rest, b, m);
        } else {
            let lo = r.lo();
            assert(ranges[ranges.len() - 1] == r);
            assert(is_char_boundary(b, lo - 1));
            lemma_bytes_cover(rest, b, lo - 1);
            let c = b.subrange(0, m);
            valid_utf8_split(b, m);
            if lo - 1 > 0 {
                is_char_boundary_iff_is_leading_byte(b, lo - 1);
                is_char_boundary_iff_is_leading_byte(c, lo - 1);
            }
            assert(is_char_boundary(c, lo - 1));
            decode_utf8_split(c, lo - 1);
            valid_utf8_split(c, lo - 1);
            assert(c.subrange(0, lo - 1) =~= b.subrange(0, lo - 1));
            assert(c.subrange(lo - 1, c.len() as int) =~= span_of(r, b));
        }
    }
}

/// Byte mode: ranges that cover every byte once, in order, and cut only on
/// character boundaries give back the line's text.
pub proof fn lemma_bytes_identity(ranges: Seq<Range>, s: Seq<char>)
    requires
        covers(ranges, encode_utf8(s).len() as int, encode_utf8(s).len() as int),
        cuts_on_boundaries(ranges, encode_utf8(s)),
    ensures
        bytes_output(ranges, encode_utf8(s)) == s,
{
    let b = encode_utf8(s);
    encode_utf8_valid_utf8(s);
    is_char_boundary_start_end_of_seq(b);
    lemma_bytes_cover(ranges, b, b.len() as int);
    assert(b.subrange(0, b.len() as int) =~= b);
    encode_utf8_decode_utf8(s);
}

proof fn lemma_last_newline(b: Seq<u8>, w: int)
    requires
        0 <= w < b.len(),
        b[w] == 10,
        forall|j: int| w < j < b.len() ==> b[j] != 10,
    ensures
        last_newline(b) == Some(w),
{
    let c = choose|c: int|
        0 <= c < b.len() && b[c] == 10 && forall|j: int| c < j < b.len() ==> b[j] != 10;
    assert(c == w);
}

/// A line that ends in `"\r\n"` is written with `"\r\n"` at its end, never a bare `"\n"`.
pub proof fn lemma_crlf_kept(o: &Options, s: Seq<char>)
    requires
        has_mode(o),
        s.len() >= 2,
        s[s.len() - 2] == '\r',
        s[s.len() - 1] == '\n',
    ensures
        raw_terminator(s) == seq!['\r', '\n'],
        line_output(o, s) == content_spec(o, raw_content(s)) + seq!['\r', '\n'],
{
    let head = s.subrange(0, s.len() - 2);
    let tail = seq!['\r', '\n'];
    assert(s =~= head + tail);
    lemma_encode_concat(head, tail);
    assert(13u32 & 0x7Fu32 == 13u32) by (bit_vector);
    assert(10u32 & 0x7Fu32 == 10u32) by (bit_vector);
    assert('\r' as u32 == 13u32);
    assert('\n' as u32 == 10u32);
    assert(tail.drop_first() =~= seq!['\n']);
    assert(seq!['\n'].drop_first() =~= Seq::<char>::empty());
    assert(tail[0] as u32 == 13u32);
    assert(seq!['\n'][0] as u32 == 10u32);
    assert(encode_scalar(13u32) =~= seq![13u8]);
    assert(encode_scalar(10u32) =~= seq![10u8]);
    assert(encode_utf8(Seq::<char>::empty()) =~= Seq::<u8>::empty());
    assert(encode_utf8(seq!['\n']) =~= encode_scalar(10u32) + encode_utf8(Seq::<char>::empty()));
    assert(encode_utf8(seq!['\n']) =~= seq![10u8]);
    assert(encode_utf8(tail) =~= encode_scalar(13u32) + encode_utf8(seq!['\n']));
    assert(encode_utf8(tail) =~= seq![13u8, 10u8]);
    let b = encode_utf8(s);
    let l = b.len() as int;
    lemma_last_newline(b, l - 1);
    assert(line_split_point(b) == l - 2);
    assert(b.subrange(l - 2, l) =~= encode_utf8(tail));
    encode_utf8_decode_utf8(tail);
}

proof fn lemma_scalar_no_newline_byte(c: char)
    requires
        c != '\n',
    ensures
        forall|j: int|
            0 <= j < encode_scalar(c as u32).len() ==> #[trigger] encode_scalar(c as u32)[j] != 10,
{
    let v = c as u32;
    if v == 10 {
        char_u32_cast(c, 10u32);
        char_u32_cast('\n', 10u32);
        assert('\n' as u32 == 10u32);
    }
    assert(forall|y: u8| #[trigger] (0x80u8 | y) != 10u8) by (bit_vector);
    assert(forall|y: u8| #[trigger] (0xC0u8 | y) != 10u8) by (bit_vector);
    assert(forall|y: u8| #[trigger] (0xE0u8 | y) != 10u8) by (bit_vector);
    assert(forall|y: u8| #[trigger] (0xF0u8 | y) != 10u8) by (bit_vector);
    if has_width_1_encoding(v) {
        assert((v & 0x7Fu32) == v) by (bit_vector)
            requires
                v <= 0x7Fu32,
        ;
    }
}

/// A text with no `\n` character has no `\n` byte in its UTF-8 encoding.
pub proof fn lemma_encode_no_newline(s: Seq<char>)
    requires
        forall|j: int| 0 <= j < s.len() ==> s[j] != '\n',
    ensures
        forall|j: int| 0 <= j < encode_utf8(s).len() ==> encode_utf8(s)[j] != 10,
    decreases s.len(),
{
    if s.len() > 0 {
        lemma_scalar_no_newline_byte(s[0]);
        lemma_encode_no_newline(s.drop_first());
        let h = encode_scalar(s[0] as u32);
        let t = encode_utf8(s.drop_first());
        assert(encode_utf8(s) == h + t);
        assert forall|j: int| 0 <= j < encode_utf8(s).len() implies encode_utf8(s)[j] != 10 by {
            if j < h.len() {
                assert((h + t)[j] == h[j]);
            } else {
                assert((h + t)[j] == t[j - h.len()]);
            }
        }
    }
}

/// A final line without any `\n` is written with nothing after its content,
/// and its content is the whole line.
pub proof fn lemma_unterminated_kept(o: &Options, s: Seq<char>)
    requires
        has_mode(o),
        forall|j: int| 0 <= j < s.len() ==> s[j] != '\n',
    ensures
        raw_terminator(s) == Seq::<char>::empty(),
        line_output(o, s) == content_spec(o, s),
{
    lemma_encode_no_newline(s);
    let b = encode_utf8(s);
    assert(last_newline(b) is None);
    assert(b.subrange(0, b.len() as int) =~= b);
    assert(b.subrange(b.len() as int, b.len() as int) =~= Seq::<u8>::empty());
    encode_utf8_decode_utf8(s);
    assert(decode_utf8(Seq::<u8>::empty()) =~= Seq::<char>::empty());
    assert(line_output(o, s) =~= content_spec(o, s));
}

/// The output for each item, one per item.
pub open spec fn outputs(o: &Options, items: Seq<Result<Seq<char>, Seq<char>>>) -> Seq<
    Result<Seq<char>, Seq<char>>,
> {
    items.map_values(|it: Result<Seq<char>, Seq<char>>| item_output(o, it))
}

/// A failed read does not keep any later line from being processed and written:
/// each line's output depends on that line alone.
pub proof fn lemma_read_error_not_fatal(
    o: &Options,
    items: Seq<Result<Seq<char>, Seq<char>>>,
    i: int,
    j: int,
)
    requires
        0 <= i < j < items.len(),
        items[i] is Err,
        items[j] is Ok,
    ensures
        outputs(o, items)[i] == items[i],
        outputs(o, items)[j] == Ok::<Seq<char>, Seq<char>>(line_output(o, items[j]->Ok_0)),
{
}

} // verus!
