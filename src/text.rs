use vstd::prelude::*;
use vstd::std_specs::iter::IteratorSpec;
use vstd::string::StringSliceAdditionalSpecFns;
use vstd::utf8::*;

use crate::options::{first_index_of, lemma_first_index, lemma_first_index_found, lemma_no_index};

verus! {

broadcast use vstd::string::axiom_spec_iter, vstd::string::next_postcondition;

/// The characters of `s`, in order.
pub fn chars_of(s: &str) -> (r: Vec<char>)
    ensures
        r@ == s@,
{
    let mut it = s.chars();
    let mut out: Vec<char> = Vec::new();
    loop
        invariant
            out@ + it.remaining() == s@,
            it.decrease() is Some,
        ensures
            out@ == s@,
        decreases it.decrease()->0,
    {
        match it.next() {
            Some(c) => {
                out.push(c);
            },
            None => {
                assert(out@ + it.remaining() =~= out@);
                break;
            },
        }
    }
    out
}

/// The fields of `s` between occurrences of `d`: one more field than there are `d`s.
pub open spec fn split_spec(s: Seq<char>, d: char) -> Seq<Seq<char>>
    decreases s.len(),
{
    match first_index_of(s, d) {
        Some(i) => if 0 <= i < s.len() {
            seq![s.subrange(0, i)] + split_spec(s.subrange(i + 1, s.len() as int), d)
        } else {
            seq![s]
        },
        None => seq![s],
    }
}

/// The parts joined, with `d` between each two neighbours.
pub open spec fn join_spec(parts: Seq<Seq<char>>, d: char) -> Seq<char>
    decreases parts.len(),
{
    if parts.len() == 0 {
        seq![]
    } else if parts.len() == 1 {
        parts[0]
    } else {
        parts[0] + seq![d] + join_spec(parts.drop_first(), d)
    }
}

/// Joining what `split_spec` made gives back the text.
pub proof fn lemma_join_split(s: Seq<char>, d: char)
    ensures
        join_spec(split_spec(s, d), d) == s,
        split_spec(s, d).len() >= 1,
    decreases s.len(),
{
    match first_index_of(s, d) {
        Some(i) => {
            lemma_first_index_found(s, d);
            let rest = s.subrange(i + 1, s.len() as int);
            lemma_join_split(rest, d);
            let parts = split_spec(s, d);
            assert(parts.drop_first() =~= split_spec(rest, d));
            assert(s =~= s.subrange(0, i) + seq![d] + rest);
        },
        None => {},
    }
}

proof fn lemma_join_push(parts: Seq<Seq<char>>, x: Seq<char>, d: char)
    requires
        parts.len() >= 1,
    ensures
        join_spec(parts.push(x), d) == join_spec(parts, d) + seq![d] + x,
    decreases parts.len(),
{
    if parts.len() == 1 {
        assert(parts.push(x).drop_first() =~= seq![x]);
        assert(parts.push(x)[0] == parts[0]);
        assert(join_spec(seq![x], d) == x);
        assert(join_spec(parts.push(x), d) =~= join_spec(parts, d) + seq![d] + x);
    } else {
        lemma_join_push(parts.drop_first(), x, d);
        assert(parts.push(x).drop_first() =~= parts.drop_first().push(x));
        assert(parts.push(x)[0] == parts[0]);
        assert(join_spec(parts.push(x), d) == parts[0] + seq![d] + join_spec(
            parts.drop_first().push(x),
            d,
        ));
        assert(join_spec(parts, d) == parts[0] + seq![d] + join_spec(parts.drop_first(), d));
        assert(join_spec(parts.push(x), d) =~= join_spec(parts, d) + seq![d] + x);
    }
}

/// Relies on `char::to_string`: a string holding exactly that character.
#[verifier::external_body]
fn char_to_string(c: char) -> (r: String)
    ensures
        r@ == seq![c],
{
    c.to_string()
}

/// Splits `s` at every `delimiter`: naive, with no quoting.
pub fn to_fields(s: &str, delimiter: char) -> (r: Vec<&str>)
    ensures
        r@.map_values(|f: &str| f@) == split_spec(s@, delimiter),
{
    let cs = chars_of(s);
    let n = cs.len();
    let mut out: Vec<&str> = Vec::new();
    let mut start: usize = 0;
    let mut i: usize = 0;
    assert(s@.subrange(0, n as int) =~= s@);
    assert(out@.map_values(|f: &str| f@) + split_spec(s@, delimiter) =~= split_spec(s@, delimiter));
    while i < n
        invariant
            start <= i <= n == cs@.len(),
            cs@ == s@,
            forall|j: int| start <= j < i ==> cs@[j] != delimiter,
            out@.map_values(|f: &str| f@) + split_spec(s@.subrange(start as int, n as int), delimiter)
                == split_spec(s@, delimiter),
        decreases n - i,
    {
        if cs[i] == delimiter {
            let ghost rest = s@.subrange(start as int, n as int);
            proof {
                lemma_first_index(rest, delimiter, i - start);
                assert(rest.subrange(0, i - start) =~= s@.subrange(start as int, i as int));
                assert(rest.subrange(i - start + 1, rest.len() as int) =~= s@.subrange(
                    i + 1,
                    n as int,
                ));
            }
            let f = s.substring_char(start, i);
            let ghost before = out@.map_values(|f: &str| f@);
            out.push(f);
            assert(out@.map_values(|f: &str| f@) =~= before.push(f@));
            start = i + 1;
        }
        i = i + 1;
    }
    let f = s.substring_char(start, n);
    proof {
        let rest = s@.subrange(start as int, n as int);
        assert forall|j: int| 0 <= j < rest.len() implies rest[j] != delimiter by {
            assert(rest[j] == cs@[start + j]);
        }
        lemma_no_index(rest, delimiter);
    }
    let ghost before = out@.map_values(|f: &str| f@);
    out.push(f);
    assert(out@.map_values(|f: &str| f@) =~= before + split_spec(
        s@.subrange(start as int, n as int),
        delimiter,
    ));
    out
}

/// Joins `parts` with `delimiter` between each two neighbours.
pub fn join_with(parts: &Vec<&str>, delimiter: char) -> (r: String)
    ensures
        r@ == join_spec(parts@.map_values(|f: &str| f@), delimiter),
{
    let mut out = String::new();
    if parts.len() == 0 {
        assert(parts@.map_values(|f: &str| f@) =~= Seq::<Seq<char>>::empty());
        return out;
    }
    let d = char_to_string(delimiter);
    out.append(parts[0]);
    let mut i: usize = 1;
    assert(parts@.map_values(|f: &str| f@).subrange(0, 1).drop_first() =~= Seq::<Seq<char>>::empty());
    while i < parts.len()
        invariant
            1 <= i <= parts@.len(),
            d@ == seq![delimiter],
            out@ == join_spec(parts@.map_values(|f: &str| f@).subrange(0, i as int), delimiter),
        decreases parts.len() - i,
    {
        let ghost views = parts@.map_values(|f: &str| f@);
        proof {
            lemma_join_push(views.subrange(0, i as int), views[i as int], delimiter);
            assert(views.subrange(0, i as int).push(views[i as int]) =~= views.subrange(0, i + 1));
        }
        out.append(d.as_str());
        out.append(parts[i]);
        i = i + 1;
    }
    assert(parts@.map_values(|f: &str| f@).subrange(0, i as int) =~= parts@.map_values(
        |f: &str| f@,
    ));
    out
}

/// Index of the last `\n` byte (10) in `b`, if any.
pub open spec fn last_newline(b: Seq<u8>) -> Option<int> {
    if exists|i: int| 0 <= i < b.len() && b[i] == 10 {
        Some(
            choose|i: int|
                0 <= i < b.len() && b[i] == 10 && forall|j: int| i < j < b.len() ==> b[j] != 10,
        )
    } else {
        None
    }
}

/// Where a raw line splits into content and terminator: before the last `\n`,
/// or before the `\r` that immediately precedes it; at the end when there is no `\n`.
pub open spec fn line_split_point(b: Seq<u8>) -> int {
    match last_newline(b) {
        Some(i) => if i > 0 && b[i - 1] == 13 {
            i - 1
        } else {
            i
        },
        None => b.len() as int,
    }
}

/// The UTF-8 encoding of a concatenation is the concatenation of the encodings.
pub proof fn lemma_encode_concat(a: Seq<char>, b: Seq<char>)
    ensures
        encode_utf8(a + b) == encode_utf8(a) + encode_utf8(b),
    decreases a.len(),
{
    if a.len() == 0 {
        assert(a + b =~= b);
        assert(encode_utf8(a) + encode_utf8(b) =~= encode_utf8(b));
    } else {
        lemma_encode_concat(a.drop_first(), b);
        assert((a + b).drop_first() =~= a.drop_first() + b);
        assert(encode_utf8(a + b) =~= encode_utf8(a) + encode_utf8(b));
    }
}

/// Splits a raw line into its content and its terminator (`"\n"`, `"\r\n"` or `""`).
pub fn split_at_newline(s: &str) -> (r: (&str, &str))
    ensures
        r.0.spec_bytes() == s.spec_bytes().subrange(0, line_split_point(s.spec_bytes())),
        r.1.spec_bytes() == s.spec_bytes().subrange(
            line_split_point(s.spec_bytes()),
            s.spec_bytes().len() as int,
        ),
        r.0@ + r.1@ == s@,
{
    let b = s.as_bytes();
    let ghost bs = s.spec_bytes();
    let n = b.len();
    let mut i: usize = n;
    while i > 0
        invariant
            i <= n == bs.len(),
            b@ == bs,
            forall|j: int| i <= j < n ==> bs[j] != 10,
        ensures
            forall|j: int| i <= j < n ==> bs[j] != 10,
            i > 0 ==> bs[i - 1] == 10,
        decreases i,
    {
        if b[i - 1] == 10 {
            break;
        }
        i = i - 1;
    }
    proof {
        encode_utf8_valid_utf8(s@);
        is_char_boundary_start_end_of_seq(bs);
    }
    let mid: usize = if i == 0 {
        assert(last_newline(bs) is None);
        n
    } else {
        let k: usize = i - 1;
        proof {
            let w = k as int;
            assert(0 <= w < bs.len() && bs[w] == 10 && forall|j: int| w < j < bs.len() ==> bs[j] != 10);
            let c = choose|c: int|
                0 <= c < bs.len() && bs[c] == 10 && forall|j: int| c < j < bs.len() ==> bs[j] != 10;
            assert(c == w);
            assert(last_newline(bs) == Some(w));
        }
        if k > 0 && b[k - 1] == 13 {
            proof {
                is_char_boundary_iff_is_leading_byte(bs, k - 1);
            }
            k - 1
        } else {
            proof {
                is_char_boundary_iff_is_leading_byte(bs, k as int);
            }
            k
        }
    };
    assert(mid == line_split_point(bs));
    let r = s.split_at(mid);
    proof {
        decode_utf8_split(bs, mid as int);
        encode_utf8_decode_utf8(s@);
        encode_utf8_decode_utf8(r.0@);
        encode_utf8_decode_utf8(r.1@);
    }
    r
}

} // verus!
