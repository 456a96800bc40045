use vstd::prelude::*;

use crate::text::chars_of;

verus! {

/// A selector token turned into an interval of 1-based positions; 0 means "unset".
///
/// `{0, 0}` selects nothing, `{0, e}` is `1..=e`, `{s, 0}` is `s..` (open),
/// `s > e > 0` is `s, s-1, ..., e` and `0 < s <= e` is `s..=e`.
#[derive(Clone, Copy, Debug, PartialEq, Eq, Structural)]
pub struct Range {
    pub start: usize,
    pub end: usize,
}

/// What the tool was asked to do: the delimiter and at most one selector list
/// for each selection mode.
pub struct Options {
    pub delimiter: char,
    pub fields: Option<Vec<Range>>,
    pub bytes: Option<Vec<Range>>,
    pub characters: Option<Vec<Range>>,
}

impl std::str::FromStr for Range {
    type Err = RangeParseError;

    fn from_str(s: &str) -> (r: Result<Range, RangeParseError>)
        ensures
            match r {
                Ok(range) => parse_spec(s@) == Some(range),
                Err(e) => parse_spec(s@) is None && e.token@ == s@,
            },
    {
        Range::parse(s)
    }
}

/// The positions of a range that are still to come. An open range yields
/// positions up to `usize::MAX`; callers bound it with `take`.
pub struct Positions {
    range: Range,
    produced: usize,
}

impl View for Positions {
    type V = Seq<int>;

    closed spec fn view(&self) -> Seq<int> {
        self.range.position_seq().skip(self.produced as int)
    }
}

impl Positions {
    pub closed spec fn wf(&self) -> bool {
        self.produced <= self.range.count()
    }

    /// The next position, if any.
    pub fn next(&mut self) -> (r: Option<usize>)
        requires
            old(self).wf(),
        ensures
            final(self).wf(),
            old(self)@.len() > 0 ==> r == Some(old(self)@[0] as usize) && final(self)@ == old(
                self,
            )@.drop_first(),
            old(self)@.len() == 0 ==> r is None && final(self)@ == old(self)@,
    {
        let r = self.range;
        let k = self.produced;
        let count_reached = if r.start == 0 {
            k >= r.end
        } else if r.end == 0 {
            k > usize::MAX - r.start
        } else if r.start > r.end {
            k > r.start - r.end
        } else {
            k > r.end - r.start
        };
        if count_reached {
            return None;
        }
        let p: usize = if r.start == 0 {
            k + 1
        } else if r.end > 0 && r.start > r.end {
            r.start - k
        } else {
            r.start + k
        };
        self.produced = k + 1;
        assert(self@ =~= old(self)@.drop_first());
        Some(p)
    }

    /// The first `k` positions still to come, or all of them if fewer remain.
    pub fn take(self, k: usize) -> (r: Vec<usize>)
        requires
            self.wf(),
        ensures
            r@.len() == if k < self@.len() {
                k as nat
            } else {
                self@.len()
            },
            forall|i: int| 0 <= i < r@.len() ==> r@[i] as int == self@[i],
    {
        let ghost orig = self@;
        let mut it = self;
        let mut out: Vec<usize> = Vec::new();
        while out.len() < k
            invariant
                it.wf(),
                out@.len() <= k,
                out@.len() + it@.len() == orig.len(),
                forall|i: int| 0 <= i < out@.len() ==> out@[i] as int == orig[i],
                forall|i: int| 0 <= i < it@.len() ==> it@[i] == orig[i + out@.len()],
            ensures
                out@.len() == if k < orig.len() {
                    k as nat
                } else {
                    orig.len()
                },
                forall|i: int| 0 <= i < out@.len() ==> out@[i] as int == orig[i],
            decreases k - out@.len(),
        {
            match it.next() {
                Some(p) => {
                    out.push(p);
                },
                None => {
                    break;
                },
            }
        }
        out
    }
}

/// A selector token that does not follow the range grammar.
#[derive(Debug)]
pub struct RangeParseError {
    pub token: String,
}

pub open spec fn is_digit(c: char) -> bool {
    '0' <= c && c <= '9'
}

pub open spec fn digit_value(c: char) -> int {
    (c as int) - ('0' as int)
}

pub open spec fn all_digits(s: Seq<char>) -> bool {
    forall|i: int| 0 <= i < s.len() ==> is_digit(#[trigger] s[i])
}

/// The number that a string of decimal digits denotes.
pub open spec fn decimal_value(s: Seq<char>) -> nat
    decreases s.len(),
{
    if s.len() == 0 {
        0
    } else {
        (decimal_value(s.drop_last()) * 10 + digit_value(s.last())) as nat
    }
}

/// A numeric component: one or more decimal digits whose value fits a `usize`.
pub open spec fn number_spec(s: Seq<char>) -> Option<usize> {
    if s.len() > 0 && all_digits(s) && decimal_value(s) <= usize::MAX {
        Some(decimal_value(s) as usize)
    } else {
        None
    }
}

/// Index of the first `c` in `s`, if any.
#[verifier::opaque]
pub open spec fn first_index_of(s: Seq<char>, c: char) -> Option<int> {
    if exists|i: int| 0 <= i < s.len() && s[i] == c {
        let i = choose|i: int|
            0 <= i < s.len() && s[i] == c && forall|j: int| 0 <= j < i ==> s[j] != c;
        Some(i)
    } else {
        None
    }
}

/// The range that a token denotes: `N`, `N-`, `-M` or `N-M`, split at the first `-`.
pub open spec fn parse_spec(s: Seq<char>) -> Option<Range> {
    match first_index_of(s, '-') {
        Some(i) => {
            let a = s.subrange(0, i);
            let b = s.subrange(i + 1, s.len() as int);
            if b.len() == 0 {
                match number_spec(a) {
                    Some(n) => Some(Range { start: n, end: 0 }),
                    None => None,
                }
            } else if a.len() == 0 {
                match number_spec(b) {
                    Some(m) => Some(Range { start: 0, end: m }),
                    None => None,
                }
            } else {
                match (number_spec(a), number_spec(b)) {
                    (Some(n), Some(m)) => Some(Range { start: n, end: m }),
                    _ => None,
                }
            }
        },
        None => match number_spec(s) {
            Some(n) => Some(Range { start: n, end: n }),
            None => None,
        },
    }
}

pub proof fn lemma_first_index(s: Seq<char>, c: char, w: int)
    requires
        0 <= w < s.len(),
        s[w] == c,
        forall|j: int| 0 <= j < w ==> s[j] != c,
    ensures
        first_index_of(s, c) == Some(w),
{
    reveal(first_index_of);
    let k = choose|k: int|
        0 <= k < s.len() && s[k] == c && forall|j: int| 0 <= j < k ==> s[j] != c;
    assert(k == w);
}

pub proof fn lemma_no_index(s: Seq<char>, c: char)
    requires
        forall|j: int| 0 <= j < s.len() ==> s[j] != c,
    ensures
        first_index_of(s, c) is None,
{
    reveal(first_index_of);
}

pub proof fn lemma_first_index_found(s: Seq<char>, c: char)
    requires
        first_index_of(s, c) is Some,
    ensures
        ({
            let i = first_index_of(s, c)->Some_0;
            &&& 0 <= i < s.len()
            &&& s[i] == c
            &&& forall|j: int| 0 <= j < i ==> s[j] != c
        }),
{
    reveal(first_index_of);
    let w = choose|i: int| 0 <= i < s.len() && s[i] == c;
    assert(exists|i: int|
        0 <= i < s.len() && s[i] == c && forall|j: int| 0 <= j < i ==> s[j] != c) by {
        lemma_some_first(s, c, w);
    }
}

proof fn lemma_some_first(s: Seq<char>, c: char, w: int)
    requires
        0 <= w < s.len(),
        s[w] == c,
    ensures
        exists|i: int| 0 <= i < s.len() && s[i] == c && forall|j: int| 0 <= j < i ==> s[j] != c,
    decreases w,
{
    if exists|j: int| 0 <= j < w && s[j] == c {
        let j = choose|j: int| 0 <= j < w && s[j] == c;
        lemma_some_first(s, c, j);
    } else {
        assert(forall|j: int| 0 <= j < w ==> s[j] != c);
    }
}

proof fn lemma_decimal_value_grows(s: Seq<char>, k: int)
    requires
        0 <= k <= s.len(),
        all_digits(s),
    ensures
        decimal_value(s.subrange(0, k)) <= decimal_value(s),
    decreases s.len() - k,
{
    if k < s.len() {
        lemma_decimal_value_grows(s, k + 1);
        let p = s.subrange(0, k + 1);
        assert(p.drop_last() =~= s.subrange(0, k));
        assert(is_digit(s[k]));
    } else {
        assert(s.subrange(0, k) =~= s);
    }
}

/// Reads `s[from..to]` as a numeric component.
fn parse_number(s: &Vec<char>, from: usize, to: usize) -> (r: Option<usize>)
    requires
        from <= to <= s@.len(),
    ensures
        r == number_spec(s@.subrange(from as int, to as int)),
{
    let ghost t = s@.subrange(from as int, to as int);
    if from == to {
        return None;
    }
    let mut acc: usize = 0;
    let mut i: usize = from;
    while i < to
        invariant
            from <= i <= to <= s@.len(),
            t == s@.subrange(from as int, to as int),
            all_digits(t.subrange(0, i - from)),
            acc as nat == decimal_value(t.subrange(0, i - from)),
        decreases to - i,
    {
        let c = s[i];
        if !('0' <= c && c <= '9') {
            assert(!is_digit(t[i - from]));
            return None;
        }
        let d: usize = ((c as u32) - ('0' as u32)) as usize;
        assert(t.subrange(0, i + 1 - from).drop_last() =~= t.subrange(0, i - from));
        if acc > (usize::MAX - d) / 10 {
            proof {
                assert(acc * 10 + d > usize::MAX) by (nonlinear_arith)
                    requires
                        acc > (usize::MAX - d) / 10,
                        d <= 9,
                ;
                assert forall|j: int| 0 <= j < i + 1 - from implies is_digit(
                    #[trigger] t.subrange(0, i + 1 - from)[j],
                ) by {
                    if j < i - from {
                        assert(t.subrange(0, i + 1 - from)[j] == t.subrange(0, i - from)[j]);
                    }
                }
                if all_digits(t) {
                    lemma_decimal_value_grows(t, i + 1 - from);
                }
            }
            return None;
        }
        proof {
            assert(acc * 10 + d <= usize::MAX) by (nonlinear_arith)
                requires
                    acc <= (usize::MAX - d) / 10,
                    d <= 9,
            ;
            assert forall|j: int| 0 <= j < i + 1 - from implies is_digit(
                #[trigger] t.subrange(0, i + 1 - from)[j],
            ) by {
                if j < i - from {
                    assert(t.subrange(0, i + 1 - from)[j] == t.subrange(0, i - from)[j]);
                }
            }
        }
        acc = acc * 10 + d;
        i = i + 1;
    }
    assert(t.subrange(0, i - from) =~= t);
    Some(acc)
}

impl Range {
    /// How many positions the range yields; an open end stops at `usize::MAX`.
    pub open spec fn count(self) -> nat {
        if self.start == 0 {
            self.end as nat
        } else if self.end == 0 {
            (usize::MAX - self.start + 1) as nat
        } else if self.start > self.end {
            (self.start - self.end + 1) as nat
        } else {
            (self.end - self.start + 1) as nat
        }
    }

    /// The `i`-th position the range yields (from 0).
    pub open spec fn nth(self, i: int) -> int {
        if self.start == 0 {
            i + 1
        } else if self.end > 0 && self.start > self.end {
            self.start - i
        } else {
            self.start + i
        }
    }

    /// Every position the range yields, in order.
    pub open spec fn position_seq(self) -> Seq<int> {
        Seq::new(self.count(), |i: int| self.nth(i))
    }

    /// Smallest position of the range.
    pub open spec fn lo(self) -> int {
        if self.start == 0 {
            1
        } else if self.end > 0 && self.start > self.end {
            self.end as int
        } else {
            self.start as int
        }
    }

    /// Largest position of the range that is at most `n`.
    pub open spec fn hi(self, n: int) -> int {
        let up = if self.start == 0 {
            self.end as int
        } else if self.end == 0 {
            n
        } else if self.start > self.end {
            self.start as int
        } else {
            self.end as int
        };
        if up < n {
            up
        } else {
            n
        }
    }

    pub open spec fn descending(self) -> bool {
        self.end > 0 && self.start > self.end
    }

    /// The positions of the range within `1..=n`, in the range's own order.
    pub open spec fn in_bounds(self, n: int) -> Seq<int> {
        let lo = self.lo();
        let hi = self.hi(n);
        if lo > hi {
            seq![]
        } else if self.descending() {
            Seq::new((hi - lo + 1) as nat, |i: int| hi - i)
        } else {
            Seq::new((hi - lo + 1) as nat, |i: int| lo + i)
        }
    }

    /// The positions the range yields, one at a time.
    pub fn positions(&self) -> (p: Positions)
        ensures
            p@ == self.position_seq(),
            p.wf(),
    {
        let p = Positions { range: *self, produced: 0 };
        assert(p@ =~= self.position_seq());
        p
    }

    /// The first and last in-bounds position, for `n` units; `None` when no
    /// position lies within `1..=n`.
    pub fn bounds(&self, n: usize) -> (r: Option<(usize, usize)>)
        ensures
            match r {
                Some((lo, hi)) => 1 <= lo <= hi <= n && lo == self.lo() && hi == self.hi(n as int),
                None => self.lo() > self.hi(n as int),
            },
    {
        let lo: usize = if self.start == 0 {
            1
        } else if self.end > 0 && self.start > self.end {
            self.end
        } else {
            self.start
        };
        let up: usize = if self.start == 0 {
            self.end
        } else if self.end == 0 {
            n
        } else if self.start > self.end {
            self.start
        } else {
            self.end
        };
        let hi: usize = if up < n {
            up
        } else {
            n
        };
        if lo > hi {
            None
        } else {
            Some((lo, hi))
        }
    }

    pub fn new(start: usize, end: usize) -> (r: Self)
        ensures
            r == (Range { start, end }),
    {
        Self { start, end }
    }

    /// Parses one selector token.
    pub fn parse(s: &str) -> (r: Result<Range, RangeParseError>)
        ensures
            match r {
                Ok(range) => parse_spec(s@) == Some(range),
                Err(e) => parse_spec(s@) is None && e.token@ == s@,
            },
    {
        let cs = chars_of(s);
        let n = cs.len();
        let mut i: usize = 0;
        while i < n
            invariant
                i <= n == cs@.len(),
                forall|j: int| 0 <= j < i ==> cs@[j] != '-',
            ensures
                i <= n,
                forall|j: int| 0 <= j < i ==> cs@[j] != '-',
                i < n ==> cs@[i as int] == '-',
            decreases n - i,
        {
            if cs[i] == '-' {
                break;
            }
            i = i + 1;
        }
        let parsed = if i < n {
            proof {
                lemma_first_index(cs@, '-', i as int);
            }
            assert(first_index_of(cs@, '-') == Some(i as int));
            if i + 1 == n {
                match parse_number(&cs, 0, i) {
                    Some(v) => Some(Range { start: v, end: 0 }),
                    None => None,
                }
            } else if i == 0 {
                match parse_number(&cs, 1, n) {
                    Some(v) => Some(Range { start: 0, end: v }),
                    None => None,
                }
            } else {
                match (parse_number(&cs, 0, i), parse_number(&cs, i + 1, n)) {
                    (Some(a), Some(b)) => Some(Range { start: a, end: b }),
                    _ => None,
                }
            }
        } else {
            proof {
                lemma_no_index(cs@, '-');
            }
            assert(cs@.subrange(0, n as int) =~= cs@);
            match parse_number(&cs, 0, n) {
                Some(v) => Some(Range { start: v, end: v }),
                None => None,
            }
        };
        match parsed {
            Some(range) => Ok(range),
            None => Err(RangeParseError { token: s.to_owned() }),
        }
    }
}

} // verus!
