//! The window of a query, and its text form `contig:start-end`.

use crate::text::{digits_value, is_digit};
use vstd::prelude::*;
use vstd::string::StrSliceExecFns;

verus! {

/// Why a text names no region.
#[derive(Clone, Copy, Debug, PartialEq, Eq, Structural)]
pub enum RegionError {
    /// The shape is not `contig:start-end`: there is no colon, no dash
    /// after the last colon, or nothing before the colon.
    Malformed,
    /// A coordinate is empty, holds something else than decimal digits, or
    /// does not fit 32 bits.
    InvalidCoordinate,
    /// The start is not below the end.
    EmptyInterval,
}

/// A region as mathematical values.
pub struct RegionView {
    pub contig: Seq<char>,
    pub start: u32,
    pub stop: u32,
}

/// The half-open window `[start, stop)` on one reference sequence.
#[derive(Debug)]
pub struct Region {
    contig: String,
    start: u32,
    stop: u32,
}

impl View for Region {
    type V = RegionView;

    closed spec fn view(&self) -> RegionView {
        RegionView { contig: self.contig@, start: self.start, stop: self.stop }
    }
}

/// Index of the last `c` in `s`, or -1 if there is none.
pub open spec fn last_index_of(s: Seq<char>, c: char) -> int
    decreases s.len(),
{
    if s.len() == 0 {
        -1
    } else if s.last() == c {
        s.len() - 1
    } else {
        last_index_of(s.drop_last(), c)
    }
}

/// Index of the first `c` in `s` at or after `from`, or the length of `s`
/// if there is none.
pub open spec fn first_index_of(s: Seq<char>, c: char, from: int) -> int
    decreases s.len() - from,
{
    if from >= s.len() {
        s.len() as int
    } else if from >= 0 && s[from] == c {
        from
    } else {
        first_index_of(s, c, from + 1)
    }
}

/// The coordinate that a text stands for: it has at least one character,
/// all of them decimal digits, and its value fits 32 bits.
pub open spec fn coordinate_of(s: Seq<char>) -> Option<u32> {
    if s.len() > 0 && (forall|i: int| 0 <= i < s.len() ==> is_digit(#[trigger] s[i]))
        && digits_value(s) <= u32::MAX {
        Some(digits_value(s) as u32)
    } else {
        None
    }
}

/// The region that a text names. The contig is what stands before the last
/// colon; the coordinates stand after it, on either side of the first dash.
pub open spec fn region_of(s: Seq<char>) -> Result<RegionView, RegionError> {
    let colon = last_index_of(s, ':');
    let dash = first_index_of(s, '-', colon + 1);
    if colon <= 0 || dash >= s.len() {
        Err(RegionError::Malformed)
    } else {
        match (coordinate_of(s.subrange(colon + 1, dash)), coordinate_of(
            s.subrange(dash + 1, s.len() as int),
        )) {
            (Some(start), Some(stop)) => if start < stop {
                Ok(RegionView { contig: s.subrange(0, colon), start, stop })
            } else {
                Err(RegionError::EmptyInterval)
            },
            _ => Err(RegionError::InvalidCoordinate),
        }
    }
}

/// A longer string of digits stands for no smaller a number.
pub proof fn lemma_digits_value_grows(s: Seq<char>, k: int)
    requires
        0 <= k <= s.len(),
    ensures
        digits_value(s.take(k)) <= digits_value(s),
    decreases s.len() - k,
{
    if k == s.len() {
        assert(s.take(k) =~= s);
    } else {
        lemma_digits_value_grows(s, k + 1);
        assert(s.take(k + 1).drop_last() =~= s.take(k));
    }
}

impl Region {
    #[verifier::type_invariant]
    spec fn inv(&self) -> bool {
        self.start < self.stop
    }

    /// The region `[start, stop)` on `contig`; refused exactly when the
    /// start is not below the end.
    pub fn new(contig: String, start: u32, stop: u32) -> (out: Result<Region, RegionError>)
        ensures
            match out {
                Ok(region) => start < stop && region@ == (RegionView {
                    contig: contig@,
                    start,
                    stop,
                }),
                Err(e) => start >= stop && e == RegionError::EmptyInterval,
            },
    {
        if start >= stop {
            return Err(RegionError::EmptyInterval);
        }
        Ok(Region { contig, start, stop })
    }

    /// Name of the reference sequence.
    pub fn contig(&self) -> (name: &String)
        ensures
            name@ == self@.contig,
    {
        &self.contig
    }

    /// First position of the window.
    pub fn start(&self) -> (start: u32)
        ensures
            start == self@.start,
            start < self@.stop,
    {
        proof {
            use_type_invariant(self);
        }
        self.start
    }

    /// One past the last position of the window.
    pub fn stop(&self) -> (stop: u32)
        ensures
            stop == self@.stop,
            self@.start < stop,
    {
        proof {
            use_type_invariant(self);
        }
        self.stop
    }

    /// Number of positions in the window; never 0.
    pub fn len(&self) -> (len: u32)
        ensures
            len == self@.stop - self@.start,
            len > 0,
    {
        proof {
            use_type_invariant(self);
        }
        self.stop - self.start
    }

    /// Reads a region from its text form `contig:start-end`.
    pub fn parse(text: &str) -> (out: Result<Region, RegionError>)
        ensures
            match out {
                Ok(region) => region_of(text@) == Ok::<RegionView, RegionError>(region@),
                Err(e) => region_of(text@) == Err::<RegionView, RegionError>(e),
            },
    {
        let n = text.unicode_len();
        let ghost s = text@;
        // The last colon.
        let mut colon: usize = n;
        let mut found = false;
        proof {
            assert(s.take(n as int) =~= s);
        }
        while colon > 0 && !found
            invariant
                s == text@,
                n == s.len(),
                0 <= colon <= n,
                found ==> colon < n && s[colon as int] == ':' && last_index_of(s, ':') == colon,
                !found ==> last_index_of(s, ':') == last_index_of(s.take(colon as int), ':'),
            decreases colon + if found { 0int } else { 1int },
        {
            let c = text.get_char(colon - 1);
            proof {
                assert(s.take(colon as int).drop_last() =~= s.take(colon as int - 1));
            }
            if c == ':' {
                found = true;
            }
            colon = colon - 1;
        }
        if !found || colon == 0 {
            proof {
                if !found {
                    assert(s.take(0).len() == 0);
                }
            }
            return Err(RegionError::Malformed);
        }
        // The first dash after it.

        let mut dash: usize = colon + 1;
        while dash < n && text.get_char(dash) != '-'
            invariant
                s == text@,
                n == s.len(),
                colon < dash <= n,
                first_index_of(s, '-', colon + 1) == first_index_of(s, '-', dash as int),
            decreases n - dash,
        {
            dash = dash + 1;
        }
        if dash >= n {
            return Err(RegionError::Malformed);
        }
        let start = Self::parse_coordinate(text, colon + 1, dash);
        let stop = Self::parse_coordinate(text, dash + 1, n);
        match (start, stop) {
            (Some(start), Some(stop)) => {
                if start < stop {
                    let contig = text.substring_char(0, colon).to_owned();
                    Ok(Region { contig, start, stop })
                } else {
                    Err(RegionError::EmptyInterval)
                }
            },
            _ => Err(RegionError::InvalidCoordinate),
        }
    }

    /// The coordinate written in the characters `[from, to)` of `text`.
    fn parse_coordinate(text: &str, from: usize, to: usize) -> (out: Option<u32>)
        requires
            from <= to <= text@.len(),
        ensures
            out == coordinate_of(text@.subrange(from as int, to as int)),
    {
        let ghost s = text@.subrange(from as int, to as int);
        if from == to {
            return None;
        }
        let mut value: u64 = 0;
        let mut i: usize = from;
        while i < to
            invariant
                s == text@.subrange(from as int, to as int),
                from <= i <= to <= text@.len(),
                forall|k: int| 0 <= k < i - from ==> is_digit(#[trigger] s[k]),
                value == digits_value(s.take(i - from)),
                value <= u32::MAX,
            decreases to - i,
        {
            let c = text.get_char(i);
            assert(c == s[i - from]);
            if !(c >= '0' && c <= '9') {
                return None;
            }
            let digit: u64 = (c as u32 - '0' as u32) as u64;
            proof {
                assert(s.take(i - from + 1).drop_last() =~= s.take(i - from));
                lemma_digits_value_grows(s, i - from + 1);
            }
            value = value * 10 + digit;
            if value > u32::MAX as u64 {
                return None;
            }
            i = i + 1;
        }
        proof {
            assert(s.take(to - from) =~= s);
        }
        Some(value as u32)
    }
}

} // verus!
