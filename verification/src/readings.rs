//! Ecological readings: a line of numbers is extended by repeatedly
//! taking differences until they vanish, then summing the trailing
//! differences back up.

use crate::text::{is_i32_token, parse_i32, signed_val, split_whitespace, split_ws};
use vstd::prelude::*;

verus! {

/// One line of readings.
#[derive(Clone, Debug)]
pub struct EcoReading {
    pub readings: Vec<i32>,
}

/// The pairwise differences of `s`.
pub open spec fn deltas(s: Seq<int>) -> Seq<int> {
    Seq::new((s.len() - 1) as nat, |i: int| s[i + 1] - s[i])
}

/// All entries are zero.
pub open spec fn all_zero(s: Seq<int>) -> bool {
    forall|i: int| 0 <= i < s.len() ==> s[i] == 0
}

/// The extrapolation of the differences of `s`: zero once the
/// differences vanish, otherwise the last difference plus the
/// extrapolation one level further down.
pub open spec fn spec_extrapolate(s: Seq<int>) -> int
    decreases s.len(),
{
    if s.len() == 0 {
        0
    } else {
        let d = deltas(s);
        if all_zero(d) {
            0
        } else {
            d.last() + spec_extrapolate(d)
        }
    }
}

/// Every difference level of the extrapolation stays within `i32`, and
/// so does every partial sum it produces.
pub open spec fn spec_extrapolate_ok(s: Seq<int>) -> bool
    decreases s.len(),
{
    if s.len() == 0 {
        true
    } else {
        let d = deltas(s);
        &&& (forall|i: int| 0 <= i < d.len() ==> i32::MIN <= #[trigger] d[i] <= i32::MAX)
        &&& (all_zero(d) || {
            &&& i32::MIN <= d.last() + spec_extrapolate(d) <= i32::MAX
            &&& spec_extrapolate_ok(d)
        })
    }
}

/// The integer readings of a reading list.
pub open spec fn int_view(s: Seq<i32>) -> Seq<int> {
    s.map_values(|x: i32| x as int)
}

impl EcoReading {
    /// Every whitespace token of the line is a signed decimal number.
    pub open spec fn line_ok(s: Seq<char>) -> bool {
        forall|i: int| 0 <= i < split_ws(s).len() ==> is_i32_token(#[trigger] split_ws(s)[i])
    }

    /// Reads one line of whitespace-separated readings.
    pub fn parse(input: &str) -> (r: EcoReading)
        requires
            input.is_ascii(),
            Self::line_ok(input@),
        ensures
            r.readings@.len() == split_ws(input@).len(),
            forall|i: int|
                0 <= i < r.readings@.len() ==> #[trigger] r.readings@[i] == signed_val(
                    split_ws(input@)[i],
                ),
    {
        let toks = split_whitespace(input);
        let ghost tok_views = toks@.map_values(|t: &str| t@);
        let mut parsed_readings: Vec<i32> = Vec::new();
        let mut i: usize = 0;
        while i < toks.len()
            invariant
                tok_views == toks@.map_values(|t: &str| t@),
                tok_views == split_ws(input@),
                Self::line_ok(input@),
                forall|k: int| 0 <= k < toks@.len() ==> (#[trigger] toks@[k]).is_ascii(),
                i <= toks@.len(),
                parsed_readings@.len() == i,
                forall|k: int|
                    0 <= k < i ==> #[trigger] parsed_readings@[k] == signed_val(tok_views[k]),
            decreases toks@.len() - i,
        {
            proof {
                assert(tok_views[i as int] == toks@[i as int]@);
            }
            parsed_readings.push(parse_i32(toks[i]).unwrap());
            i = i + 1;
        }
        EcoReading { readings: parsed_readings }
    }

    /// The next reading the line predicts: the extrapolated difference
    /// plus the last reading.
    pub fn extrapolate_next_reading(&self) -> (r: i32)
        requires
            self.readings@.len() >= 1,
            spec_extrapolate_ok(int_view(self.readings@)),
            i32::MIN <= spec_extrapolate(int_view(self.readings@)) + int_view(
                self.readings@,
            ).last() <= i32::MAX,
        ensures
            r == spec_extrapolate(int_view(self.readings@)) + int_view(self.readings@).last(),
    {
        Self::extrapolate_recurse(&self.readings) + self.readings[self.readings.len() - 1]
    }

    /// One level of the extrapolation: the differences of `readings`,
    /// extended by recursion when they do not vanish.
    pub fn extrapolate_recurse(readings: &Vec<i32>) -> (r: i32)
        requires
            spec_extrapolate_ok(int_view(readings@)),
        ensures
            r == spec_extrapolate(int_view(readings@)),
        decreases readings@.len(),
    {
        let n = readings.len();
        if n == 0 {
            return 0;
        }
        let ghost ds = deltas(int_view(readings@));
        let mut sub_readings: Vec<i32> = Vec::new();
        let mut i: usize = 0;
        while i + 1 < n
            invariant
                n == readings@.len(),
                n >= 1,
                ds == deltas(int_view(readings@)),
                spec_extrapolate_ok(int_view(readings@)),
                i <= n - 1,
                sub_readings@.len() == i,
                forall|k: int| 0 <= k < i ==> #[trigger] sub_readings@[k] as int == ds[k],
            decreases n - i,
        {
            proof {
                assert(ds[i as int] == int_view(readings@)[i + 1] - int_view(readings@)[i as int]);
                assert(i32::MIN <= ds[i as int] <= i32::MAX);
            }
            sub_readings.push(readings[i + 1] - readings[i]);
            i = i + 1;
        }
        proof {
            assert(int_view(sub_readings@) =~= ds);
        }
        let mut all_zeroes = true;
        let mut j: usize = 0;
        while j < sub_readings.len()
            invariant
                int_view(sub_readings@) == ds,
                j <= sub_readings@.len(),
                all_zeroes == (forall|k: int| 0 <= k < j ==> ds[k] == 0),
            decreases sub_readings@.len() - j,
        {
            proof {
                assert(ds[j as int] == sub_readings@[j as int] as int);
            }
            if sub_readings[j] != 0 {
                all_zeroes = false;
            }
            j = j + 1;
        }
        if all_zeroes {
            return 0;
        }
        let last_reading: i32 = sub_readings[sub_readings.len() - 1];
        proof {
            assert(!all_zero(ds));
            assert(last_reading as int == ds.last());
        }
        last_reading + Self::extrapolate_recurse(&sub_readings)
    }
}

} // verus!
