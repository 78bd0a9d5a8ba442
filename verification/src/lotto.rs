//! Lotto tickets: a ticket lists winning numbers and drawn numbers, and
//! its score doubles with every match after the first.

use crate::text::{
    digits_val, index_of, is_u32_token, parse_u32, split_once_at, split_whitespace, split_ws,
};
use vstd::prelude::*;

verus! {

/// One lotto ticket: the winning numbers and the numbers in hand.
#[derive(Clone, Debug)]
pub struct LottoTicket {
    pub winning_numbers: Vec<u32>,
    pub numbers: Vec<u32>,
}

/// The index of the first occurrence of `x` in `s`, or `s.len()` when
/// there is none.
pub open spec fn first_pos(s: Seq<u32>, x: u32) -> int
    decreases s.len(),
{
    if s.len() == 0 {
        0
    } else if s[0] == x {
        0
    } else {
        1 + first_pos(s.skip(1), x)
    }
}

/// The first-occurrence index stays inside the bounds.
proof fn lemma_first_pos_bounds(s: Seq<u32>, x: u32)
    ensures
        0 <= first_pos(s, x) <= s.len(),
    decreases s.len(),
{
    if s.len() > 0 && s[0] != x {
        lemma_first_pos_bounds(s.skip(1), x);
    }
}

/// An index bounded by the first occurrence characterizes `first_pos`.
proof fn lemma_first_pos_is(s: Seq<u32>, x: u32, i: int)
    requires
        0 <= i <= s.len(),
        forall|j: int| 0 <= j < i ==> s[j] != x,
        i < s.len() ==> s[i] == x,
    ensures
        first_pos(s, x) == i,
    decreases s.len(),
{
    if s.len() == 0 {
    } else if i == 0 {
    } else {
        assert(s[0] != x);
        lemma_first_pos_is(s.skip(1), x, i - 1);
    }
}

/// The greedy match count: each drawn number in order consumes one
/// occurrence of itself among the remaining winning numbers.
pub open spec fn spec_match_count(win: Seq<u32>, nums: Seq<u32>) -> int
    decreases nums.len(),
    via spec_match_count_decreases
{
    if nums.len() == 0 {
        0
    } else {
        let p = first_pos(win, nums[0]);
        if p < win.len() {
            1 + spec_match_count(win.remove(p), nums.skip(1))
        } else {
            spec_match_count(win, nums.skip(1))
        }
    }
}

#[via_fn]
proof fn spec_match_count_decreases(win: Seq<u32>, nums: Seq<u32>) {
    if nums.len() > 0 {
        lemma_first_pos_bounds(win, nums[0]);
    }
}

impl LottoTicket {
    /// The ticket line has a name before a colon and two whitespace
    /// number lists separated by a bar, every token a decimal number.
    pub open spec fn line_ok(s: Seq<char>) -> bool {
        let body = s.skip(index_of(s, ':') + 1);
        let win_part = body.take(index_of(body, '|'));
        let num_part = body.skip(index_of(body, '|') + 1);
        &&& index_of(s, ':') < s.len()
        &&& index_of(body, '|') < body.len()
        &&& forall|i: int|
            0 <= i < split_ws(win_part).len() ==> is_u32_token(#[trigger] split_ws(win_part)[i])
        &&& forall|i: int|
            0 <= i < split_ws(num_part).len() ==> is_u32_token(#[trigger] split_ws(num_part)[i])
    }

    /// The winning numbers a well-formed ticket line holds.
    pub open spec fn spec_winning_of(s: Seq<char>) -> Seq<u32> {
        let body = s.skip(index_of(s, ':') + 1);
        let win_part = body.take(index_of(body, '|'));
        split_ws(win_part).map_values(|t: Seq<char>| digits_val(t) as u32)
    }

    /// The drawn numbers a well-formed ticket line holds.
    pub open spec fn spec_numbers_of(s: Seq<char>) -> Seq<u32> {
        let body = s.skip(index_of(s, ':') + 1);
        let num_part = body.skip(index_of(body, '|') + 1);
        split_ws(num_part).map_values(|t: Seq<char>| digits_val(t) as u32)
    }

    /// Reads one ticket line.
    pub fn parse(input: &str) -> (r: LottoTicket)
        requires
            input.is_ascii(),
            Self::line_ok(input@),
        ensures
            r.winning_numbers@ == Self::spec_winning_of(input@),
            r.numbers@ == Self::spec_numbers_of(input@),
    {
        proof {
            reveal_strlit(":");
            reveal_strlit("|");
            assert(":"@ =~= seq![':']);
            assert("|"@ =~= seq!['|']);
            crate::text::lemma_single_char_occurrence(input@, ':');
        }
        let name_body = split_once_at(input, ":").unwrap();
        proof {
            assert(name_body.1@ == input@.skip(index_of(input@, ':') + 1));
            crate::text::lemma_single_char_occurrence(name_body.1@, '|');
        }
        let wn_n = split_once_at(name_body.1, "|").unwrap();
        let winning_numbers = Self::parse_number_list(wn_n.0);
        let other_numbers = Self::parse_number_list(wn_n.1);
        proof {
            assert(winning_numbers@ =~= Self::spec_winning_of(input@));
            assert(other_numbers@ =~= Self::spec_numbers_of(input@));
        }
        LottoTicket { winning_numbers, numbers: other_numbers }
    }

    /// Reads a whitespace-separated number list.
    fn parse_number_list(part: &str) -> (r: Vec<u32>)
        requires
            part.is_ascii(),
            forall|i: int|
                0 <= i < split_ws(part@).len() ==> is_u32_token(#[trigger] split_ws(part@)[i]),
        ensures
            r@.len() == split_ws(part@).len(),
            forall|i: int|
                0 <= i < r@.len() ==> #[trigger] r@[i] == digits_val(split_ws(part@)[i]) as u32,
    {
        let toks = split_whitespace(part);
        let ghost tok_views = toks@.map_values(|t: &str| t@);
        let mut values: Vec<u32> = Vec::new();
        let mut i: usize = 0;
        while i < toks.len()
            invariant
                tok_views == toks@.map_values(|t: &str| t@),
                tok_views == split_ws(part@),
                forall|k: int| 0 <= k < toks@.len() ==> (#[trigger] toks@[k]).is_ascii(),
                forall|k: int| 0 <= k < tok_views.len() ==> is_u32_token(#[trigger] tok_views[k]),
                i <= toks@.len(),
                values@.len() == i,
                forall|k: int|
                    0 <= k < i ==> #[trigger] values@[k] == digits_val(tok_views[k]) as u32,
            decreases toks@.len() - i,
        {
            proof {
                assert(tok_views[i as int] == toks@[i as int]@);
            }
            values.push(parse_u32(toks[i]).unwrap());
            i = i + 1;
        }
        values
    }

    /// How many drawn numbers match a winning number, each winning
    /// number matching at most once.
    pub fn count_winning_numbers(&self) -> (r: u32)
        requires
            self.numbers@.len() <= u32::MAX,
        ensures
            r == spec_match_count(self.winning_numbers@, self.numbers@),
    {
        let ghost all_nums = self.numbers@;
        let mut remaining: Vec<u32> = Vec::new();
        let mut c: usize = 0;
        while c < self.winning_numbers.len()
            invariant
                c <= self.winning_numbers@.len(),
                remaining@ == self.winning_numbers@.take(c as int),
            decreases self.winning_numbers@.len() - c,
        {
            proof {
                assert(self.winning_numbers@.take(c + 1) =~= self.winning_numbers@.take(
                    c as int,
                ).push(self.winning_numbers@[c as int]));
            }
            remaining.push(self.winning_numbers[c]);
            c = c + 1;
        }
        proof {
            assert(remaining@ =~= self.winning_numbers@);
        }
        let mut matches: u32 = 0;
        let mut i: usize = 0;
        proof {
            assert(all_nums.skip(0) =~= all_nums);
        }
        while i < self.numbers.len()
            invariant
                all_nums == self.numbers@,
                all_nums.len() <= u32::MAX,
                i <= all_nums.len(),
                matches <= i,
                spec_match_count(self.winning_numbers@, all_nums) == matches + spec_match_count(
                    remaining@,
                    all_nums.skip(i as int),
                ),
            decreases all_nums.len() - i,
        {
            let x = self.numbers[i];
            proof {
                assert(all_nums.skip(i as int)[0] == x);
                assert(all_nums.skip(i as int).skip(1) =~= all_nums.skip(i + 1));
            }
            // search the remaining winning numbers for this drawn number
            let mut p: usize = 0;
            let mut found = false;
            while p < remaining.len() && !found
                invariant
                    p <= remaining@.len(),
                    found ==> p < remaining@.len() && remaining@[p as int] == x,
                    forall|k: int| 0 <= k < p ==> remaining@[k] != x,
                decreases remaining@.len() - p + if found {
                    0int
                } else {
                    1int
                },
            {
                if remaining[p] == x {
                    found = true;
                } else {
                    p = p + 1;
                }
            }
            if found {
                proof {
                    lemma_first_pos_is(remaining@, x, p as int);
                }
                remaining.remove(p);
                matches = matches + 1;
            } else {
                proof {
                    lemma_first_pos_is(remaining@, x, remaining@.len() as int);
                }
            }
            i = i + 1;
        }
        proof {
            assert(all_nums.skip(all_nums.len() as int) =~= Seq::<u32>::empty());
        }
        matches
    }
}

/// The score of a match count: nothing for no match, then one point
/// doubled for every further match.
pub fn calc_score(points: u32) -> (r: u32)
    requires
        points <= 32,
    ensures
        points == 0 ==> r == 0,
        points > 0 ==> r == 1u32 << ((points - 1) as u32),
{
    if points == 0 {
        0
    } else {
        1u32 << (points - 1)
    }
}

} // verus!
