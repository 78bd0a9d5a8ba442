//! Spring condition records: a row of springs, each good, damaged or
//! unknown, beside the run lengths of its damaged groups.  Unknown
//! springs are filled in by trying index combinations, and a filled row
//! is valid when its damaged groups match the recorded run lengths.

use crate::text::{
    digits_val, index_of, is_u32_token, parse_u32, split_by, split_char, split_once_at,
};
use itertools::Itertools;
use vstd::prelude::*;

verus! {

broadcast use vstd::laws_cmp::group_laws_cmp, vstd::std_specs::btree::group_btree_axioms;

/// A list of damaged group lengths.
pub type DamageRecord = Vec<u32>;

/// The condition of one spring.
#[derive(PartialEq, Eq, Structural, Debug, Clone, Copy)]
pub enum Condition {
    Good,
    Damaged,
    Unkown,
}

/// One spring record: the row of conditions, the damaged group lengths,
/// and how many conditions are unknown.
#[derive(Debug, Clone, PartialEq, Eq)]
pub struct Record {
    pub record: Vec<Condition>,
    pub damage_record: Vec<u32>,
    pub unknown_count: u32,
}

/// How many entries of `s` equal `c`.
pub open spec fn count_cond(s: Seq<Condition>, c: Condition) -> int
    decreases s.len(),
{
    if s.len() == 0 {
        0
    } else {
        (if s[0] == c {
            1int
        } else {
            0int
        }) + count_cond(s.skip(1), c)
    }
}

/// The sum of the group lengths.
pub open spec fn spec_sum(s: Seq<u32>) -> int
    decreases s.len(),
{
    if s.len() == 0 {
        0
    } else {
        s[0] + spec_sum(s.skip(1))
    }
}

/// The damaged group lengths of a row: the lengths of its maximal runs
/// of damaged springs, in order.  `run` carries the length of the run in
/// progress.
pub open spec fn spec_groups(s: Seq<Condition>, run: int) -> Seq<int>
    decreases s.len(),
{
    if s.len() == 0 {
        if run > 0 {
            seq![run]
        } else {
            seq![]
        }
    } else if s[0] == Condition::Damaged {
        spec_groups(s.skip(1), run + 1)
    } else if run > 0 {
        seq![run] + spec_groups(s.skip(1), 0)
    } else {
        spec_groups(s.skip(1), 0)
    }
}

/// The damaged group lengths of a row.
pub open spec fn spec_damage_record(s: Seq<Condition>) -> Seq<int> {
    spec_groups(s, 0)
}

/// The row with its unknowns filled from `perm` in order: the
/// `cur`-th replacement comes next.
pub open spec fn spec_substitute(rec: Seq<Condition>, perm: Seq<Condition>, cur: int) -> Seq<
    Condition,
>
    decreases rec.len(),
{
    if rec.len() == 0 {
        seq![]
    } else if rec[0] == Condition::Unkown && cur < perm.len() {
        seq![perm[cur]] + spec_substitute(rec.skip(1), perm, cur + 1)
    } else {
        seq![rec[0]] + spec_substitute(rec.skip(1), perm, cur)
    }
}

/// The row of length `n` that is damaged exactly at the indices of
/// `combo` and good everywhere else.
pub open spec fn combo_pattern(n: int, combo: Seq<usize>) -> Seq<Condition> {
    Seq::new(n as nat, |p: int| if combo.contains(p as usize) {
        Condition::Damaged
    } else {
        Condition::Good
    })
}

/// A filling of the row is valid when the damaged groups of the filled
/// row match the recorded group lengths.
pub open spec fn spec_perm_matches(rec: Seq<Condition>, damage: Seq<u32>, perm: Seq<
    Condition,
>) -> bool {
    spec_damage_record(spec_substitute(rec, perm, 0)) == damage.map_values(|v: u32| v as int)
}

/// How many of `perms` fill the row validly.
pub open spec fn spec_count_matching(
    rec: Seq<Condition>,
    damage: Seq<u32>,
    perms: Seq<Seq<Condition>>,
) -> int
    decreases perms.len(),
{
    if perms.len() == 0 {
        0
    } else {
        (if spec_perm_matches(rec, damage, perms[0]) {
            1int
        } else {
            0int
        }) + spec_count_matching(rec, damage, perms.skip(1))
    }
}

/// The index combinations that the combination iterator yields over the
/// range below `n`, taken `k` at a time.
pub uninterp spec fn index_combinations_of(n: usize, k: usize) -> Seq<Seq<usize>>;

/// Relies on itertools' `combinations` over the range `0..n`: every
/// yielded combination holds `k` distinct indices below `n`, and the
/// whole listing depends on `n` and `k` alone.
#[verifier::external_body]
fn index_combinations(n: usize, k: usize) -> (r: Vec<Vec<usize>>)
    ensures
        r@.map_values(|v: Vec<usize>| v@) == index_combinations_of(n, k),
        forall|i: int| 0 <= i < r@.len() ==> (#[trigger] r@[i])@.len() == k,
        forall|i: int|
            0 <= i < r@.len() ==> forall|j: int|
                0 <= j < (#[trigger] r@[i])@.len() ==> #[trigger] r@[i]@[j] < n,
{
    (0..n).combinations(k).collect()
}

/// The factorial of `n`.
pub open spec fn spec_factorial(n: nat) -> nat
    decreases n,
{
    if n == 0 {
        1
    } else {
        n * spec_factorial((n - 1) as nat)
    }
}

/// Factorials are at least one.
pub proof fn lemma_factorial_pos(n: nat)
    ensures
        spec_factorial(n) >= 1,
    decreases n,
{
    if n > 0 {
        lemma_factorial_pos((n - 1) as nat);
        assert(n * spec_factorial((n - 1) as nat) >= spec_factorial((n - 1) as nat))
            by (nonlinear_arith)
            requires
                n >= 1,
                spec_factorial((n - 1) as nat) >= 1,
        ;
    }
}

/// Factorials never decrease.
pub proof fn lemma_factorial_monotonic(a: nat, b: nat)
    requires
        a <= b,
    ensures
        spec_factorial(a) <= spec_factorial(b),
    decreases b,
{
    if a < b {
        lemma_factorial_monotonic(a, (b - 1) as nat);
        lemma_factorial_pos((b - 1) as nat);
        assert(spec_factorial((b - 1) as nat) <= b * spec_factorial((b - 1) as nat))
            by (nonlinear_arith)
            requires
                b >= 1,
                spec_factorial((b - 1) as nat) >= 1,
        ;
    }
}

/// The product of the whole numbers up to `num`.
pub fn factorial(num: u128) -> (r: u128)
    requires
        spec_factorial(num as nat) <= u128::MAX,
    ensures
        r == spec_factorial(num as nat),
{
    let mut acc: u128 = 1;
    let mut i: u128 = 0;
    while i < num
        invariant
            i <= num,
            spec_factorial(num as nat) <= u128::MAX,
            acc == spec_factorial(i as nat),
        decreases num - i,
    {
        proof {
            lemma_factorial_monotonic((i + 1) as nat, num as nat);
            assert(spec_factorial((i + 1) as nat) == (i + 1) * spec_factorial(i as nat));
            assert(acc * (i + 1) == (i + 1) * acc) by (nonlinear_arith);
        }
        acc = acc * (i + 1);
        i = i + 1;
    }
    acc
}

/// How many ways `k` items can be chosen from `n`: the factorial
/// quotient.
pub fn n_choose_k(n: u128, k: u128) -> (r: u128)
    requires
        k <= n,
        spec_factorial(n as nat) <= u128::MAX,
        spec_factorial(k as nat) * spec_factorial((n - k) as nat) <= u128::MAX,
    ensures
        r == spec_factorial(n as nat) as int / (spec_factorial(k as nat) * spec_factorial(
            (n - k) as nat,
        )) as int,
{
    proof {
        lemma_factorial_monotonic(k as nat, n as nat);
        lemma_factorial_monotonic((n - k) as nat, n as nat);
        lemma_factorial_pos(k as nat);
        lemma_factorial_pos((n - k) as nat);
        assert(spec_factorial(k as nat) * spec_factorial((n - k) as nat) >= 1)
            by (nonlinear_arith)
            requires
                spec_factorial(k as nat) >= 1,
                spec_factorial((n - k) as nat) >= 1,
        ;
    }
    factorial(n) / (factorial(k) * factorial(n - k))
}

impl Record {
    /// The unknown count matches the row.
    pub open spec fn wf(self) -> bool {
        self.unknown_count == count_cond(self.record@, Condition::Unkown)
    }

    /// `c` is one of the three condition characters.
    pub open spec fn valid_condition_char(c: char) -> bool {
        c == '.' || c == '#' || c == '?'
    }

    /// The condition a character denotes.
    pub open spec fn spec_condition_of_char(c: char) -> Condition {
        if c == '.' {
            Condition::Good
        } else if c == '#' {
            Condition::Damaged
        } else {
            Condition::Unkown
        }
    }

    /// The record line splits at a space into a condition row and a
    /// comma-separated group list.
    pub open spec fn line_ok(s: Seq<char>) -> bool {
        let row = s.take(index_of(s, ' '));
        let groups = split_by(s.skip(index_of(s, ' ') + 1), ',');
        &&& index_of(s, ' ') < s.len()
        &&& s.take(index_of(s, ' ')).len() <= u32::MAX
        &&& forall|i: int| 0 <= i < row.len() ==> Self::valid_condition_char(#[trigger] row[i])
        &&& forall|i: int| 0 <= i < groups.len() ==> is_u32_token(#[trigger] groups[i])
    }

    /// The condition row a well-formed line holds.
    pub open spec fn spec_row_of(s: Seq<char>) -> Seq<Condition> {
        s.take(index_of(s, ' ')).map_values(|c: char| Self::spec_condition_of_char(c))
    }

    /// The group lengths a well-formed line holds.
    pub open spec fn spec_groups_of(s: Seq<char>) -> Seq<u32> {
        split_by(s.skip(index_of(s, ' ') + 1), ',').map_values(|t: Seq<char>| digits_val(t) as u32)
    }

    /// Parses a spring record from a string input.
    pub fn parse(raw: &str) -> (r: Record)
        requires
            raw.is_ascii(),
            Self::line_ok(raw@),
        ensures
            r.record@ == Self::spec_row_of(raw@),
            r.damage_record@ == Self::spec_groups_of(raw@),
            r.wf(),
    {
        proof {
            reveal_strlit(" ");
            assert(" "@ =~= seq![' ']);
            crate::text::lemma_single_char_occurrence(raw@, ' ');
        }
        let (raw_record, raw_damage_record) = split_once_at(raw, " ").unwrap();
        let ghost row_chars = raw@.take(index_of(raw@, ' '));
        let mut mystery_count: u32 = 0;
        let mut parsed_record: Vec<Condition> = Vec::new();
        let n = raw_record.unicode_len();
        let mut i: usize = 0;
        while i < n
            invariant
                raw_record.is_ascii(),
                n == raw_record@.len(),
                raw_record@ == row_chars,
                forall|k: int|
                    0 <= k < row_chars.len() ==> Self::valid_condition_char(
                        #[trigger] row_chars[k],
                    ),
                row_chars.len() <= u32::MAX,
                i <= n,
                parsed_record@.len() == i,
                forall|k: int|
                    0 <= k < i ==> #[trigger] parsed_record@[k] == Self::spec_condition_of_char(
                        row_chars[k],
                    ),
                mystery_count == count_cond(
                    row_chars.take(i as int).map_values(
                        |c: char| Self::spec_condition_of_char(c),
                    ),
                    Condition::Unkown,
                ),
                mystery_count <= i,
            decreases n - i,
        {
            let c = raw_record.get_ascii(i) as char;
            proof {
                assert(row_chars[i as int] <= '\u{7f}');
                assert(c == row_chars[i as int]);
                let mapped = row_chars.take(i + 1).map_values(
                    |ch: char| Self::spec_condition_of_char(ch),
                );
                let prev = row_chars.take(i as int).map_values(
                    |ch: char| Self::spec_condition_of_char(ch),
                );
                assert(mapped =~= prev.push(Self::spec_condition_of_char(c)));
                lemma_count_cond_push(prev, Self::spec_condition_of_char(c), Condition::Unkown);
            }
            let cond = if c == '.' {
                Condition::Good
            } else if c == '#' {
                Condition::Damaged
            } else {
                mystery_count = mystery_count + 1;
                Condition::Unkown
            };
            parsed_record.push(cond);
            i = i + 1;
        }
        proof {
            assert(row_chars.take(n as int) =~= row_chars);
            assert(parsed_record@ =~= Self::spec_row_of(raw@));
        }
        let group_parts = split_char(raw_damage_record, ',');
        let ghost group_views = group_parts@.map_values(|t: &str| t@);
        let mut parsed_damage_record: Vec<u32> = Vec::new();
        let mut g: usize = 0;
        while g < group_parts.len()
            invariant
                group_views == group_parts@.map_values(|t: &str| t@),
                group_views == split_by(raw@.skip(index_of(raw@, ' ') + 1), ','),
                Self::line_ok(raw@),
                forall|k: int| 0 <= k < group_parts@.len() ==> (#[trigger] group_parts@[k]).is_ascii(),
                g <= group_parts@.len(),
                parsed_damage_record@.len() == g,
                forall|k: int|
                    0 <= k < g ==> #[trigger] parsed_damage_record@[k] == digits_val(
                        group_views[k],
                    ) as u32,
            decreases group_parts@.len() - g,
        {
            proof {
                assert(group_views[g as int] == group_parts@[g as int]@);
            }
            parsed_damage_record.push(parse_u32(group_parts[g]).unwrap());
            g = g + 1;
        }
        proof {
            assert(parsed_damage_record@ =~= Self::spec_groups_of(raw@));
        }
        Record {
            record: parsed_record,
            damage_record: parsed_damage_record,
            unknown_count: mystery_count,
        }
    }

    /// Generates a damage record from a condition row by measuring its
    /// maximal runs of damaged springs.
    pub fn generate_damage_record(record: &Vec<Condition>) -> (r: Vec<u32>)
        requires
            forall|i: int| 0 <= i < record@.len() ==> record@[i] != Condition::Unkown,
            record@.len() <= u32::MAX,
        ensures
            r@.map_values(|v: u32| v as int) == spec_damage_record(record@),
    {
        let ghost all = record@;
        let mut damage_record: Vec<u32> = Vec::new();
        let mut damage_counter: u32 = 0;
        let mut i: usize = 0;
        proof {
            assert(all.skip(0) =~= all);
        }
        while i < record.len()
            invariant
                all == record@,
                all.len() <= u32::MAX,
                i <= all.len(),
                damage_counter <= i,
                spec_damage_record(all) == damage_record@.map_values(|v: u32| v as int)
                    + spec_groups(all.skip(i as int), damage_counter as int),
            decreases all.len() - i,
        {
            proof {
                assert(all.skip(i as int)[0] == all[i as int]);
                assert(all.skip(i as int).skip(1) =~= all.skip(i + 1));
            }
            let spring = record[i];
            match spring {
                Condition::Damaged => {
                    damage_counter = damage_counter + 1;
                },
                _ => {
                    if damage_counter > 0 {
                        proof {
                            let mapped = damage_record@.map_values(|v: u32| v as int);
                            assert(mapped.push(damage_counter as int) =~= damage_record@.push(
                                damage_counter,
                            ).map_values(|v: u32| v as int));
                            assert(mapped + (seq![damage_counter as int] + spec_groups(
                                all.skip(i + 1),
                                0,
                            )) =~= mapped.push(damage_counter as int) + spec_groups(
                                all.skip(i + 1),
                                0,
                            ));
                        }
                        damage_record.push(damage_counter);
                        damage_counter = 0;
                    }
                },
            }
            i = i + 1;
        }
        proof {
            assert(all.skip(all.len() as int) =~= Seq::<Condition>::empty());
        }
        if damage_counter > 0 {
            proof {
                let mapped = damage_record@.map_values(|v: u32| v as int);
                assert(mapped.push(damage_counter as int) =~= damage_record@.push(
                    damage_counter,
                ).map_values(|v: u32| v as int));
                assert(mapped + seq![damage_counter as int] =~= mapped.push(
                    damage_counter as int,
                ));
            }
            damage_record.push(damage_counter);
        } else {
            proof {
                assert(damage_record@.map_values(|v: u32| v as int) + Seq::<int>::empty()
                    =~= damage_record@.map_values(|v: u32| v as int));
            }
        }
        damage_record
    }

    /// Sum of the values in the damage record.
    pub fn count_damaged_springs(&self) -> (r: u32)
        requires
            spec_sum(self.damage_record@) <= u32::MAX,
        ensures
            r == spec_sum(self.damage_record@),
    {
        let ghost all = self.damage_record@;
        let mut acc: u32 = 0;
        let mut i: usize = 0;
        proof {
            assert(all.skip(0) =~= all);
            lemma_sum_nonneg(all);
        }
        while i < self.damage_record.len()
            invariant
                all == self.damage_record@,
                spec_sum(all) <= u32::MAX,
                i <= all.len(),
                spec_sum(all) == acc + spec_sum(all.skip(i as int)),
            decreases all.len() - i,
        {
            proof {
                assert(all.skip(i as int)[0] == all[i as int]);
                assert(all.skip(i as int).skip(1) =~= all.skip(i + 1));
                lemma_sum_nonneg(all.skip(i + 1));
            }
            acc = acc + self.damage_record[i];
            i = i + 1;
        }
        proof {
            assert(all.skip(all.len() as int) =~= Seq::<u32>::empty());
        }
        acc
    }

    /// Sum of the minimum number of springs needed to represent the
    /// damage record: the damaged springs plus one separator between
    /// each pair of groups.
    pub fn count_minumum_springs(&self) -> (r: usize)
        requires
            spec_sum(self.damage_record@) <= u32::MAX,
            self.damage_record@.len() >= 1,
            spec_sum(self.damage_record@) + self.damage_record@.len() - 1 <= usize::MAX,
        ensures
            r == spec_sum(self.damage_record@) + self.damage_record@.len() - 1,
    {
        proof {
            lemma_sum_nonneg(self.damage_record@);
        }
        self.count_damaged_springs() as usize + (self.damage_record.len() - 1)
    }
}

/// The group list repeated `n` times.
pub open spec fn spec_repeat_groups(s: Seq<u32>, n: int) -> Seq<u32>
    decreases n,
{
    if n <= 0 {
        seq![]
    } else {
        spec_repeat_groups(s, n - 1) + s
    }
}

/// The condition row repeated `n` times with one unknown spring linking
/// each pair of copies.
pub open spec fn spec_fold_row(s: Seq<Condition>, n: int) -> Seq<Condition>
    decreases n,
{
    if n <= 1 {
        s
    } else {
        spec_fold_row(s, n - 1) + seq![Condition::Unkown] + s
    }
}

/// Counting distributes over concatenation.
proof fn lemma_count_cond_concat(a: Seq<Condition>, b: Seq<Condition>, c: Condition)
    ensures
        count_cond(a + b, c) == count_cond(a, c) + count_cond(b, c),
    decreases a.len(),
{
    if a.len() == 0 {
        assert(a + b =~= b);
    } else {
        assert((a + b)[0] == a[0]);
        assert((a + b).skip(1) =~= a.skip(1) + b);
        lemma_count_cond_concat(a.skip(1), b, c);
    }
}

/// The folded row holds one unknown per link plus `n` copies of the
/// originals.
proof fn lemma_fold_row_unknowns(s: Seq<Condition>, n: int)
    requires
        n >= 1,
    ensures
        count_cond(spec_fold_row(s, n), Condition::Unkown) == n * count_cond(
            s,
            Condition::Unkown,
        ) + (n - 1),
    decreases n,
{
    reveal_with_fuel(count_cond, 3);
    if n == 1 {
        assert(1 * count_cond(s, Condition::Unkown) == count_cond(s, Condition::Unkown))
            by (nonlinear_arith);
    } else {
        lemma_fold_row_unknowns(s, n - 1);
        lemma_count_cond_concat(spec_fold_row(s, n - 1) + seq![Condition::Unkown], s,
            Condition::Unkown);
        lemma_count_cond_concat(spec_fold_row(s, n - 1), seq![Condition::Unkown],
            Condition::Unkown);
        assert(count_cond(seq![Condition::Unkown], Condition::Unkown) == 1);
        assert(n * count_cond(s, Condition::Unkown) == (n - 1) * count_cond(s, Condition::Unkown)
            + count_cond(s, Condition::Unkown)) by (nonlinear_arith);
    }
}

/// The substituted row keeps the length of the original.
proof fn lemma_substitute_len(rec: Seq<Condition>, perm: Seq<Condition>, cur: int)
    ensures
        spec_substitute(rec, perm, cur).len() == rec.len(),
    decreases rec.len(),
{
    if rec.len() > 0 {
        if rec[0] == Condition::Unkown && cur < perm.len() {
            lemma_substitute_len(rec.skip(1), perm, cur + 1);
        } else {
            lemma_substitute_len(rec.skip(1), perm, cur);
        }
    }
}

/// With enough non-unknown replacements on hand, substitution leaves no
/// unknown spring behind.
proof fn lemma_substitute_no_unknown(rec: Seq<Condition>, perm: Seq<Condition>, cur: int)
    requires
        forall|i: int| 0 <= i < perm.len() ==> perm[i] != Condition::Unkown,
        perm.len() - cur >= count_cond(rec, Condition::Unkown),
        cur >= 0,
    ensures
        forall|i: int|
            0 <= i < spec_substitute(rec, perm, cur).len() ==> spec_substitute(rec, perm, cur)[i]
                != Condition::Unkown,
    decreases rec.len(),
{
    lemma_count_cond_nonneg(rec.skip(1), Condition::Unkown);
    if rec.len() > 0 {
        if rec[0] == Condition::Unkown && cur < perm.len() {
            lemma_substitute_no_unknown(rec.skip(1), perm, cur + 1);
        } else {
            lemma_substitute_no_unknown(rec.skip(1), perm, cur);
        }
    }
}

/// A condition count is never negative.
proof fn lemma_count_cond_nonneg(s: Seq<Condition>, c: Condition)
    ensures
        count_cond(s, c) >= 0,
    decreases s.len(),
{
    if s.len() > 0 {
        lemma_count_cond_nonneg(s.skip(1), c);
    }
}

impl Record {
    /// Returns a copy of the Record that has been folded `num_fold`
    /// times: the row repeated with an unknown spring between copies,
    /// the group list repeated as it stands.
    pub fn fold(&self, num_fold: usize) -> (r: Record)
        requires
            self.wf(),
            1 <= num_fold <= u32::MAX,
            self.record@.len() * num_fold + (num_fold - 1) <= usize::MAX,
            self.damage_record@.len() * num_fold <= usize::MAX,
            self.unknown_count * num_fold + (num_fold - 1) <= u32::MAX,
        ensures
            r.record@ == spec_fold_row(self.record@, num_fold as int),
            r.damage_record@ == spec_repeat_groups(self.damage_record@, num_fold as int),
            r.unknown_count == self.unknown_count * num_fold + (num_fold - 1),
            r.wf(),
    {
        proof {
            lemma_count_cond_nonneg(self.record@, Condition::Unkown);
        }
        let mut folded_damage_record: Vec<u32> = Vec::new();
        let mut t: usize = 0;
        while t < num_fold
            invariant
                t <= num_fold,
                self.damage_record@.len() * num_fold <= usize::MAX,
                folded_damage_record@ == spec_repeat_groups(self.damage_record@, t as int),
                folded_damage_record@.len() == self.damage_record@.len() * t,
            decreases num_fold - t,
        {
            let mut k: usize = 0;
            proof {
                assert(self.damage_record@.len() * (t + 1) == self.damage_record@.len() * (
                t as int) + self.damage_record@.len()) by (nonlinear_arith);
                assert(self.damage_record@.len() * (t + 1) <= self.damage_record@.len()
                    * num_fold) by (nonlinear_arith)
                    requires
                        t + 1 <= num_fold,
                        self.damage_record@.len() >= 0,
                ;
            }
            while k < self.damage_record.len()
                invariant
                    k <= self.damage_record@.len(),
                    folded_damage_record@ == spec_repeat_groups(self.damage_record@, t as int)
                        + self.damage_record@.take(k as int),
                    folded_damage_record@.len() == self.damage_record@.len() * (t as int) + k,
                    self.damage_record@.len() * (t as int) + self.damage_record@.len()
                        <= usize::MAX,
                decreases self.damage_record@.len() - k,
            {
                proof {
                    assert(self.damage_record@.take(k + 1) =~= self.damage_record@.take(
                        k as int,
                    ).push(self.damage_record@[k as int]));
                    assert((spec_repeat_groups(self.damage_record@, t as int)
                        + self.damage_record@.take(k as int)).push(self.damage_record@[k as int])
                        =~= spec_repeat_groups(self.damage_record@, t as int)
                        + self.damage_record@.take(k + 1));
                }
                folded_damage_record.push(self.damage_record[k]);
                k = k + 1;
            }
            proof {
                assert(self.damage_record@.take(self.damage_record@.len() as int)
                    =~= self.damage_record@);
            }
            t = t + 1;
        }
        let mut repeated_original_record: Vec<Condition> = Vec::new();
        let mut f: usize = 0;
        while f < num_fold
            invariant
                f <= num_fold,
                num_fold >= 1,
                self.record@.len() * num_fold + (num_fold - 1) <= usize::MAX,
                f >= 1 ==> repeated_original_record@ == spec_fold_row(self.record@, f as int),
                f >= 1 ==> repeated_original_record@.len() == self.record@.len() * f + (f - 1),
                f == 0 ==> repeated_original_record@.len() == 0,
            decreases num_fold - f,
        {
            proof {
                assert(self.record@.len() * (f + 1) + f <= self.record@.len() * num_fold + (
                num_fold - 1)) by (nonlinear_arith)
                    requires
                        f + 1 <= num_fold,
                        self.record@.len() >= 0,
                ;
                assert(self.record@.len() * (f + 1) == self.record@.len() * (f as int)
                    + self.record@.len()) by (nonlinear_arith);
            }
            if f > 0 {
                repeated_original_record.push(Condition::Unkown);
            }
            let ghost base = repeated_original_record@;
            let mut k: usize = 0;
            while k < self.record.len()
                invariant
                    k <= self.record@.len(),
                    repeated_original_record@ == base + self.record@.take(k as int),
                decreases self.record@.len() - k,
            {
                proof {
                    assert(self.record@.take(k + 1) =~= self.record@.take(k as int).push(
                        self.record@[k as int],
                    ));
                    assert((base + self.record@.take(k as int)).push(self.record@[k as int])
                        =~= base + self.record@.take(k + 1));
                }
                repeated_original_record.push(self.record[k]);
                k = k + 1;
            }
            proof {
                assert(self.record@.take(self.record@.len() as int) =~= self.record@);
                if f == 0 {
                    assert(base =~= Seq::<Condition>::empty());
                    assert(base + self.record@ =~= self.record@);
                } else {
                    assert(base =~= spec_fold_row(self.record@, f as int).push(
                        Condition::Unkown,
                    ));
                    assert(base + self.record@ =~= spec_fold_row(self.record@, f as int) + seq![
                        Condition::Unkown,
                    ] + self.record@);
                }
            }
            f = f + 1;
        }
        let new_unknowns: u32 = self.unknown_count * (num_fold as u32) + (num_fold as u32 - 1);
        proof {
            lemma_fold_row_unknowns(self.record@, num_fold as int);
            assert(num_fold as int * count_cond(self.record@, Condition::Unkown)
                == self.unknown_count as int * num_fold as int) by (nonlinear_arith)
                requires
                    count_cond(self.record@, Condition::Unkown) == self.unknown_count as int,
            ;
        }
        Record {
            record: repeated_original_record,
            damage_record: folded_damage_record,
            unknown_count: new_unknowns,
        }
    }

    /// Takes a mystery record, one made of only unknown springs, and
    /// squashes every damaged group to size one, shrinking the row by
    /// the springs squashed away.
    pub fn reduce_mystery_record(&self) -> (r: Record)
        requires
            forall|i: int| 0 <= i < self.record@.len() ==> self.record@[i] == Condition::Unkown,
            forall|i: int| 0 <= i < self.damage_record@.len() ==> self.damage_record@[i] >= 1,
            spec_sum(self.damage_record@) <= u32::MAX,
            spec_sum(self.damage_record@) - self.damage_record@.len() <= self.record@.len(),
            self.record@.len() <= u32::MAX,
        ensures
            r.record@ == Seq::new(
                (self.record@.len() - (spec_sum(self.damage_record@)
                    - self.damage_record@.len())) as nat,
                |i: int| Condition::Unkown,
            ),
            r.damage_record@ == Seq::new(self.damage_record@.len(), |i: int| 1u32),
            r.unknown_count == r.record@.len(),
    {
        let ghost all = self.damage_record@;
        // count the springs taken away when each group shrinks to one
        let mut reduction_count: u32 = 0;
        let mut i: usize = 0;
        proof {
            assert(all.skip(0) =~= all);
            lemma_reduction_nonneg(all);
        }
        while i < self.damage_record.len()
            invariant
                all == self.damage_record@,
                forall|k: int| 0 <= k < all.len() ==> all[k] >= 1,
                spec_sum(all) <= u32::MAX,
                i <= all.len(),
                reduction_count + (spec_sum(all.skip(i as int)) - all.skip(i as int).len())
                    == spec_sum(all) - all.len(),
                reduction_count <= spec_sum(all) - all.len(),
            decreases all.len() - i,
        {
            proof {
                assert(all.skip(i as int)[0] == all[i as int]);
                assert(all.skip(i as int).skip(1) =~= all.skip(i + 1));
                lemma_reduction_nonneg(all.skip(i + 1));
            }
            reduction_count = reduction_count + (self.damage_record[i] - 1);
            i = i + 1;
        }
        proof {
            assert(all.skip(all.len() as int) =~= Seq::<u32>::empty());
        }
        let reduced_record_size: usize = self.record.len() - reduction_count as usize;
        let mut reduced_record: Vec<Condition> = Vec::new();
        let mut p: usize = 0;
        while p < reduced_record_size
            invariant
                p <= reduced_record_size,
                reduced_record@ =~= Seq::new(p as nat, |k: int| Condition::Unkown),
            decreases reduced_record_size - p,
        {
            reduced_record.push(Condition::Unkown);
            p = p + 1;
        }
        let mut reduced_damage_record: Vec<u32> = Vec::new();
        let mut q: usize = 0;
        while q < self.damage_record.len()
            invariant
                q <= self.damage_record@.len(),
                reduced_damage_record@ =~= Seq::new(q as nat, |k: int| 1u32),
            decreases self.damage_record@.len() - q,
        {
            reduced_damage_record.push(1);
            q = q + 1;
        }
        Record {
            record: reduced_record,
            damage_record: reduced_damage_record,
            unknown_count: reduced_record_size as u32,
        }
    }
}

impl Record {
    /// Returns the list of fillings for a row of `length` unknown
    /// springs, each filling damaged at one combination of
    /// `required_damage` indices.
    pub fn get_all_permutations(length: usize, required_damage: usize) -> (r: Vec<Vec<Condition>>)
        ensures
            r@.len() == index_combinations_of(length, required_damage).len(),
            forall|i: int|
                0 <= i < r@.len() ==> (#[trigger] r@[i])@ == combo_pattern(
                    length as int,
                    index_combinations_of(length, required_damage)[i],
                ),
    {
        let combos = index_combinations(length, required_damage);
        let ghost combo_views = combos@.map_values(|v: Vec<usize>| v@);
        let mut all: Vec<Vec<Condition>> = Vec::new();
        let mut i: usize = 0;
        while i < combos.len()
            invariant
                combo_views == combos@.map_values(|v: Vec<usize>| v@),
                combo_views == index_combinations_of(length, required_damage),
                forall|k: int|
                    0 <= k < combos@.len() ==> forall|j: int|
                        0 <= j < (#[trigger] combos@[k])@.len() ==> #[trigger] combos@[k]@[j]
                            < length,
                i <= combos@.len(),
                all@.len() == i,
                forall|k: int|
                    0 <= k < i ==> (#[trigger] all@[k])@ == combo_pattern(
                        length as int,
                        combo_views[k],
                    ),
            decreases combos@.len() - i,
        {
            proof {
                assert(combo_views[i as int] == combos@[i as int]@);
            }
            let filled = Self::fill_pattern(length, &combos[i]);
            all.push(filled);
            i = i + 1;
        }
        all
    }

    /// Builds one filling: a row of `length` good springs, made damaged
    /// at the indices of `combo`.
    fn fill_pattern(length: usize, combo: &Vec<usize>) -> (r: Vec<Condition>)
        requires
            forall|j: int| 0 <= j < combo@.len() ==> #[trigger] combo@[j] < length,
        ensures
            r@ == combo_pattern(length as int, combo@),
    {
        let mut gen_combo: Vec<Condition> = Vec::new();
        let mut p: usize = 0;
        while p < length
            invariant
                p <= length,
                gen_combo@.len() == p,
                forall|k: int| 0 <= k < p ==> #[trigger] gen_combo@[k] == Condition::Good,
            decreases length - p,
        {
            gen_combo.push(Condition::Good);
            p = p + 1;
        }
        proof {
            assert(gen_combo@ =~= combo_pattern(length as int, combo@.take(0)));
        }
        let mut t: usize = 0;
        while t < combo.len()
            invariant
                forall|j: int| 0 <= j < combo@.len() ==> #[trigger] combo@[j] < length,
                t <= combo@.len(),
                gen_combo@.len() == length,
                gen_combo@ == combo_pattern(length as int, combo@.take(t as int)),
            decreases combo@.len() - t,
        {
            let index = combo[t];
            gen_combo[index] = Condition::Damaged;
            proof {
                let prev = combo@.take(t as int);
                let next = combo@.take(t + 1);
                assert(next =~= prev.push(combo@[t as int]));
                assert forall|k: int| 0 <= k < length implies combo_pattern(
                    length as int,
                    prev,
                ).update(index as int, Condition::Damaged)[k] == combo_pattern(
                    length as int,
                    next,
                )[k] by {
                    if k == index {
                        assert(next[t as int] == combo@[t as int]);
                        assert(next.contains(index));
                    } else {
                        if prev.contains(k as usize) {
                            let w = choose|w: int| 0 <= w < prev.len() && prev[w] == k as usize;
                            assert(next[w] == k as usize);
                            assert(next.contains(k as usize));
                        }
                        if next.contains(k as usize) {
                            let w = choose|w: int| 0 <= w < next.len() && next[w] == k as usize;
                            assert(w < prev.len());
                            assert(prev[w] == k as usize);
                            assert(prev.contains(k as usize));
                        }
                    }
                }
                assert(combo_pattern(length as int, prev).update(index as int, Condition::Damaged)
                    =~= combo_pattern(length as int, next));
            }
            t = t + 1;
        }
        proof {
            assert(combo@.take(combo@.len() as int) =~= combo@);
        }
        gen_combo
    }

    /// Applies a filling to the record: unknown springs take the
    /// filling's entries in order, and the damage record is regenerated
    /// from the filled row.
    pub fn apply_permutation(original_record: Record, permutation: &Vec<Condition>) -> (r: Record)
        requires
            permutation@.len() == 0 ==> count_cond(original_record.record@, Condition::Unkown)
                == 0,
            forall|i: int|
                0 <= i < spec_substitute(original_record.record@, permutation@, 0).len()
                    ==> spec_substitute(original_record.record@, permutation@, 0)[i]
                    != Condition::Unkown,
            original_record.record@.len() <= u32::MAX,
        ensures
            r.record@ == spec_substitute(original_record.record@, permutation@, 0),
            r.damage_record@.map_values(|v: u32| v as int) == spec_damage_record(
                spec_substitute(original_record.record@, permutation@, 0),
            ),
            r.unknown_count == 0,
    {
        let ghost rec = original_record.record@;
        let ghost perm = permutation@;
        proof {
            lemma_substitute_len(rec, perm, 0);
        }
        let mut new_record = original_record;
        let num_replacements = permutation.len();
        let mut current_replacement: usize = 0;
        let mut idx: usize = 0;
        let len = new_record.record.len();
        proof {
            assert(rec.skip(0) =~= rec);
        }
        while idx < len
            invariant
                perm == permutation@,
                len == rec.len(),
                num_replacements == perm.len(),
                idx <= len,
                current_replacement <= perm.len(),
                new_record.record@.len() == len,
                rec.skip(idx as int) =~= new_record.record@.skip(idx as int),
                spec_substitute(rec, perm, 0) == new_record.record@.take(idx as int)
                    + spec_substitute(rec.skip(idx as int), perm, current_replacement as int),
            decreases len - idx,
        {
            proof {
                assert(rec.skip(idx as int)[0] == new_record.record@[idx as int]);
                assert(rec.skip(idx as int).skip(1) =~= rec.skip(idx + 1));
                assert(new_record.record@.skip(idx as int).skip(1) =~= new_record.record@.skip(
                    idx + 1,
                ));
            }
            let existing = new_record.record[idx];
            if matches!(existing, Condition::Unkown) && current_replacement < num_replacements {
                let replacement = permutation[current_replacement];
                new_record.record[idx] = replacement;
                proof {
                    assert(new_record.record@.take(idx + 1) =~= new_record.record@.take(
                        idx as int,
                    ).push(replacement));
                    assert(new_record.record@.take(idx as int).push(replacement)
                        + spec_substitute(rec.skip(idx + 1), perm, current_replacement + 1)
                        =~= new_record.record@.take(idx as int) + (seq![replacement]
                        + spec_substitute(rec.skip(idx + 1), perm, current_replacement + 1)));
                    assert(rec.skip(idx + 1) =~= new_record.record@.skip(idx + 1));
                }
                current_replacement = current_replacement + 1;
            } else {
                proof {
                    assert(new_record.record@.take(idx + 1) =~= new_record.record@.take(
                        idx as int,
                    ).push(existing));
                    assert(new_record.record@.take(idx as int).push(existing) + spec_substitute(
                        rec.skip(idx + 1),
                        perm,
                        current_replacement as int,
                    ) =~= new_record.record@.take(idx as int) + (seq![existing]
                        + spec_substitute(rec.skip(idx + 1), perm, current_replacement as int)));
                    if matches!(existing, Condition::Unkown) {
                        lemma_count_cond_nonneg(rec.skip(idx as int).skip(1), Condition::Unkown);
                    }
                }
            }
            idx = idx + 1;
        }
        proof {
            assert(rec.skip(len as int) =~= Seq::<Condition>::empty());
            assert(new_record.record@.take(len as int) =~= new_record.record@);
            assert(new_record.record@ + Seq::<Condition>::empty() =~= new_record.record@);
            assert(new_record.record@ == spec_substitute(rec, perm, 0));
        }
        let regenerated = Self::generate_damage_record(&new_record.record);
        new_record.damage_record = regenerated;
        new_record.unknown_count = 0;
        new_record
    }

    /// How many of the given fillings turn this record's row into one
    /// whose damaged groups match its damage record.
    pub fn count_matching_permutations(&self, perms: &Vec<Vec<Condition>>) -> (r: usize)
        requires
            self.record@.len() <= u32::MAX,
            forall|i: int|
                0 <= i < perms@.len() ==> ((#[trigger] perms@[i])@.len() == 0 ==> count_cond(
                    self.record@,
                    Condition::Unkown,
                ) == 0),
            forall|i: int|
                0 <= i < perms@.len() ==> forall|k: int|
                    0 <= k < spec_substitute(self.record@, (#[trigger] perms@[i])@, 0).len()
                        ==> spec_substitute(self.record@, perms@[i]@, 0)[k] != Condition::Unkown,
        ensures
            r == spec_count_matching(
                self.record@,
                self.damage_record@,
                perms@.map_values(|v: Vec<Condition>| v@),
            ),
    {
        let ghost perm_views = perms@.map_values(|v: Vec<Condition>| v@);
        let mut matching: usize = 0;
        let mut i: usize = 0;
        proof {
            assert(perm_views.skip(0) =~= perm_views);
            lemma_count_matching_bound(self.record@, self.damage_record@, perm_views);
        }
        while i < perms.len()
            invariant
                perm_views == perms@.map_values(|v: Vec<Condition>| v@),
                self.record@.len() <= u32::MAX,
                forall|k: int|
                    0 <= k < perms@.len() ==> ((#[trigger] perms@[k])@.len() == 0 ==> count_cond(
                        self.record@,
                        Condition::Unkown,
                    ) == 0),
                forall|k: int|
                    0 <= k < perms@.len() ==> forall|m: int|
                        0 <= m < spec_substitute(self.record@, (#[trigger] perms@[k])@, 0).len()
                            ==> spec_substitute(self.record@, perms@[k]@, 0)[m]
                            != Condition::Unkown,
                i <= perms@.len(),
                matching <= i,
                spec_count_matching(self.record@, self.damage_record@, perm_views) == matching
                    + spec_count_matching(
                    self.record@,
                    self.damage_record@,
                    perm_views.skip(i as int),
                ),
            decreases perms@.len() - i,
        {
            proof {
                assert(perm_views[i as int] == perms@[i as int]@);
                assert(perm_views.skip(i as int)[0] == perm_views[i as int]);
                assert(perm_views.skip(i as int).skip(1) =~= perm_views.skip(i + 1));
                lemma_count_matching_bound(
                    self.record@,
                    self.damage_record@,
                    perm_views.skip(i + 1),
                );
            }
            let row_copy = copy_conditions(&self.record);
            let temp_record = Self::apply_permutation(
                Record { record: row_copy, damage_record: Vec::new(), unknown_count: 0 },
                &perms[i],
            );
            if eq_u32_vecs(&temp_record.damage_record, &self.damage_record) {
                proof {
                    lemma_map_int_eq(temp_record.damage_record@, self.damage_record@);
                }
                matching = matching + 1;
            } else {
                proof {
                    lemma_map_int_eq(temp_record.damage_record@, self.damage_record@);
                }
            }
            i = i + 1;
        }
        proof {
            assert(perm_views.skip(perms@.len() as int) =~= Seq::<Seq<Condition>>::empty());
        }
        matching
    }

    /// Returns the number of fillings of this record's unknown springs
    /// that do not invalidate its damage record.
    pub fn get_valid_permutations(&self) -> (r: usize)
        requires
            self.wf(),
            self.record@.len() <= u32::MAX,
            spec_sum(self.damage_record@) <= u32::MAX,
            count_cond(self.record@, Condition::Damaged) <= spec_sum(self.damage_record@),
        ensures
            r == spec_count_matching(
                self.record@,
                self.damage_record@,
                index_combinations_of(
                    self.unknown_count as usize,
                    (spec_sum(self.damage_record@) - count_cond(
                        self.record@,
                        Condition::Damaged,
                    )) as usize,
                ).map_values(
                    |c: Seq<usize>| combo_pattern(self.unknown_count as int, c),
                ),
            ),
    {
        // how many of the unknown springs must turn out damaged
        let damage_count = count_conditions(&self.record, Condition::Damaged);
        let required_damage_nodes = self.count_damaged_springs() as usize - damage_count;
        let all_perms = Self::get_all_permutations(
            self.unknown_count as usize,
            required_damage_nodes,
        );
        proof {
            lemma_count_cond_nonneg(self.record@, Condition::Damaged);
            let n = self.unknown_count as usize;
            let patterns = index_combinations_of(n, required_damage_nodes).map_values(
                |c: Seq<usize>| combo_pattern(self.unknown_count as int, c),
            );
            assert(all_perms@.map_values(|v: Vec<Condition>| v@) =~= patterns);
            assert forall|i: int| 0 <= i < all_perms@.len() implies ((
            #[trigger] all_perms@[i])@.len() == 0 ==> count_cond(
                self.record@,
                Condition::Unkown,
            ) == 0) by {
                assert(all_perms@[i]@.len() == self.unknown_count);
            }
            assert forall|i: int| 0 <= i < all_perms@.len() implies forall|k: int|
                0 <= k < spec_substitute(self.record@, (#[trigger] all_perms@[i])@, 0).len()
                    ==> spec_substitute(self.record@, all_perms@[i]@, 0)[k]
                    != Condition::Unkown by {
                assert(all_perms@[i]@ == combo_pattern(
                    self.unknown_count as int,
                    index_combinations_of(n, required_damage_nodes)[i],
                ));
                assert(all_perms@[i]@.len() == self.unknown_count);
                assert forall|m: int| 0 <= m < all_perms@[i]@.len() implies all_perms@[i]@[m]
                    != Condition::Unkown by {}
                lemma_substitute_no_unknown(self.record@, all_perms@[i]@, 0);
            }
        }
        self.count_matching_permutations(&all_perms)
    }
}

/// The matching count never exceeds the number of fillings offered.
proof fn lemma_count_matching_bound(
    rec: Seq<Condition>,
    damage: Seq<u32>,
    perms: Seq<Seq<Condition>>,
)
    ensures
        0 <= spec_count_matching(rec, damage, perms) <= perms.len(),
    decreases perms.len(),
{
    if perms.len() > 0 {
        lemma_count_matching_bound(rec, damage, perms.skip(1));
    }
}

/// Two group lists agree exactly when their integer readings agree.
proof fn lemma_map_int_eq(a: Seq<u32>, b: Seq<u32>)
    ensures
        (a == b) == (a.map_values(|v: u32| v as int) == b.map_values(|v: u32| v as int)),
{
    let ma = a.map_values(|v: u32| v as int);
    let mb = b.map_values(|v: u32| v as int);
    if ma == mb {
        assert(a.len() == ma.len());
        assert(b.len() == mb.len());
        assert forall|i: int| 0 <= i < a.len() implies a[i] == b[i] by {
            assert(ma[i] == a[i] as int);
            assert(mb[i] == b[i] as int);
        }
        assert(a =~= b);
    }
    if a == b {
        assert(ma =~= mb);
    }
}

/// Copies a condition row.
fn copy_conditions(v: &Vec<Condition>) -> (r: Vec<Condition>)
    ensures
        r@ == v@,
{
    let mut out: Vec<Condition> = Vec::new();
    let mut i: usize = 0;
    while i < v.len()
        invariant
            i <= v@.len(),
            out@ == v@.take(i as int),
        decreases v@.len() - i,
    {
        proof {
            assert(v@.take(i + 1) =~= v@.take(i as int).push(v@[i as int]));
        }
        out.push(v[i]);
        i = i + 1;
    }
    proof {
        assert(v@.take(v@.len() as int) =~= v@);
    }
    out
}

/// Decides the equality of two group lists.
fn eq_u32_vecs(a: &Vec<u32>, b: &Vec<u32>) -> (r: bool)
    ensures
        r == (a@ == b@),
{
    if a.len() != b.len() {
        return false;
    }
    let mut i: usize = 0;
    while i < a.len()
        invariant
            a@.len() == b@.len(),
            i <= a@.len(),
            forall|k: int| 0 <= k < i ==> a@[k] == b@[k],
        decreases a@.len() - i,
    {
        if a[i] != b[i] {
            return false;
        }
        i = i + 1;
    }
    proof {
        assert(a@ =~= b@);
    }
    true
}

/// Counts the springs of one condition in a row.
fn count_conditions(v: &Vec<Condition>, c: Condition) -> (r: usize)
    ensures
        r == count_cond(v@, c),
{
    proof {
        lemma_count_cond_nonneg(v@, c);
        assert(v@.skip(0) =~= v@);
    }
    let mut count: usize = 0;
    let mut i: usize = 0;
    while i < v.len()
        invariant
            i <= v@.len(),
            count <= i,
            count_cond(v@, c) == count + count_cond(v@.skip(i as int), c),
        decreases v@.len() - i,
    {
        proof {
            assert(v@.skip(i as int)[0] == v@[i as int]);
            assert(v@.skip(i as int).skip(1) =~= v@.skip(i + 1));
            lemma_count_cond_nonneg(v@.skip(i + 1), c);
        }
        if v[i] == c {
            count = count + 1;
        }
        i = i + 1;
    }
    proof {
        assert(v@.skip(v@.len() as int) =~= Seq::<Condition>::empty());
    }
    count
}

/// All compositions of `pool`: the ordered group lists that sum to it,
/// listed with the largest leading group first.
pub open spec fn spec_compositions(pool: int) -> Seq<Seq<u32>>
    decreases pool, 1int, 0int,
{
    if pool <= 0 {
        seq![]
    } else if pool == 1 {
        seq![seq![1u32]]
    } else {
        spec_compositions_down(pool, pool)
    }
}

/// The compositions of `pool` whose leading group is at most `idx`,
/// largest leading group first.
pub open spec fn spec_compositions_down(pool: int, idx: int) -> Seq<Seq<u32>>
    decreases pool, 0int, idx,
{
    if idx <= 0 || pool <= 0 || idx > pool {
        seq![]
    } else {
        let remainder = pool - idx;
        let with_lead = spec_compositions(remainder).map_values(
            |s: Seq<u32>| seq![idx as u32] + s,
        );
        let alone = if remainder == 0 {
            seq![seq![idx as u32]]
        } else {
            seq![]
        };
        with_lead + alone + spec_compositions_down(pool, idx - 1)
    }
}

/// Every key of the memo maps to the compositions of that pool size.
pub open spec fn memo_ok(lut: Map<usize, Vec<DamageRecord>>) -> bool {
    forall|k: usize|
        lut.contains_key(k) ==> (#[trigger] lut[k])@.map_values(|v: DamageRecord| v@)
            == spec_compositions(k as int)
}

/// Copies a group list.
fn copy_groups(v: &Vec<DamageRecord>) -> (r: Vec<DamageRecord>)
    ensures
        r@.map_values(|g: DamageRecord| g@) == v@.map_values(|g: DamageRecord| g@),
{
    let mut out: Vec<DamageRecord> = Vec::new();
    let mut i: usize = 0;
    while i < v.len()
        invariant
            i <= v@.len(),
            out@.len() == i,
            forall|j: int| 0 <= j < i ==> (#[trigger] out@[j])@ == v@[j]@,
        decreases v@.len() - i,
    {
        let mut inner: Vec<u32> = Vec::new();
        let mut p: usize = 0;
        while p < v[i].len()
            invariant
                i < v@.len(),
                p <= v@[i as int]@.len(),
                inner@ == v@[i as int]@.take(p as int),
            decreases v@[i as int]@.len() - p,
        {
            proof {
                assert(v@[i as int]@.take(p + 1) =~= v@[i as int]@.take(p as int).push(
                    v@[i as int]@[p as int],
                ));
            }
            inner.push(v[i][p]);
            p = p + 1;
        }
        proof {
            assert(v@[i as int]@.take(v@[i as int]@.len() as int) =~= v@[i as int]@);
        }
        out.push(inner);
        i = i + 1;
    }
    proof {
        assert(out@.map_values(|g: DamageRecord| g@) =~= v@.map_values(|g: DamageRecord| g@));
    }
    out
}

impl Record {
    /// Generates all possible damage records for a pool size: the
    /// ordered group lists that sum to it, remembered in the lookup
    /// table for the next caller.
    pub fn generate_groups(
        pool_size: usize,
        lut: &mut std::collections::BTreeMap<usize, Vec<DamageRecord>>,
    ) -> (r: Vec<DamageRecord>)
        requires
            memo_ok(old(lut)@),
            pool_size <= u32::MAX,
        ensures
            memo_ok(final(lut)@),
            r@.map_values(|g: DamageRecord| g@) == spec_compositions(pool_size as int),
        decreases pool_size,
    {
        if let Some(known_damage_records) = lut.get(&pool_size) {
            return copy_groups(known_damage_records);
        }
        if pool_size == 1 {
            let mut single: Vec<u32> = Vec::new();
            single.push(1);
            let mut only: Vec<DamageRecord> = Vec::new();
            only.push(single);
            proof {
                assert(only@.map_values(|g: DamageRecord| g@) =~= spec_compositions(1));
            }
            return only;
        }
        let mut damage_record_combos: Vec<DamageRecord> = Vec::new();
        let mut idx: usize = pool_size;
        proof {
            if pool_size == 0 {
                assert(spec_compositions_down(0, 0) =~= Seq::<Seq<u32>>::empty());
            }
            assert(damage_record_combos@.map_values(|g: DamageRecord| g@)
                + spec_compositions_down(pool_size as int, pool_size as int)
                =~= spec_compositions_down(pool_size as int, pool_size as int));
        }
        while idx >= 1
            invariant
                memo_ok(lut@),
                pool_size <= u32::MAX,
                pool_size != 1,
                idx <= pool_size,
                spec_compositions_down(pool_size as int, pool_size as int)
                    == damage_record_combos@.map_values(|g: DamageRecord| g@)
                    + spec_compositions_down(pool_size as int, idx as int),
            decreases idx,
        {
            // counting down, we pair the held leading group with every
            // composition of the remainder
            let remainder = pool_size - idx;
            let subs = Self::generate_groups(remainder, lut);
            let ghost mapped_before = damage_record_combos@.map_values(|g: DamageRecord| g@);
            let ghost with_lead = spec_compositions(remainder as int).map_values(
                |s: Seq<u32>| seq![idx as u32] + s,
            );
            let mut t: usize = 0;
            while t < subs.len()
                invariant
                    idx <= pool_size <= u32::MAX,
                    subs@.map_values(|g: DamageRecord| g@) == spec_compositions(
                        remainder as int,
                    ),
                    remainder == pool_size - idx,
                    with_lead == spec_compositions(remainder as int).map_values(
                        |s: Seq<u32>| seq![idx as u32] + s,
                    ),
                    t <= subs@.len(),
                    damage_record_combos@.map_values(|g: DamageRecord| g@) == mapped_before
                        + with_lead.take(t as int),
                decreases subs@.len() - t,
            {
                let mut subrecord = copy_groups_one(&subs[t]);
                subrecord.insert(0, idx as u32);
                proof {
                    assert(subrecord@ =~= seq![idx as u32] + subs@[t as int]@);
                    assert(subs@.map_values(|g: DamageRecord| g@)[t as int] == subs@[t as int]@);
                    assert(with_lead[t as int] == seq![idx as u32] + spec_compositions(
                        remainder as int,
                    )[t as int]);
                    assert(with_lead.take(t + 1) =~= with_lead.take(t as int).push(
                        with_lead[t as int],
                    ));
                    let prev = damage_record_combos@.map_values(|g: DamageRecord| g@);
                    assert(damage_record_combos@.push(subrecord).map_values(
                        |g: DamageRecord| g@,
                    ) =~= prev.push(subrecord@));
                    assert(mapped_before + with_lead.take(t as int).push(with_lead[t as int])
                        =~= (mapped_before + with_lead.take(t as int)).push(
                        with_lead[t as int],
                    ));
                }
                damage_record_combos.push(subrecord);
                t = t + 1;
            }
            proof {
                assert(with_lead.take(subs@.len() as int) =~= with_lead);
            }
            if remainder == 0 {
                let mut alone: Vec<u32> = Vec::new();
                alone.push(idx as u32);
                proof {
                    let prev = damage_record_combos@.map_values(|g: DamageRecord| g@);
                    assert(alone@ =~= seq![idx as u32]);
                    assert(damage_record_combos@.push(alone).map_values(|g: DamageRecord| g@)
                        =~= prev.push(alone@));
                }
                damage_record_combos.push(alone);
            }
            proof {
                let mapped = damage_record_combos@.map_values(|g: DamageRecord| g@);
                let alone_seq = if remainder == 0 {
                    seq![seq![idx as u32]]
                } else {
                    Seq::<Seq<u32>>::empty()
                };
                assert(mapped =~= mapped_before + with_lead + alone_seq);
                assert(mapped_before + with_lead + alone_seq + spec_compositions_down(
                    pool_size as int,
                    idx as int - 1,
                ) =~= mapped_before + (with_lead + alone_seq + spec_compositions_down(
                    pool_size as int,
                    idx as int - 1,
                )));
            }
            idx = idx - 1;
        }
        proof {
            assert(spec_compositions_down(pool_size as int, 0) =~= Seq::<Seq<u32>>::empty());
            assert(damage_record_combos@.map_values(|g: DamageRecord| g@) + Seq::<
                Seq<u32>,
            >::empty() =~= damage_record_combos@.map_values(|g: DamageRecord| g@));
        }
        // record the results for later lookup
        let cached = copy_groups(&damage_record_combos);
        let ghost memo_before = lut@;
        lut.insert(pool_size, cached);
        proof {
            assert forall|k: usize| lut@.contains_key(k) implies (#[trigger] lut@[k])@.map_values(
                |v: DamageRecord| v@,
            ) == spec_compositions(k as int) by {
                if k != pool_size {
                    assert(memo_before.contains_key(k));
                    assert(lut@[k] == memo_before[k]);
                }
            }
        }
        damage_record_combos
    }
}

/// Copies one group list.
fn copy_groups_one(v: &Vec<u32>) -> (r: Vec<u32>)
    ensures
        r@ == v@,
{
    let mut out: Vec<u32> = Vec::new();
    let mut p: usize = 0;
    while p < v.len()
        invariant
            p <= v@.len(),
            out@ == v@.take(p as int),
        decreases v@.len() - p,
    {
        proof {
            assert(v@.take(p + 1) =~= v@.take(p as int).push(v@[p as int]));
        }
        out.push(v[p]);
        p = p + 1;
    }
    proof {
        assert(v@.take(v@.len() as int) =~= v@);
    }
    out
}

/// Shrinking every group to one takes away a nonnegative number of
/// springs.
proof fn lemma_reduction_nonneg(s: Seq<u32>)
    requires
        forall|k: int| 0 <= k < s.len() ==> s[k] >= 1,
    ensures
        spec_sum(s) >= s.len(),
    decreases s.len(),
{
    if s.len() > 0 {
        assert forall|k: int| 0 <= k < s.skip(1).len() implies s.skip(1)[k] >= 1 by {
            assert(s.skip(1)[k] == s[k + 1]);
        }
        lemma_reduction_nonneg(s.skip(1));
    }
}

/// The group sum is never negative.
proof fn lemma_sum_nonneg(s: Seq<u32>)
    ensures
        spec_sum(s) >= 0,
    decreases s.len(),
{
    if s.len() > 0 {
        lemma_sum_nonneg(s.skip(1));
    }
}

/// Appending one condition extends the count by at most one.
proof fn lemma_count_cond_push(s: Seq<Condition>, x: Condition, c: Condition)
    ensures
        count_cond(s.push(x), c) == count_cond(s, c) + if x == c {
            1int
        } else {
            0int
        },
    decreases s.len(),
{
    reveal_with_fuel(count_cond, 2);
    if s.len() == 0 {
        assert(s.push(x)[0] == x);
        assert(s.push(x).skip(1) =~= Seq::<Condition>::empty());
    } else {
        assert(s.push(x)[0] == s[0]);
        assert(s.push(x).skip(1) =~= s.skip(1).push(x));
        lemma_count_cond_push(s.skip(1), x, c);
    }
}

} // verus!
