//! Small verified text utilities shared by the puzzle parsers: splitting
//! on separators or whitespace, and reading decimal integers.

use vstd::prelude::*;
use vstd::string::StringSliceAdditionalSpecFns;

verus! {

/// `c` is a decimal digit.
pub open spec fn is_digit(c: char) -> bool {
    '0' <= c <= '9'
}

/// `c` is ascii whitespace.
pub open spec fn is_space(c: char) -> bool {
    c == ' ' || c == '\t' || c == '\n' || c == '\r' || c == '\u{c}'
}

/// The numeric value of one digit.
pub open spec fn digit_val(c: char) -> int {
    c as int - '0' as int
}

/// The value of a decimal digit string, most significant digit first.
pub open spec fn digits_val(s: Seq<char>) -> int
    decreases s.len(),
{
    if s.len() == 0 {
        0
    } else {
        digits_val(s.drop_last()) * 10 + digit_val(s.last())
    }
}

/// A nonempty all-digit string.
pub open spec fn all_digits(s: Seq<char>) -> bool {
    forall|i: int| 0 <= i < s.len() ==> is_digit(#[trigger] s[i])
}

/// A string that `u32` parsing accepts: digits only, value in range.
pub open spec fn is_u32_token(s: Seq<char>) -> bool {
    s.len() >= 1 && all_digits(s) && digits_val(s) <= u32::MAX
}

/// A string that `u64` parsing accepts: digits only, value in range.
pub open spec fn is_u64_token(s: Seq<char>) -> bool {
    s.len() >= 1 && all_digits(s) && digits_val(s) <= u64::MAX
}

/// The value of a signed decimal string: a minus sign negates the digits
/// that follow it.
pub open spec fn signed_val(s: Seq<char>) -> int {
    if s.len() >= 1 && s[0] == '-' {
        -digits_val(s.skip(1))
    } else {
        digits_val(s)
    }
}

/// A string that `i32` parsing accepts: an optional minus sign, digits,
/// value in range.
pub open spec fn is_i32_token(s: Seq<char>) -> bool {
    if s.len() >= 1 && s[0] == '-' {
        all_digits(s.skip(1)) && s.len() >= 2 && i32::MIN <= -digits_val(s.skip(1))
    } else {
        s.len() >= 1 && all_digits(s) && digits_val(s) <= i32::MAX
    }
}

/// The index of the first decimal digit of `s`, or `s.len()`.
pub open spec fn digit_start(s: Seq<char>) -> int
    decreases s.len(),
{
    if s.len() == 0 {
        0
    } else if is_digit(s[0]) {
        0
    } else {
        1 + digit_start(s.skip(1))
    }
}

/// The length of the digit run at the head of `s`.
pub open spec fn digit_prefix_len(s: Seq<char>) -> int
    decreases s.len(),
{
    if s.len() == 0 {
        0
    } else if is_digit(s[0]) {
        1 + digit_prefix_len(s.skip(1))
    } else {
        0
    }
}

/// The digit start stays inside the bounds.
pub proof fn lemma_digit_start_bounds(s: Seq<char>)
    ensures
        0 <= digit_start(s) <= s.len(),
    decreases s.len(),
{
    if s.len() > 0 && !is_digit(s[0]) {
        lemma_digit_start_bounds(s.skip(1));
    }
}

/// The digit prefix stays inside the bounds.
pub proof fn lemma_digit_prefix_bounds(s: Seq<char>)
    ensures
        0 <= digit_prefix_len(s) <= s.len(),
    decreases s.len(),
{
    if s.len() > 0 && is_digit(s[0]) {
        lemma_digit_prefix_bounds(s.skip(1));
    }
}

/// Every character of the digit prefix is a digit.
pub proof fn lemma_digit_prefix_digits(s: Seq<char>)
    ensures
        forall|j: int| 0 <= j < digit_prefix_len(s) ==> is_digit(s[j]),
    decreases s.len(),
{
    lemma_digit_prefix_bounds(s);
    if s.len() > 0 && is_digit(s[0]) {
        lemma_digit_prefix_digits(s.skip(1));
        assert forall|j: int| 0 <= j < digit_prefix_len(s) implies is_digit(s[j]) by {
            if j > 0 {
                assert(is_digit(s.skip(1)[j - 1]));
            }
        }
    }
}

/// The digit start points at a digit when it lies inside the text.
pub proof fn lemma_digit_start_hit(s: Seq<char>)
    ensures
        digit_start(s) < s.len() ==> is_digit(s[digit_start(s)]),
        forall|j: int| 0 <= j < digit_start(s) ==> !is_digit(s[j]),
    decreases s.len(),
{
    if s.len() > 0 && !is_digit(s[0]) {
        lemma_digit_start_bounds(s.skip(1));
        lemma_digit_start_hit(s.skip(1));
        assert forall|j: int| 0 <= j < digit_start(s) implies !is_digit(s[j]) by {
            if j > 0 {
                assert(!is_digit(s.skip(1)[j - 1]));
            }
        }
        if digit_start(s) < s.len() {
            assert(s.skip(1)[digit_start(s.skip(1))] == s[digit_start(s)]);
        }
    }
}

/// The scan position characterizes the digit start.
pub proof fn lemma_digit_start_is(s: Seq<char>, i: int)
    requires
        0 <= i <= s.len(),
        forall|j: int| 0 <= j < i ==> !is_digit(s[j]),
        i < s.len() ==> is_digit(s[i]),
    ensures
        digit_start(s) == i,
    decreases s.len(),
{
    if s.len() == 0 {
    } else if i == 0 {
    } else {
        assert(!is_digit(s[0]));
        lemma_digit_start_is(s.skip(1), i - 1);
    }
}

/// The scan position characterizes the digit prefix length.
pub proof fn lemma_digit_prefix_is(s: Seq<char>, i: int)
    requires
        0 <= i <= s.len(),
        forall|j: int| 0 <= j < i ==> is_digit(s[j]),
        i < s.len() ==> !is_digit(s[i]),
    ensures
        digit_prefix_len(s) == i,
    decreases s.len(),
{
    if s.len() == 0 {
    } else if i == 0 {
    } else {
        assert(is_digit(s[0]));
        lemma_digit_prefix_is(s.skip(1), i - 1);
    }
}

/// The index of the first occurrence of `c` in `s`, or `s.len()` when
/// there is none.
pub open spec fn index_of(s: Seq<char>, c: char) -> int
    decreases s.len(),
{
    if s.len() == 0 {
        0
    } else if s[0] == c {
        0
    } else {
        1 + index_of(s.skip(1), c)
    }
}

/// The index of the first whitespace character of `s`, or `s.len()`.
pub open spec fn index_of_space(s: Seq<char>) -> int
    decreases s.len(),
{
    if s.len() == 0 {
        0
    } else if is_space(s[0]) {
        0
    } else {
        1 + index_of_space(s.skip(1))
    }
}

/// The first occurrence index stays inside the sequence bounds.
pub proof fn lemma_index_of_bounds(s: Seq<char>, c: char)
    ensures
        0 <= index_of(s, c) <= s.len(),
    decreases s.len(),
{
    if s.len() > 0 && s[0] != c {
        lemma_index_of_bounds(s.skip(1), c);
    }
}

/// The first whitespace index stays inside the sequence bounds.
pub proof fn lemma_index_of_space_bounds(s: Seq<char>)
    ensures
        0 <= index_of_space(s) <= s.len(),
    decreases s.len(),
{
    if s.len() > 0 && !is_space(s[0]) {
        lemma_index_of_space_bounds(s.skip(1));
    }
}

/// The pieces of `s` between occurrences of the separator `c`, empty
/// pieces kept, as the `split` of a string yields them.
pub open spec fn split_by(s: Seq<char>, c: char) -> Seq<Seq<char>>
    decreases s.len(),
    via split_by_decreases
{
    let i = index_of(s, c);
    if i == s.len() {
        seq![s]
    } else {
        seq![s.take(i)] + split_by(s.skip(i + 1), c)
    }
}

#[via_fn]
proof fn split_by_decreases(s: Seq<char>, c: char) {
    lemma_index_of_bounds(s, c);
}

/// The maximal nonempty runs of non-whitespace characters of `s`, as
/// whitespace splitting yields them.
pub open spec fn split_ws(s: Seq<char>) -> Seq<Seq<char>>
    decreases s.len(),
    via split_ws_decreases
{
    if s.len() == 0 {
        seq![]
    } else if is_space(s[0]) {
        split_ws(s.skip(1))
    } else {
        let i = index_of_space(s);
        seq![s.take(i)] + split_ws(s.skip(i))
    }
}

#[via_fn]
proof fn split_ws_decreases(s: Seq<char>) {
    if s.len() > 0 && !is_space(s[0]) {
        lemma_index_of_space_bounds(s.skip(1));
    }
}

/// An index bounded by the first occurrence characterizes `index_of`.
pub proof fn lemma_index_of_is(s: Seq<char>, c: char, i: int)
    requires
        0 <= i <= s.len(),
        forall|j: int| 0 <= j < i ==> s[j] != c,
        i < s.len() ==> s[i] == c,
    ensures
        index_of(s, c) == i,
    decreases s.len(),
{
    if s.len() == 0 {
    } else if i == 0 {
    } else {
        assert(s[0] != c);
        lemma_index_of_is(s.skip(1), c, i - 1);
    }
}

/// An index bounded by the first whitespace characterizes
/// `index_of_space`.
pub proof fn lemma_index_of_space_is(s: Seq<char>, i: int)
    requires
        0 <= i <= s.len(),
        forall|j: int| 0 <= j < i ==> !is_space(s[j]),
        i < s.len() ==> is_space(s[i]),
    ensures
        index_of_space(s) == i,
    decreases s.len(),
{
    if s.len() == 0 {
    } else if i == 0 {
    } else {
        assert(!is_space(s[0]));
        lemma_index_of_space_is(s.skip(1), i - 1);
    }
}

/// A digit string only grows when digits are appended.
proof fn lemma_digits_val_prefix(s: Seq<char>, i: int)
    requires
        all_digits(s),
        0 <= i <= s.len(),
    ensures
        0 <= digits_val(s.take(i)) <= digits_val(s),
    decreases s.len() - i,
{
    if i == s.len() {
        assert(s.take(i) =~= s);
        lemma_digits_val_nonneg(s);
    } else {
        lemma_digits_val_prefix(s, i + 1);
        assert(s.take(i + 1).drop_last() =~= s.take(i));
        assert(s.take(i + 1).last() == s[i]);
        lemma_digits_val_nonneg(s.take(i));
    }
}

/// A digit string has a nonnegative value.
pub proof fn lemma_digits_val_nonneg(s: Seq<char>)
    requires
        all_digits(s),
    ensures
        digits_val(s) >= 0,
    decreases s.len(),
{
    if s.len() > 0 {
        assert(is_digit(s.last()));
        assert forall|i: int| 0 <= i < s.drop_last().len() implies is_digit(
            #[trigger] s.drop_last()[i],
        ) by {
            assert(s.drop_last()[i] == s[i]);
        }
        lemma_digits_val_nonneg(s.drop_last());
    }
}

/// Splits `s` at every occurrence of the ascii separator `c`, keeping
/// empty pieces, as `str::split` does.
pub fn split_char<'a>(s: &'a str, c: char) -> (r: Vec<&'a str>)
    requires
        s.is_ascii(),
    ensures
        r@.map_values(|t: &'a str| t@) == split_by(s@, c),
        forall|i: int| 0 <= i < r@.len() ==> (#[trigger] r@[i]).is_ascii(),
{
    let len = s.unicode_len();
    let mut pieces: Vec<&'a str> = Vec::new();
    let mut start: usize = 0;
    let mut i: usize = 0;
    proof {
        assert(s@.skip(0) =~= s@);
        assert(pieces@.map_values(|t: &'a str| t@) + split_by(s@, c) =~= split_by(s@, c));
    }
    while i < len
        invariant
            s.is_ascii(),
            len == s@.len(),
            start <= i <= len,
            forall|j: int| start <= j < i ==> s@[j] != c,
            split_by(s@, c) == pieces@.map_values(|t: &'a str| t@) + split_by(
                s@.skip(start as int),
                c,
            ),
            forall|j: int| 0 <= j < pieces@.len() ==> (#[trigger] pieces@[j]).is_ascii(),
        decreases len - i,
    {
        if (s.get_ascii(i) as char) == c {
            let piece = s.substring_ascii(start, i);
            proof {
                let rest = s@.skip(start as int);
                assert forall|j: int| 0 <= j < i - start implies rest[j] != c by {
                    assert(rest[j] == s@[start + j]);
                }
                assert(rest[i - start] == s@[i as int]);
                lemma_index_of_is(rest, c, i - start);
                assert(rest.take(i - start) =~= s@.subrange(start as int, i as int));
                assert(rest.skip(i - start + 1) =~= s@.skip(i + 1));
                assert(pieces@.push(piece).map_values(|t: &'a str| t@) =~= pieces@.map_values(
                    |t: &'a str| t@,
                ).push(piece@));
            }
            pieces.push(piece);
            start = i + 1;
        }
        i = i + 1;
    }
    let last_piece = s.substring_ascii(start, len);
    proof {
        let rest = s@.skip(start as int);
        assert forall|j: int| 0 <= j < rest.len() implies rest[j] != c by {
            assert(rest[j] == s@[start + j]);
        }
        lemma_index_of_is(rest, c, rest.len() as int);
        assert(rest.take(rest.len() as int) =~= rest);
        assert(rest =~= s@.subrange(start as int, len as int));
        assert(pieces@.push(last_piece).map_values(|t: &'a str| t@) =~= pieces@.map_values(
            |t: &'a str| t@,
        ).push(last_piece@));
    }
    pieces.push(last_piece);
    pieces
}

/// Decides ascii whitespace.
fn is_space_char(c: char) -> (r: bool)
    ensures
        r == is_space(c),
{
    c == ' ' || c == '\t' || c == '\n' || c == '\r' || c == '\u{c}'
}

/// Splits `s` into its maximal runs of non-whitespace characters, as
/// `str::split_ascii_whitespace` does.
pub fn split_whitespace<'a>(s: &'a str) -> (r: Vec<&'a str>)
    requires
        s.is_ascii(),
    ensures
        r@.map_values(|t: &'a str| t@) == split_ws(s@),
        forall|i: int| 0 <= i < r@.len() ==> (#[trigger] r@[i]).is_ascii(),
{
    let len = s.unicode_len();
    let mut pieces: Vec<&'a str> = Vec::new();
    let mut i: usize = 0;
    proof {
        assert(s@.skip(0) =~= s@);
        assert(pieces@.map_values(|t: &'a str| t@) + split_ws(s@) =~= split_ws(s@));
    }
    while i < len
        invariant
            s.is_ascii(),
            len == s@.len(),
            i <= len,
            split_ws(s@) == pieces@.map_values(|t: &'a str| t@) + split_ws(s@.skip(i as int)),
            forall|j: int| 0 <= j < pieces@.len() ==> (#[trigger] pieces@[j]).is_ascii(),
        decreases len - i,
    {
        let ch = s.get_ascii(i) as char;
        if is_space_char(ch) {
            proof {
                assert(s@.skip(i as int)[0] == s@[i as int]);
                assert(s@.skip(i as int).skip(1) =~= s@.skip(i + 1));
            }
            i = i + 1;
        } else {
            // the head of the rest opens a token: find where it ends
            let token_start = i;
            let mut j = i + 1;
            while j < len && !is_space_char(s.get_ascii(j) as char)
                invariant
                    s.is_ascii(),
                    len == s@.len(),
                    token_start < j <= len,
                    forall|k: int| token_start <= k < j ==> !is_space(s@[k]),
                decreases len - j,
            {
                j = j + 1;
            }
            let piece = s.substring_ascii(token_start, j);
            proof {
                let rest = s@.skip(token_start as int);
                assert(!is_space(rest[0]));
                assert forall|k: int| 0 <= k < j - token_start implies !is_space(rest[k]) by {
                    assert(rest[k] == s@[token_start + k]);
                }
                if j < len {
                    assert(rest[j - token_start] == s@[j as int]);
                }
                lemma_index_of_space_is(rest, j - token_start);
                assert(rest.take(j - token_start) =~= s@.subrange(token_start as int, j as int));
                assert(rest.skip(j - token_start) =~= s@.skip(j as int));
                assert(pieces@.push(piece).map_values(|t: &'a str| t@) =~= pieces@.map_values(
                    |t: &'a str| t@,
                ).push(piece@));
            }
            pieces.push(piece);
            i = j;
        }
    }
    proof {
        assert(s@.skip(len as int) =~= Seq::<char>::empty());
        assert(pieces@.map_values(|t: &'a str| t@) + split_ws(Seq::<char>::empty())
            =~= pieces@.map_values(|t: &'a str| t@));
    }
    pieces
}

/// The pattern `p` occurs in `s` at position `i`.
pub open spec fn is_match_at(s: Seq<char>, p: Seq<char>, i: int) -> bool {
    0 <= i && i + p.len() <= s.len() && s.subrange(i, i + p.len()) == p
}

/// The position of the first occurrence of `p` in `s`; when there is
/// none, a position past the last possible match.
pub open spec fn index_of_sub(s: Seq<char>, p: Seq<char>) -> int
    decreases s.len(),
{
    if p.len() == 0 {
        0
    } else if s.len() < p.len() {
        s.len() as int
    } else if s.subrange(0, p.len() as int) == p {
        0
    } else {
        1 + index_of_sub(s.skip(1), p)
    }
}

/// The pattern `p` occurs somewhere in `s`.
pub open spec fn has_sub(s: Seq<char>, p: Seq<char>) -> bool {
    index_of_sub(s, p) + p.len() <= s.len()
}

/// A match one step into the rest is a match one step further in the
/// whole.
proof fn lemma_match_at_shift(s: Seq<char>, p: Seq<char>, j: int)
    requires
        0 <= j,
        s.len() >= 1,
    ensures
        is_match_at(s.skip(1), p, j) == is_match_at(s, p, j + 1),
{
    if j + p.len() <= s.skip(1).len() {
        let a = s.skip(1).subrange(j, j + p.len());
        let b = s.subrange(j + 1, j + 1 + p.len());
        assert forall|k: int| 0 <= k < p.len() implies a[k] == b[k] by {
            assert(a[k] == s.skip(1)[j + k]);
            assert(s.skip(1)[j + k] == s[1 + j + k]);
        }
        assert(a =~= b);
    }
}

/// The first-match position characterizes `index_of_sub`.
pub proof fn lemma_index_of_sub_is(s: Seq<char>, p: Seq<char>, i: int)
    requires
        p.len() >= 1,
        0 <= i,
        i + p.len() <= s.len(),
        forall|j: int| 0 <= j < i ==> !is_match_at(s, p, j),
        is_match_at(s, p, i),
    ensures
        index_of_sub(s, p) == i,
    decreases s.len(),
{
    if i == 0 {
        assert(s.subrange(0, p.len() as int) == p);
    } else {
        assert(!is_match_at(s, p, 0));
        assert(s.subrange(0, p.len() as int) != p);
        assert forall|j: int| 0 <= j < i - 1 implies !is_match_at(s.skip(1), p, j) by {
            assert(!is_match_at(s, p, j + 1));
            lemma_match_at_shift(s, p, j);
        }
        lemma_match_at_shift(s, p, i - 1);
        lemma_index_of_sub_is(s.skip(1), p, i - 1);
    }
}

/// When no position matches, `index_of_sub` runs past the last one.
pub proof fn lemma_index_of_sub_none(s: Seq<char>, p: Seq<char>)
    requires
        p.len() >= 1,
        forall|j: int| 0 <= j ==> !is_match_at(s, p, j),
    ensures
        index_of_sub(s, p) + p.len() > s.len(),
    decreases s.len(),
{
    if s.len() < p.len() {
    } else {
        assert(!is_match_at(s, p, 0));
        assert(s.subrange(0, p.len() as int) != p);
        assert forall|j: int| 0 <= j implies !is_match_at(s.skip(1), p, j) by {
            assert(!is_match_at(s, p, j + 1));
            lemma_match_at_shift(s, p, j);
        }
        lemma_index_of_sub_none(s.skip(1), p);
    }
}

/// The first occurrence index points at the character, and nothing
/// before it holds the character.
pub proof fn lemma_index_of_char(s: Seq<char>, c: char, i: int)
    requires
        i == index_of(s, c),
        0 <= i < s.len(),
    ensures
        s[i] == c,
        forall|j: int| 0 <= j < i ==> s[j] != c,
    decreases s.len(),
{
    if s.len() > 0 && s[0] != c {
        lemma_index_of_bounds(s.skip(1), c);
        lemma_index_of_char(s.skip(1), c, i - 1);
        assert forall|j: int| 0 <= j < i implies s[j] != c by {
            if j > 0 {
                assert(s.skip(1)[j - 1] != c);
            }
        }
        assert(s.skip(1)[i - 1] == s[i]);
    }
}

/// A single-character pattern finds the first occurrence of its
/// character.
pub proof fn lemma_single_char_occurrence(s: Seq<char>, c: char)
    requires
        index_of(s, c) < s.len(),
    ensures
        has_sub(s, seq![c]),
        index_of_sub(s, seq![c]) == index_of(s, c),
{
    let p = seq![c];
    let i = index_of(s, c);
    lemma_index_of_bounds(s, c);
    lemma_index_of_char(s, c, i);
    assert forall|j: int| 0 <= j < i implies !is_match_at(s, p, j) by {
        if is_match_at(s, p, j) {
            assert(s.subrange(j, j + 1)[0] == s[j]);
        }
    }
    assert(s.subrange(i, i + 1) =~= p);
    lemma_index_of_sub_is(s, p, i);
}

/// Ascii string equality, decided character by character.
pub fn str_eq(a: &str, b: &str) -> (r: bool)
    requires
        a.is_ascii(),
        b.is_ascii(),
    ensures
        r == (a@ == b@),
{
    let alen = a.unicode_len();
    let blen = b.unicode_len();
    if alen != blen {
        return false;
    }
    let mut i: usize = 0;
    while i < alen
        invariant
            a.is_ascii(),
            b.is_ascii(),
            alen == a@.len(),
            alen == b@.len(),
            i <= alen,
            forall|j: int| 0 <= j < i ==> a@[j] == b@[j],
        decreases alen - i,
    {
        if a.get_ascii(i) != b.get_ascii(i) {
            proof {
                assert(a@[i as int] as u8 != b@[i as int] as u8);
                assert(a@[i as int] <= '\u{7f}' && b@[i as int] <= '\u{7f}');
            }
            return false;
        }
        i = i + 1;
    }
    proof {
        assert(a@ =~= b@);
    }
    true
}

/// String equality for arbitrary text, decided byte by byte on the
/// utf8 encodings.
pub fn str_eq_total(a: &str, b: &str) -> (r: bool)
    ensures
        r == (a@ == b@),
{
    let ab = a.as_bytes();
    let bb = b.as_bytes();
    if ab.len() != bb.len() {
        return false;
    }
    let mut i: usize = 0;
    while i < ab.len()
        invariant
            ab@ == a.spec_bytes(),
            bb@ == b.spec_bytes(),
            ab@.len() == bb@.len(),
            i <= ab@.len(),
            forall|j: int| 0 <= j < i ==> ab@[j] == bb@[j],
        decreases ab@.len() - i,
    {
        if ab[i] != bb[i] {
            return false;
        }
        i = i + 1;
    }
    proof {
        assert(a.spec_bytes() =~= b.spec_bytes());
        vstd::utf8::encode_utf8_decode_utf8(a@);
        vstd::utf8::encode_utf8_decode_utf8(b@);
    }
    true
}

/// Splits `s` at the first occurrence of the ascii pattern `p`, as
/// `str::split_once` does: the text before the match and the text after
/// it, or `None` when the pattern does not occur.
pub fn split_once_at<'a>(s: &'a str, p: &str) -> (r: Option<(&'a str, &'a str)>)
    requires
        s.is_ascii(),
        p.is_ascii(),
        p@.len() >= 1,
    ensures
        (r is Some) == has_sub(s@, p@),
        r matches Some(pair) ==> {
            let i = index_of_sub(s@, p@);
            &&& pair.0@ == s@.take(i)
            &&& pair.1@ == s@.skip(i + p@.len())
            &&& pair.0.is_ascii()
            &&& pair.1.is_ascii()
        },
{
    let slen = s.unicode_len();
    let plen = p.unicode_len();
    if slen < plen {
        proof {
            lemma_index_of_sub_bounds(s@, p@);
        }
        return None;
    }
    let mut i: usize = 0;
    while i <= slen - plen
        invariant
            s.is_ascii(),
            p.is_ascii(),
            slen == s@.len(),
            plen == p@.len(),
            plen >= 1,
            plen <= slen,
            i <= slen - plen + 1,
            forall|j: int| 0 <= j < i ==> !is_match_at(s@, p@, j),
        decreases slen - i,
    {
        let mut k: usize = 0;
        let mut matched = true;
        while k < plen
            invariant
                s.is_ascii(),
                p.is_ascii(),
                slen == s@.len(),
                plen == p@.len(),
                i + plen <= slen,
                k <= plen,
                matched == (forall|m: int| 0 <= m < k ==> s@[i + m] == p@[m]),
            decreases plen - k,
        {
            if s.get_ascii(i + k) != p.get_ascii(k) {
                proof {
                    assert(s@[i + k] as u8 != p@[k as int] as u8);
                    assert(s@[i + k] <= '\u{7f}' && p@[k as int] <= '\u{7f}');
                }
                matched = false;
                k = plen;
            } else {
                k = k + 1;
            }
        }
        if matched {
            proof {
                assert(s@.subrange(i as int, i + plen) =~= p@);
                lemma_index_of_sub_is(s@, p@, i as int);
            }
            let before = s.substring_ascii(0, i);
            let after = s.substring_ascii(i + plen, slen);
            proof {
                assert(before@ =~= s@.take(i as int));
                assert(after@ =~= s@.skip(i + plen));
            }
            return Some((before, after));
        }
        proof {
            let m = choose|m: int| 0 <= m < plen && s@[i + m] != p@[m];
            if is_match_at(s@, p@, i as int) {
                assert(s@.subrange(i as int, i + plen)[m] == p@[m]);
            }
        }
        i = i + 1;
    }
    proof {
        assert forall|j: int| 0 <= j implies !is_match_at(s@, p@, j) by {
            if j + p@.len() <= s@.len() {
                assert(j <= slen - plen);
            }
        }
        lemma_index_of_sub_none(s@, p@);
    }
    None
}

/// The first-occurrence position never runs past the sequence.
pub proof fn lemma_index_of_sub_bounds(s: Seq<char>, p: Seq<char>)
    ensures
        0 <= index_of_sub(s, p) <= s.len(),
    decreases s.len(),
{
    if p.len() >= 1 && s.len() >= p.len() && s.subrange(0, p.len() as int) != p {
        lemma_index_of_sub_bounds(s.skip(1), p);
    }
}

/// Reads an unsigned decimal number, as `str::parse::<u64>` reads the
/// strings made of plain digits: `None` on anything else or out of range.
pub fn parse_u64(s: &str) -> (r: Option<u64>)
    requires
        s.is_ascii(),
    ensures
        r is Some <==> is_u64_token(s@),
        r matches Some(v) ==> v == digits_val(s@),
{
    let len = s.unicode_len();
    if len == 0 {
        return None;
    }
    let mut acc: u64 = 0;
    let mut i: usize = 0;
    while i < len
        invariant
            s.is_ascii(),
            len == s@.len(),
            i <= len,
            all_digits(s@.take(i as int)),
            acc == digits_val(s@.take(i as int)),
        decreases len - i,
    {
        let ch = s.get_ascii(i) as char;
        proof {
            assert(s@.take(i + 1).drop_last() =~= s@.take(i as int));
            assert(s@.take(i + 1).last() == s@[i as int]);
        }
        if !(ch >= '0' && ch <= '9') {
            proof {
                if is_u64_token(s@) {
                    assert(is_digit(s@[i as int]));
                }
            }
            return None;
        }
        let d: u64 = (s.get_ascii(i) - 48) as u64;
        proof {
            assert(d == digit_val(s@[i as int]));
            lemma_digits_val_nonneg(s@.take(i + 1));
        }
        if acc > (u64::MAX - d) / 10 {
            proof {
                if is_u64_token(s@) {
                    lemma_digits_val_prefix(s@, i + 1);
                }
            }
            return None;
        }
        acc = acc * 10 + d;
        i = i + 1;
    }
    proof {
        assert(s@.take(len as int) =~= s@);
    }
    Some(acc)
}

/// Reads an unsigned decimal number, as `str::parse::<u32>` reads the
/// strings made of plain digits: `None` on anything else or out of range.
pub fn parse_u32(s: &str) -> (r: Option<u32>)
    requires
        s.is_ascii(),
    ensures
        r is Some <==> is_u32_token(s@),
        r matches Some(v) ==> v == digits_val(s@),
{
    match parse_u64(s) {
        None => None,
        Some(v) => if v <= u32::MAX as u64 {
            Some(v as u32)
        } else {
            None
        },
    }
}

/// Reads a signed decimal number, as `str::parse::<i32>` reads the
/// strings made of an optional minus sign and plain digits.
pub fn parse_i32(s: &str) -> (r: Option<i32>)
    requires
        s.is_ascii(),
    ensures
        r is Some <==> is_i32_token(s@),
        r matches Some(v) ==> v == signed_val(s@),
{
    let len = s.unicode_len();
    if len == 0 {
        return None;
    }
    if (s.get_ascii(0) as char) == '-' {
        let digits = s.substring_ascii(1, len);
        match parse_u64(digits) {
            None => None,
            Some(v) => if v <= 2147483648u64 {
                proof {
                    assert(digits@ =~= s@.skip(1));
                }
                if v == 2147483648u64 {
                    Some(i32::MIN)
                } else {
                    Some(-(v as i32))
                }
            } else {
                proof {
                    assert(digits@ =~= s@.skip(1));
                }
                None
            },
        }
    } else {
        match parse_u64(s) {
            None => None,
            Some(v) => if v <= i32::MAX as u64 {
                Some(v as i32)
            } else {
                None
            },
        }
    }
}

} // verus!
