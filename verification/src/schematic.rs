//! An engine schematic: part numbers scattered on a character grid,
//! each adjacent to the symbols around it.  The schematic is padded with
//! a border of blank cells so that every neighborhood lookup stays on
//! the grid.

use crate::text::{
    digit_prefix_len, digit_start, digits_val, index_of, is_digit, lemma_digit_prefix_bounds,
    lemma_digit_prefix_digits, lemma_digit_prefix_is, lemma_digit_start_bounds,
    lemma_digit_start_hit, lemma_digit_start_is, parse_u32, split_by, split_char,
};
use vstd::prelude::*;

verus! {

/// One part: its number and the symbols found around it, each with its
/// position.
#[derive(Clone, Debug)]
pub struct Part {
    pub number: u32,
    pub symbols: Vec<(char, usize)>,
}

impl Part {
    /// The part touches at least one symbol.
    pub fn has_symbols(&self) -> (r: bool)
        ensures
            r == (self.symbols@.len() > 0),
    {
        !self.symbols.is_empty()
    }
}

/// The padded schematic: its cells in one row-major string, and the
/// width of one padded row.
#[derive(Clone, Debug)]
pub struct Schematic {
    pub raw: String,
    pub row_len: usize,
}

impl Schematic {
    /// A schematic over the given buffer and row width.
    pub fn new(raw: String, row_len: usize) -> (r: Schematic)
        ensures
            r.raw@ == raw@,
            r.row_len == row_len,
    {
        Schematic { raw, row_len }
    }
}

/// A run of `n` blank cells.
pub open spec fn spec_dots(n: int) -> Seq<char> {
    Seq::new(n as nat, |i: int| '.')
}

/// The lines of the schematic, each wrapped in one blank cell on either
/// side, run together.
pub open spec fn spec_padded_lines(lines: Seq<Seq<char>>) -> Seq<char>
    decreases lines.len(),
{
    if lines.len() == 0 {
        Seq::empty()
    } else {
        spec_padded_lines(lines.drop_last()) + seq!['.'] + lines.last() + seq!['.']
    }
}

/// The padded schematic text: a blank row, the wrapped lines, and a
/// blank row, with the newlines dropped.
pub open spec fn spec_padded(s: Seq<char>) -> Seq<char> {
    let w = index_of(s, '\n') + 2;
    spec_dots(w) + spec_padded_lines(split_by(s, '\n')) + spec_dots(w)
}

/// Appends `n` blank cells to the buffer.
fn push_dots(buffer: &mut String, n: usize)
    ensures
        final(buffer)@ == old(buffer)@ + spec_dots(n as int),
{
    let ghost base = buffer@;
    let mut i: usize = 0;
    proof {
        assert(base + spec_dots(0) =~= base);
    }
    while i < n
        invariant
            i <= n,
            buffer@ == base + spec_dots(i as int),
        decreases n - i,
    {
        proof {
            reveal_strlit(".");
            assert((base + spec_dots(i as int)) + "."@ =~= base + spec_dots(i + 1));
        }
        buffer.append(".");
        i = i + 1;
    }
}

/// Wraps the schematic in a border of blank cells: a blank row above, a
/// blank cell on each end of every line, and a blank row below, the
/// newlines dropped along the way.
pub fn add_padding(orignal: &str) -> (r: Schematic)
    requires
        orignal.is_ascii(),
        index_of(orignal@, '\n') < orignal@.len(),
        orignal@.len() + 2 <= usize::MAX,
    ensures
        r.raw@ == spec_padded(orignal@),
        r.row_len == index_of(orignal@, '\n') + 2,
{
    proof {
        crate::text::lemma_index_of_bounds(orignal@, '\n');
        crate::text::lemma_index_of_char(orignal@, '\n', index_of(orignal@, '\n'));
    }
    // find line length, then make a padded version of the schematic
    let len = orignal.unicode_len();
    let mut w: usize = 0;
    while w < len && (orignal.get_ascii(w) as char) != '\n'
        invariant
            orignal.is_ascii(),
            len == orignal@.len(),
            w <= len,
            forall|j: int| 0 <= j < w ==> orignal@[j] != '\n',
        decreases len - w,
    {
        w = w + 1;
    }
    proof {
        crate::text::lemma_index_of_is(orignal@, '\n', w as int);
    }
    let schematic_row_len: usize = w + 2;
    let mut padded = String::new();
    proof {
        assert(padded@ =~= Seq::<char>::empty());
        assert(Seq::<char>::empty() + spec_dots(schematic_row_len as int) =~= spec_dots(
            schematic_row_len as int,
        ));
    }
    push_dots(&mut padded, schematic_row_len);
    let lines = split_char(orignal, '\n');
    let ghost line_views = lines@.map_values(|t: &str| t@);
    let mut i: usize = 0;
    proof {
        assert(line_views.take(0) =~= Seq::<Seq<char>>::empty());
        assert(spec_dots(schematic_row_len as int) + spec_padded_lines(line_views.take(0))
            =~= spec_dots(schematic_row_len as int));
    }
    while i < lines.len()
        invariant
            line_views == lines@.map_values(|t: &str| t@),
            line_views == split_by(orignal@, '\n'),
            i <= lines@.len(),
            padded@ == spec_dots(schematic_row_len as int) + spec_padded_lines(
                line_views.take(i as int),
            ),
        decreases lines@.len() - i,
    {
        proof {
            reveal_strlit(".");
            assert(line_views[i as int] == lines@[i as int]@);
            assert(line_views.take(i + 1).drop_last() =~= line_views.take(i as int));
            assert(line_views.take(i + 1).last() == line_views[i as int]);
        }
        padded.append(".");
        padded.append(lines[i]);
        padded.append(".");
        proof {
            assert(((padded@)) =~= spec_dots(schematic_row_len as int) + spec_padded_lines(
                line_views.take(i + 1),
            ));
        }
        i = i + 1;
    }
    proof {
        assert(line_views.take(lines@.len() as int) =~= line_views);
    }
    push_dots(&mut padded, schematic_row_len);
    proof {
        assert(padded@ =~= spec_padded(orignal@));
    }
    Schematic::new(padded, schematic_row_len)
}

/// `c` marks a part symbol: anything but a digit or a blank cell.
pub open spec fn is_symbol(c: char) -> bool {
    !is_digit(c) && c != '.'
}

/// The symbols between `lo` and `hi`, each with its position.
pub open spec fn symbols_in(s: Seq<char>, lo: int, hi: int) -> Seq<(char, int)>
    decreases hi - lo,
{
    if lo >= hi {
        seq![]
    } else if is_symbol(s[lo]) {
        seq![(s[lo], lo)] + symbols_in(s, lo + 1, hi)
    } else {
        symbols_in(s, lo + 1, hi)
    }
}

/// The maximal digit runs of `s`, each as its start and its end.
pub open spec fn digit_runs(s: Seq<char>) -> Seq<(int, int)>
    decreases s.len(),
    via digit_runs_decreases
{
    let a = digit_start(s);
    if a >= s.len() {
        seq![]
    } else {
        let l = digit_prefix_len(s.skip(a));
        seq![(a, a + l)] + digit_runs(s.skip(a + l)).map_values(
            |p: (int, int)| (p.0 + a + l, p.1 + a + l),
        )
    }
}

#[via_fn]
proof fn digit_runs_decreases(s: Seq<char>) {
    lemma_digit_start_bounds(s);
    let a = digit_start(s);
    if a < s.len() {
        lemma_digit_start_hit(s);
        lemma_digit_prefix_bounds(s.skip(a));
        lemma_digit_prefix_bounds(s.skip(a).skip(1));
        assert(s.skip(a)[0] == s[a]);
        assert(digit_prefix_len(s.skip(a)) >= 1);
    }
}

/// The symbols on the three rows around one digit run: the slice above
/// it, the slice beside it, and the slice below it, each one cell wider
/// on both ends.
pub open spec fn spec_part_symbols(s: Seq<char>, w: int, a: int, b: int) -> Seq<(char, int)> {
    symbols_in(s, a - 1 - w, b + 1 - w) + symbols_in(s, a - 1, b + 1) + symbols_in(
        s,
        a - 1 + w,
        b + 1 + w,
    )
}

/// Collects the symbols of one slice of the schematic, each with its
/// position.
fn symbols_in_slice(text: &str, lo: usize, hi: usize) -> (r: Vec<(char, usize)>)
    requires
        text.is_ascii(),
        lo <= hi <= text@.len(),
    ensures
        r@.map_values(|p: (char, usize)| (p.0, p.1 as int)) == symbols_in(
            text@,
            lo as int,
            hi as int,
        ),
{
    let mut found: Vec<(char, usize)> = Vec::new();
    let mut j: usize = lo;
    proof {
        assert(found@.map_values(|p: (char, usize)| (p.0, p.1 as int)) + symbols_in(
            text@,
            lo as int,
            hi as int,
        ) =~= symbols_in(text@, lo as int, hi as int));
    }
    while j < hi
        invariant
            text.is_ascii(),
            lo <= j <= hi <= text@.len(),
            symbols_in(text@, lo as int, hi as int) == found@.map_values(
                |p: (char, usize)| (p.0, p.1 as int),
            ) + symbols_in(text@, j as int, hi as int),
        decreases hi - j,
    {
        let c = text.get_ascii(j) as char;
        proof {
            assert(text@[j as int] <= '\u{7f}');
            assert(c == text@[j as int]);
        }
        if !(c >= '0' && c <= '9') && c != '.' {
            proof {
                let mapped = found@.map_values(|p: (char, usize)| (p.0, p.1 as int));
                assert(found@.push((c, j)).map_values(|p: (char, usize)| (p.0, p.1 as int))
                    =~= mapped.push((c, j as int)));
                assert(mapped + (seq![(c, j as int)] + symbols_in(text@, j + 1, hi as int))
                    =~= mapped.push((c, j as int)) + symbols_in(text@, j + 1, hi as int));
            }
            found.push((c, j));
        }
        j = j + 1;
    }
    proof {
        assert(found@.map_values(|p: (char, usize)| (p.0, p.1 as int)) + Seq::<
            (char, int),
        >::empty() =~= found@.map_values(|p: (char, usize)| (p.0, p.1 as int)));
    }
    found
}

impl Schematic {
    /// Finds every part of the schematic: each maximal digit run becomes
    /// a part carrying its number and the symbols on the three rows
    /// around it.  The schematic must be padded, so that every run has a
    /// full border inside the buffer.
    pub fn scan_for_parts(&self) -> (r: Vec<Part>)
        requires
            vstd::utf8::is_ascii_chars(self.raw@),
            forall|i: int|
                0 <= i < digit_runs(self.raw@).len() ==> {
                    let run = #[trigger] digit_runs(self.raw@)[i];
                    &&& run.0 >= self.row_len + 1
                    &&& run.1 + 1 + self.row_len <= self.raw@.len()
                    &&& digits_val(self.raw@.subrange(run.0, run.1)) <= u32::MAX
                },
        ensures
            r@.len() == digit_runs(self.raw@).len(),
            forall|i: int|
                0 <= i < r@.len() ==> {
                    let run = digit_runs(self.raw@)[i];
                    &&& (#[trigger] r@[i]).number == digits_val(self.raw@.subrange(run.0, run.1))
                    &&& r@[i].symbols@.map_values(|p: (char, usize)| (p.0, p.1 as int))
                        == spec_part_symbols(self.raw@, self.row_len as int, run.0, run.1)
                },
    {
        let text: &str = self.raw.as_str();
        proof {
            assert(vstd::string::is_ascii(text));
        }
        let ghost s = text@;
        let ghost runs = digit_runs(s);
        let len = text.unicode_len();
        let mut parts: Vec<Part> = Vec::new();
        let mut pos: usize = 0;
        proof {
            assert(s.skip(0) =~= s);
            assert(digit_runs(s.skip(0)).map_values(|p: (int, int)| (p.0 + 0, p.1 + 0))
                =~= runs.skip(0));
            assert(digit_runs(s.skip(0)).map_values(|p: (int, int)| (p.0 + 0, p.1 + 0))
                == runs.skip(0));
        }
        while pos < len
            invariant
                text.is_ascii(),
                s == text@,
                s == self.raw@,
                runs == digit_runs(s),
                len == s.len(),
                pos <= len,
                parts@.len() <= runs.len(),
                digit_runs(s.skip(pos as int)).map_values(
                    |p: (int, int)| (p.0 + pos as int, p.1 + pos as int),
                ) == runs.skip(parts@.len() as int),
                forall|i: int|
                    0 <= i < runs.len() ==> {
                        let run = #[trigger] runs[i];
                        &&& run.0 >= self.row_len + 1
                        &&& run.1 + 1 + self.row_len <= s.len()
                        &&& digits_val(s.subrange(run.0, run.1)) <= u32::MAX
                    },
                forall|i: int|
                    0 <= i < parts@.len() ==> {
                        let run = runs[i];
                        &&& (#[trigger] parts@[i]).number == digits_val(s.subrange(run.0, run.1))
                        &&& parts@[i].symbols@.map_values(|p: (char, usize)| (p.0, p.1 as int))
                            == spec_part_symbols(s, self.row_len as int, run.0, run.1)
                    },
            decreases len - pos,
        {
            let ghost k = parts@.len() as int;
            let ghost rest = s.skip(pos as int);
            // find the start of the next digit run
            let mut start: usize = pos;
            while start < len && !((text.get_ascii(start) as char) >= '0' && (text.get_ascii(
                start,
            ) as char) <= '9')
                invariant
                    text.is_ascii(),
                    s == text@,
                    len == s.len(),
                    pos <= start <= len,
                    forall|j: int| pos <= j < start ==> !is_digit(s[j]),
                decreases len - start,
            {
                start = start + 1;
            }
            proof {
                assert forall|j: int| 0 <= j < start - pos implies !is_digit(rest[j]) by {
                    assert(rest[j] == s[pos + j]);
                }
                if start < len {
                    assert(rest[start - pos] == s[start as int]);
                }
                lemma_digit_start_is(rest, start - pos);
            }
            if start == len {
                // no further digit run: the listing is exhausted
                proof {
                    assert(digit_runs(rest) =~= Seq::<(int, int)>::empty());
                    assert(digit_runs(rest).map_values(
                        |p: (int, int)| (p.0 + pos as int, p.1 + pos as int),
                    ) =~= Seq::<(int, int)>::empty());
                    assert(s.skip(len as int).len() == 0);
                    assert(digit_runs(s.skip(len as int)) =~= Seq::<(int, int)>::empty());
                    assert(digit_runs(s.skip(len as int)).map_values(
                        |p: (int, int)| (p.0 + len as int, p.1 + len as int),
                    ) =~= runs.skip(parts@.len() as int));
                }
                pos = len;
                continue ;
            }
            // measure the run
            let mut fin: usize = start;
            while fin < len && (text.get_ascii(fin) as char) >= '0' && (text.get_ascii(fin) as char)
                <= '9'
                invariant
                    text.is_ascii(),
                    s == text@,
                    len == s.len(),
                    start <= fin <= len,
                    forall|j: int| start <= j < fin ==> is_digit(s[j]),
                decreases len - fin,
            {
                fin = fin + 1;
            }
            proof {
                let tail = s.skip(start as int);
                assert forall|j: int| 0 <= j < fin - start implies is_digit(tail[j]) by {
                    assert(tail[j] == s[start + j]);
                }
                if fin < len {
                    assert(tail[fin - start] == s[fin as int]);
                }
                lemma_digit_prefix_is(tail, fin - start);
                assert(rest.skip(start - pos) =~= tail);
                // this run is the next entry of the listing
                let shifted = digit_runs(rest).map_values(
                    |p: (int, int)| (p.0 + pos as int, p.1 + pos as int),
                );
                assert(digit_runs(rest)[0] == (start - pos as int, fin - pos as int));
                assert(shifted.len() >= 1);
                assert(k < runs.len());
                assert(shifted[0] == (start as int, fin as int));
                assert(runs.skip(k)[0] == runs[k]);
                assert(runs[k] == (start as int, fin as int));
                // and the rest of the listing continues past it
                let after = digit_runs(s.skip(fin as int)).map_values(
                    |p: (int, int)| (p.0 + fin as int, p.1 + fin as int),
                );
                assert(rest.skip((start - pos) + (fin - start)) =~= s.skip(fin as int));
                assert forall|i: int| 0 <= i < after.len() implies after[i] == runs.skip(
                    k + 1,
                )[i] by {
                    let inner = digit_runs(s.skip(fin as int));
                    assert(digit_runs(rest)[i + 1] == (
                        inner[i].0 + (fin - pos as int),
                        inner[i].1 + (fin - pos as int),
                    ));
                    assert(shifted[i + 1] == (inner[i].0 + fin as int, inner[i].1 + fin as int));
                    assert(runs.skip(k)[i + 1] == runs[k + 1 + i]);
                    assert(runs.skip(k + 1)[i] == runs[k + 1 + i]);
                    assert(after[i] == (inner[i].0 + fin as int, inner[i].1 + fin as int));
                }
                assert(after =~= runs.skip(k + 1));
                // the run's characters carry its number
                lemma_digit_prefix_digits(tail);
                assert forall|j: int| 0 <= j < fin - start implies crate::text::is_digit(
                    #[trigger] s.subrange(start as int, fin as int)[j],
                ) by {
                    assert(s.subrange(start as int, fin as int)[j] == tail[j]);
                }
            }
            let run_text = text.substring_ascii(start, fin);
            proof {
                assert(run_text@ =~= s.subrange(start as int, fin as int));
            }
            let found_number: u32 = parse_u32(run_text).unwrap();
            // gather the symbols on the three rows around the run
            let left_bound: usize = start - 1;
            let right_bound: usize = fin + 1;
            let top_start: usize = left_bound - self.row_len;
            let bottom_start: usize = left_bound + self.row_len;
            let mut found_symbols = symbols_in_slice(text, top_start, right_bound - self.row_len);
            let mut found_symbols_mid = symbols_in_slice(text, left_bound, right_bound);
            let mut found_symbols_bot = symbols_in_slice(
                text,
                bottom_start,
                right_bound + self.row_len,
            );
            proof {
                let f = |p: (char, usize)| (p.0, p.1 as int);
                assert((found_symbols@ + found_symbols_mid@).map_values(f)
                    =~= found_symbols@.map_values(f) + found_symbols_mid@.map_values(f));
                assert(((found_symbols@ + found_symbols_mid@) + found_symbols_bot@).map_values(f)
                    =~= (found_symbols@ + found_symbols_mid@).map_values(f)
                    + found_symbols_bot@.map_values(f));
            }
            found_symbols.append(&mut found_symbols_mid);
            found_symbols.append(&mut found_symbols_bot);
            parts.push(Part { number: found_number, symbols: found_symbols });
            pos = fin;
        }
        proof {
            if pos >= len {
                assert(s.skip(pos as int).len() == 0);
                assert(digit_runs(s.skip(pos as int)) =~= Seq::<(int, int)>::empty());
                assert(runs.skip(parts@.len() as int) =~= Seq::<(int, int)>::empty());
                assert(parts@.len() == runs.len());
            }
        }
        parts
    }
}

} // verus!
