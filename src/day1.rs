use vstd::prelude::*;
use crate::text::chars_of;

verus! {

/// Why a calibration total could not be given.
#[derive(Debug, Clone, Copy, PartialEq, Eq, Structural)]
pub enum CalibrationError {
    /// The total does not fit in an `i32`.
    Overflow,
}

pub open spec fn digit_value(c: char) -> Option<int> {
    if '0' <= c && c <= '9' {
        Some(c as int - '0' as int)
    } else {
        None
    }
}

/// The calibration value of a list of digits: first and last as a two-digit number,
/// or `-11` when there is none.
pub open spec fn calibration(ds: Seq<int>) -> int {
    if ds.len() == 0 {
        -11
    } else {
        ds[0] * 10 + ds.last()
    }
}

/// The digits of the first `n` characters of `s`, in order.
pub open spec fn plain_digits(s: Seq<char>, n: int) -> Seq<int>
    decreases n,
{
    if n <= 0 {
        Seq::empty()
    } else {
        match digit_value(s[n - 1]) {
            Some(d) => plain_digits(s, n - 1).push(d),
            None => plain_digits(s, n - 1),
        }
    }
}

/// The spelled-out name of digit `k + 1`.
pub open spec fn digit_word(k: int) -> Seq<char> {
    if k == 0 {
        seq!['o', 'n', 'e']
    } else if k == 1 {
        seq!['t', 'w', 'o']
    } else if k == 2 {
        seq!['t', 'h', 'r', 'e', 'e']
    } else if k == 3 {
        seq!['f', 'o', 'u', 'r']
    } else if k == 4 {
        seq!['f', 'i', 'v', 'e']
    } else if k == 5 {
        seq!['s', 'i', 'x']
    } else if k == 6 {
        seq!['s', 'e', 'v', 'e', 'n']
    } else if k == 7 {
        seq!['e', 'i', 'g', 'h', 't']
    } else {
        seq!['n', 'i', 'n', 'e']
    }
}

pub open spec fn starts_at(s: Seq<char>, i: int, w: Seq<char>) -> bool {
    i + w.len() <= s.len() && s.subrange(i, i + w.len()) == w
}

/// The digit spelled out from position `i` of `s`, by the first name in order that fits.
pub open spec fn word_digit_from(s: Seq<char>, i: int, k: int) -> Option<int>
    decreases 9 - k,
{
    if k >= 9 || k < 0 {
        None
    } else if starts_at(s, i, digit_word(k)) {
        Some(k + 1)
    } else {
        word_digit_from(s, i, k + 1)
    }
}

/// The digit at position `i`: a decimal digit, or else a spelled-out one.
pub open spec fn digit_at(s: Seq<char>, i: int) -> Option<int> {
    match digit_value(s[i]) {
        Some(d) => Some(d),
        None => word_digit_from(s, i, 0),
    }
}

/// The digits, plain or spelled out, that start in the first `n` characters of `s`.
pub open spec fn all_digits_of(s: Seq<char>, n: int) -> Seq<int>
    decreases n,
{
    if n <= 0 {
        Seq::empty()
    } else {
        match digit_at(s, n - 1) {
            Some(d) => all_digits_of(s, n - 1).push(d),
            None => all_digits_of(s, n - 1),
        }
    }
}

pub open spec fn line_value_plain(s: Seq<char>) -> int {
    calibration(plain_digits(s, s.len() as int))
}

pub open spec fn line_value_spelled(s: Seq<char>) -> int {
    calibration(all_digits_of(s, s.len() as int))
}

/// Sum of `f` over the first `n` lines.
pub open spec fn total_plain(lines: Seq<String>, n: int) -> int
    decreases n,
{
    if n <= 0 {
        0
    } else {
        total_plain(lines, n - 1) + line_value_plain(lines[n - 1]@)
    }
}

pub open spec fn total_spelled(lines: Seq<String>, n: int) -> int
    decreases n,
{
    if n <= 0 {
        0
    } else {
        total_spelled(lines, n - 1) + line_value_spelled(lines[n - 1]@)
    }
}

fn digit_of(c: char) -> (r: Option<i32>)
    ensures
        match digit_value(c) {
            Some(d) => r == Some(d as i32),
            None => r is None,
        },
{
    if '0' <= c && c <= '9' {
        Some(((c as u32) - ('0' as u32)) as i32)
    } else {
        None
    }
}

/// The calibration value of a line: its first and last decimal digit.
pub fn handle_part1_line(line: String) -> (r: i32)
    ensures
        r == line_value_plain(line@),
{
    let cs = chars_of(line.as_str());
    let mut first: i32 = -1;
    let mut second: i32 = -1;
    let mut i: usize = 0;
    while i < cs.len()
        invariant
            i <= cs@.len(),
            cs@ == line@,
            plain_digits(cs@, i as int).len() == 0 ==> first == -1 && second == -1,
            plain_digits(cs@, i as int).len() > 0 ==> first == plain_digits(cs@, i as int)[0]
                && second == plain_digits(cs@, i as int).last() && 0 <= first <= 9 && 0 <= second <= 9,
        decreases cs@.len() - i,
    {
        match digit_of(cs[i]) {
            Some(d) => {
                if first < 0 {
                    first = d;
                }
                second = d;
            },
            None => {},
        }
        i = i + 1;
    }
    first * 10 + second
}

fn digit_word_exec(k: usize) -> (r: Vec<char>)
    requires
        k < 9,
    ensures
        r@ == digit_word(k as int),
{
    let r = if k == 0 {
        vec!['o', 'n', 'e']
    } else if k == 1 {
        vec!['t', 'w', 'o']
    } else if k == 2 {
        vec!['t', 'h', 'r', 'e', 'e']
    } else if k == 3 {
        vec!['f', 'o', 'u', 'r']
    } else if k == 4 {
        vec!['f', 'i', 'v', 'e']
    } else if k == 5 {
        vec!['s', 'i', 'x']
    } else if k == 6 {
        vec!['s', 'e', 'v', 'e', 'n']
    } else if k == 7 {
        vec!['e', 'i', 'g', 'h', 't']
    } else {
        vec!['n', 'i', 'n', 'e']
    };
    assert(r@ =~= digit_word(k as int));
    r
}

fn starts_at_exec(cs: &Vec<char>, i: usize, w: &Vec<char>) -> (r: bool)
    requires
        i <= cs@.len(),
    ensures
        r == starts_at(cs@, i as int, w@),
{
    if w.len() > cs.len() - i {
        return false;
    }
    let mut j: usize = 0;
    while j < w.len()
        invariant
            j <= w@.len(),
            i <= cs@.len(),
            i + w@.len() <= cs@.len(),
            forall|t: int| 0 <= t < j ==> cs@[i + t] == w@[t],
        decreases w@.len() - j,
    {
        let n = cs.len();
        assert(i + j < n);
        let c = cs[i + j];
        if c != w[j] {
            assert(cs@.subrange(i as int, i + w@.len())[j as int] != w@[j as int]);
            return false;
        }
        j = j + 1;
    }
    assert(cs@.subrange(i as int, i + w@.len()) =~= w@);
    true
}

fn word_digit_exec(cs: &Vec<char>, i: usize) -> (r: Option<i32>)
    requires
        i <= cs@.len(),
    ensures
        match word_digit_from(cs@, i as int, 0) {
            Some(d) => r == Some(d as i32) && 1 <= d <= 9,
            None => r is None,
        },
{
    let mut k: usize = 0;
    while k < 9
        invariant
            k <= 9,
            i <= cs@.len(),
            word_digit_from(cs@, i as int, 0) == word_digit_from(cs@, i as int, k as int),
        decreases 9 - k,
    {
        let w = digit_word_exec(k);
        if starts_at_exec(cs, i, &w) {
            return Some((k + 1) as i32);
        }
        k = k + 1;
    }
    None
}

/// The calibration value of a line whose digits may also be spelled out.
pub fn handle_part2_line(line: String) -> (r: i32)
    ensures
        r == line_value_spelled(line@),
{
    let cs = chars_of(line.as_str());
    let mut first: i32 = -1;
    let mut second: i32 = -1;
    let mut i: usize = 0;
    while i < cs.len()
        invariant
            i <= cs@.len(),
            cs@ == line@,
            all_digits_of(cs@, i as int).len() == 0 ==> first == -1 && second == -1,
            all_digits_of(cs@, i as int).len() > 0 ==> first == all_digits_of(cs@, i as int)[0]
                && second == all_digits_of(cs@, i as int).last() && 0 <= first <= 9 && 0 <= second
                <= 9,
        decreases cs@.len() - i,
    {
        let found = match digit_of(cs[i]) {
            Some(d) => Some(d),
            None => word_digit_exec(&cs, i),
        };
        match found {
            Some(d) => {
                if first < 0 {
                    first = d;
                }
                second = d;
            },
            None => {},
        }
        i = i + 1;
    }
    first * 10 + second
}

/// The sum of the plain calibration values of all lines.
pub fn part1(input: Vec<String>) -> (r: Result<i32, CalibrationError>)
    ensures
        i32::MIN <= total_plain(input@, input@.len() as int) <= i32::MAX ==> r == Ok::<
            i32,
            CalibrationError,
        >(total_plain(input@, input@.len() as int) as i32),
        !(i32::MIN <= total_plain(input@, input@.len() as int) <= i32::MAX) ==> r == Err::<
            i32,
            CalibrationError,
        >(CalibrationError::Overflow),
{
    let mut total: i128 = 0;
    let mut i: usize = 0;
    while i < input.len()
        invariant
            i <= input@.len(),
            total == total_plain(input@, i as int),
            -11 * i <= total <= 99 * i,
        decreases input@.len() - i,
    {
        let v = handle_part1_line(input[i].clone());
        assert(-11 <= v <= 99) by {
            let ds = plain_digits(input@[i as int]@, input@[i as int]@.len() as int);
            lemma_plain_digits_bounded(input@[i as int]@, input@[i as int]@.len() as int);
            if ds.len() > 0 {
                assert(0 <= ds[0] <= 9 && 0 <= ds.last() <= 9);
            }
        }
        total = total + v as i128;
        i = i + 1;
    }
    if total < i32::MIN as i128 || total > i32::MAX as i128 {
        Err(CalibrationError::Overflow)
    } else {
        Ok(total as i32)
    }
}

/// The sum of the calibration values of all lines, spelled-out digits counted.
pub fn part2(input: Vec<String>) -> (r: Result<i32, CalibrationError>)
    ensures
        i32::MIN <= total_spelled(input@, input@.len() as int) <= i32::MAX ==> r == Ok::<
            i32,
            CalibrationError,
        >(total_spelled(input@, input@.len() as int) as i32),
        !(i32::MIN <= total_spelled(input@, input@.len() as int) <= i32::MAX) ==> r == Err::<
            i32,
            CalibrationError,
        >(CalibrationError::Overflow),
{
    let mut total: i128 = 0;
    let mut i: usize = 0;
    while i < input.len()
        invariant
            i <= input@.len(),
            total == total_spelled(input@, i as int),
            -11 * i <= total <= 99 * i,
        decreases input@.len() - i,
    {
        let v = handle_part2_line(input[i].clone());
        assert(-11 <= v <= 99) by {
            let ds = all_digits_of(input@[i as int]@, input@[i as int]@.len() as int);
            lemma_all_digits_bounded(input@[i as int]@, input@[i as int]@.len() as int);
            if ds.len() > 0 {
                assert(0 <= ds[0] <= 9 && 0 <= ds.last() <= 9);
            }
        }
        total = total + v as i128;
        i = i + 1;
    }
    if total < i32::MIN as i128 || total > i32::MAX as i128 {
        Err(CalibrationError::Overflow)
    } else {
        Ok(total as i32)
    }
}

proof fn lemma_plain_digits_bounded(s: Seq<char>, n: int)
    ensures
        forall|j: int| 0 <= j < plain_digits(s, n).len() ==> 0 <= #[trigger] plain_digits(s, n)[j] <= 9,
    decreases n,
{
    if n > 0 {
        lemma_plain_digits_bounded(s, n - 1);
        let p = plain_digits(s, n - 1);
        assert forall|j: int| 0 <= j < plain_digits(s, n).len() implies 0 <= #[trigger] plain_digits(s, n)[j] <= 9 by {
            if j < p.len() {
                assert(plain_digits(s, n)[j] == p[j]);
            }
        }
    }
}

proof fn lemma_word_digit_bounded(s: Seq<char>, i: int, k: int)
    ensures
        word_digit_from(s, i, k) matches Some(d) ==> 1 <= d <= 9,
    decreases 9 - k,
{
    if 0 <= k < 9 {
        lemma_word_digit_bounded(s, i, k + 1);
    }
}

proof fn lemma_all_digits_bounded(s: Seq<char>, n: int)
    ensures
        forall|j: int| 0 <= j < all_digits_of(s, n).len() ==> 0 <= #[trigger] all_digits_of(s, n)[j] <= 9,
    decreases n,
{
    if n > 0 {
        lemma_all_digits_bounded(s, n - 1);
        lemma_word_digit_bounded(s, n - 1, 0);
        let p = all_digits_of(s, n - 1);
        assert forall|j: int| 0 <= j < all_digits_of(s, n).len() implies 0 <= #[trigger] all_digits_of(s, n)[j] <= 9 by {
            if j < p.len() {
                assert(all_digits_of(s, n)[j] == p[j]);
            }
        }
    }
}

} // verus!
