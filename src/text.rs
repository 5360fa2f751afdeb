use vstd::prelude::*;
use vstd::std_specs::iter::IteratorSpec;

verus! {

broadcast use {vstd::string::axiom_spec_iter, vstd::string::next_postcondition};

/// The characters of `s`, in order.
pub fn chars_of(s: &str) -> (r: Vec<char>)
    ensures
        r@ == s@,
{
    let mut it = s.chars();
    let mut out: Vec<char> = Vec::new();
    loop
        invariant
            it.remaining() == s@.subrange(out@.len() as int, s@.len() as int),
            out@ == s@.subrange(0, out@.len() as int),
            out@.len() <= s@.len(),
        decreases s@.len() - out@.len(),
    {
        match it.next() {
            Some(c) => {
                out.push(c);
            },
            None => {
                assert(out@ =~= s@);
                return out;
            },
        }
    }
}

pub open spec fn is_digit(c: char) -> bool {
    '0' <= c && c <= '9'
}

pub open spec fn all_digits(s: Seq<char>) -> bool {
    forall|i: int| 0 <= i < s.len() ==> is_digit(#[trigger] s[i])
}

/// The value of a string of decimal digits.
pub open spec fn digits_value(s: Seq<char>) -> int
    decreases s.len(),
{
    if s.len() == 0 {
        0
    } else {
        digits_value(s.drop_last()) * 10 + (s.last() as int - '0' as int)
    }
}

/// The integer that `s` writes: an optional sign, then one or more decimal digits.
pub open spec fn int_of(s: Seq<char>) -> Option<int> {
    if s.len() >= 2 && s[0] == '-' && all_digits(s.drop_first()) {
        Some(-digits_value(s.drop_first()))
    } else if s.len() >= 2 && s[0] == '+' && all_digits(s.drop_first()) {
        Some(digits_value(s.drop_first()))
    } else if s.len() >= 1 && all_digits(s) {
        Some(digits_value(s))
    } else {
        None
    }
}

/// The `i64` that `s` writes, if it writes one in range.
pub open spec fn i64_of(s: Seq<char>) -> Option<i64> {
    match int_of(s) {
        Some(v) => if i64::MIN <= v <= i64::MAX {
            Some(v as i64)
        } else {
            None
        },
        None => None,
    }
}

/// White space as Unicode's `White_Space` property gives it, which is what
/// `char::is_whitespace` tests.
pub open spec fn is_space(c: char) -> bool {
    ('\t' <= c && c <= '\r') || c == ' ' || c == '\u{85}' || c == '\u{a0}' || c == '\u{1680}'
        || ('\u{2000}' <= c && c <= '\u{200a}') || c == '\u{2028}' || c == '\u{2029}' || c
        == '\u{202f}' || c == '\u{205f}' || c == '\u{3000}'
}

pub fn is_space_char(c: char) -> (r: bool)
    ensures
        r == is_space(c),
{
    ('\t' <= c && c <= '\r') || c == ' ' || c == '\u{85}' || c == '\u{a0}' || c == '\u{1680}'
        || ('\u{2000}' <= c && c <= '\u{200a}') || c == '\u{2028}' || c == '\u{2029}' || c
        == '\u{202f}' || c == '\u{205f}' || c == '\u{3000}'
}

proof fn lemma_digits_value_grows(s: Seq<char>, k: int)
    requires
        all_digits(s),
        0 <= k <= s.len(),
    ensures
        0 <= digits_value(s.subrange(0, k)) <= digits_value(s),
    decreases s.len(),
{
    if s.len() > 0 {
        let init = s.drop_last();
        assert(all_digits(init)) by {
            assert forall|i: int| 0 <= i < init.len() implies is_digit(#[trigger] init[i]) by {
                assert(is_digit(s[i]));
            }
        }
        assert(is_digit(s[s.len() - 1]));
        if k < s.len() {
            assert(s.subrange(0, k) =~= init.subrange(0, k));
            lemma_digits_value_grows(init, k);
        } else {
            assert(s.subrange(0, k) =~= s);
            lemma_digits_value_grows(init, 0);
            assert(init.subrange(0, 0) =~= Seq::<char>::empty());
        }
    } else {
        assert(s.subrange(0, k) =~= s);
    }
}

/// The value of the digits `cs[lo..hi]`, if it is at most `2^63`.
fn digits_bounded(cs: &Vec<char>, lo: usize, hi: usize) -> (r: Option<i128>)
    requires
        lo <= hi <= cs@.len(),
        all_digits(cs@.subrange(lo as int, hi as int)),
    ensures
        match r {
            Some(v) => v == digits_value(cs@.subrange(lo as int, hi as int)) && 0 <= v
                <= 0x8000_0000_0000_0000,
            None => digits_value(cs@.subrange(lo as int, hi as int)) > 0x8000_0000_0000_0000,
        },
{
    let ghost w = cs@.subrange(lo as int, hi as int);
    let mut acc: i128 = 0;
    let mut i: usize = lo;
    while i < hi
        invariant
            lo <= i <= hi <= cs@.len(),
            w == cs@.subrange(lo as int, hi as int),
            all_digits(w),
            acc == digits_value(w.subrange(0, i - lo)),
            0 <= acc <= 0x8000_0000_0000_0000,
        decreases hi - i,
    {
        assert(is_digit(w[i - lo]));
        let d = cs[i];
        acc = acc * 10 + ((d as u32) - ('0' as u32)) as i128;
        proof {
            let p = w.subrange(0, i + 1 - lo);
            assert(p.drop_last() =~= w.subrange(0, i - lo));
            assert(p.last() == d);
        }
        i = i + 1;
        if acc > 0x8000_0000_0000_0000 {
            proof {
                lemma_digits_value_grows(w, i - lo);
            }
            return None;
        }
    }
    assert(w.subrange(0, hi - lo) =~= w);
    Some(acc)
}

fn all_digits_in(cs: &Vec<char>, lo: usize, hi: usize) -> (r: bool)
    requires
        lo <= hi <= cs@.len(),
    ensures
        r == all_digits(cs@.subrange(lo as int, hi as int)),
{
    let ghost w = cs@.subrange(lo as int, hi as int);
    let mut i: usize = lo;
    while i < hi
        invariant
            lo <= i <= hi <= cs@.len(),
            w == cs@.subrange(lo as int, hi as int),
            forall|j: int| 0 <= j < i - lo ==> is_digit(#[trigger] w[j]),
        decreases hi - i,
    {
        let c = cs[i];
        if !('0' <= c && c <= '9') {
            assert(!is_digit(w[i - lo]));
            return false;
        }
        i = i + 1;
    }
    true
}

/// Reads the `i64` written by `cs[lo..hi]`: an optional sign and decimal digits.
pub fn parse_i64(cs: &Vec<char>, lo: usize, hi: usize) -> (r: Option<i64>)
    requires
        lo <= hi <= cs@.len(),
    ensures
        r == i64_of(cs@.subrange(lo as int, hi as int)),
{
    let ghost w = cs@.subrange(lo as int, hi as int);
    assert(hi - lo >= 1 ==> w[0] == cs@[lo as int]);
    if hi - lo >= 2 && (cs[lo] == '-' || cs[lo] == '+') {
        assert(w.drop_first() =~= cs@.subrange(lo + 1, hi as int));
        if !all_digits_in(cs, lo + 1, hi) {
            assert(!all_digits(w)) by {
                assert(!is_digit(w[0]));
            }
            return None;
        }
        match digits_bounded(cs, lo + 1, hi) {
            Some(v) => {
                if cs[lo] == '-' {
                    Some((-v) as i64)
                } else if v <= 0x7fff_ffff_ffff_ffff {
                    Some(v as i64)
                } else {
                    None
                }
            },
            None => None,
        }
    } else {
        if hi - lo == 0 || !all_digits_in(cs, lo, hi) {
            return None;
        }
        match digits_bounded(cs, lo, hi) {
            Some(v) => {
                if v <= 0x7fff_ffff_ffff_ffff {
                    Some(v as i64)
                } else {
                    None
                }
            },
            None => None,
        }
    }
}

/// The words of `s[i..hi]`, maximal runs of non-space characters, as spans; `start`
/// is where the word under way began, if one is under way at `i`.
pub open spec fn word_scan(s: Seq<char>, i: int, hi: int, start: Option<int>) -> Seq<(int, int)>
    decreases hi - i,
{
    if i >= hi {
        match start {
            Some(a) => seq![(a, hi)],
            None => Seq::empty(),
        }
    } else if is_space(s[i]) {
        match start {
            Some(a) => seq![(a, i)] + word_scan(s, i + 1, hi, None),
            None => word_scan(s, i + 1, hi, None),
        }
    } else {
        match start {
            Some(a) => word_scan(s, i + 1, hi, Some(a)),
            None => word_scan(s, i + 1, hi, Some(i)),
        }
    }
}

pub open spec fn opt_int(o: Option<usize>) -> Option<int> {
    match o {
        Some(a) => Some(a as int),
        None => None,
    }
}

pub open spec fn words_of(s: Seq<char>, lo: int, hi: int) -> Seq<(int, int)> {
    word_scan(s, lo, hi, None)
}

/// The pieces of `s[i..hi]` between separators, where a separator is a newline, or
/// with `blank` set, two newlines in a row taken left to right; `start` begins the
/// piece under way.
pub open spec fn piece_scan(s: Seq<char>, i: int, hi: int, start: int, blank: bool) -> Seq<(int, int)>
    decreases hi - i,
{
    if i >= hi {
        seq![(start, hi)]
    } else if blank && i + 1 < hi && s[i] == '\n' && s[i + 1] == '\n' {
        seq![(start, i)] + piece_scan(s, i + 2, hi, i + 2, blank)
    } else if !blank && s[i] == '\n' {
        seq![(start, i)] + piece_scan(s, i + 1, hi, i + 1, blank)
    } else {
        piece_scan(s, i + 1, hi, start, blank)
    }
}

pub open spec fn lines_of(s: Seq<char>, lo: int, hi: int) -> Seq<(int, int)> {
    piece_scan(s, lo, hi, lo, false)
}

pub open spec fn blocks_of(s: Seq<char>, lo: int, hi: int) -> Seq<(int, int)> {
    piece_scan(s, lo, hi, lo, true)
}

/// The first index in `s[lo..hi]` that holds `c`, or `hi`.
pub open spec fn first_index(s: Seq<char>, lo: int, hi: int, c: char) -> int
    decreases hi - lo,
{
    if lo >= hi {
        hi
    } else if s[lo] == c {
        lo
    } else {
        first_index(s, lo + 1, hi, c)
    }
}

pub open spec fn spans_match(r: Seq<(usize, usize)>, v: Seq<(int, int)>) -> bool {
    &&& r.len() == v.len()
    &&& forall|k: int| 0 <= k < r.len() ==> (#[trigger] r[k]).0 == v[k].0 && r[k].1 == v[k].1
}

proof fn lemma_word_scan_bounds(s: Seq<char>, i: int, hi: int, start: Option<int>, lo: int)
    requires
        lo <= i <= hi,
        start matches Some(a) ==> lo <= a < i,
    ensures
        forall|k: int|
            0 <= k < word_scan(s, i, hi, start).len() ==> lo <= (#[trigger] word_scan(s, i, hi, start)[k]).0
                < word_scan(s, i, hi, start)[k].1 <= hi,
    decreases hi - i,
{
    let w = word_scan(s, i, hi, start);
    if i < hi {
        if is_space(s[i]) {
            lemma_word_scan_bounds(s, i + 1, hi, None, lo);
            let rest = word_scan(s, i + 1, hi, None);
            if let Some(a) = start {
                assert(w == seq![(a, i)] + rest);
                assert forall|k: int| 0 <= k < w.len() implies lo <= (#[trigger] w[k]).0 < w[k].1 <= hi by {
                    if k > 0 {
                        assert(w[k] == rest[k - 1]);
                    }
                }
            } else {
                assert(w == rest);
            }
        } else {
            match start {
                Some(a) => {
                    lemma_word_scan_bounds(s, i + 1, hi, Some(a), lo);
                    assert(w == word_scan(s, i + 1, hi, Some(a)));
                },
                None => {
                    lemma_word_scan_bounds(s, i + 1, hi, Some(i), lo);
                    assert(w == word_scan(s, i + 1, hi, Some(i)));
                },
            }
        }
    } else {
        if let Some(a) = start {
            assert(w == seq![(a, hi)]);
        }
    }
}

proof fn lemma_piece_scan_bounds(s: Seq<char>, i: int, hi: int, start: int, blank: bool, lo: int)
    requires
        lo <= start <= i <= hi,
    ensures
        piece_scan(s, i, hi, start, blank).len() >= 1,
        forall|k: int|
            0 <= k < piece_scan(s, i, hi, start, blank).len() ==> lo <= (#[trigger] piece_scan(
                s,
                i,
                hi,
                start,
                blank,
            )[k]).0 <= piece_scan(s, i, hi, start, blank)[k].1 <= hi,
    decreases hi - i,
{
    if i < hi {
        if blank && i + 1 < hi && s[i] == '\n' && s[i + 1] == '\n' {
            lemma_piece_scan_bounds(s, i + 2, hi, i + 2, blank, lo);
        } else if !blank && s[i] == '\n' {
            lemma_piece_scan_bounds(s, i + 1, hi, i + 1, blank, lo);
        } else {
            lemma_piece_scan_bounds(s, i + 1, hi, start, blank, lo);
        }
    }
}

/// The spans `(start, end)` of the words of `cs[lo..hi]`.
pub fn word_spans(cs: &Vec<char>, lo: usize, hi: usize) -> (r: Vec<(usize, usize)>)
    requires
        lo <= hi <= cs@.len(),
    ensures
        spans_match(r@, words_of(cs@, lo as int, hi as int)),
        forall|k: int| 0 <= k < r@.len() ==> lo <= (#[trigger] r@[k]).0 < r@[k].1 <= hi,
{
    let ghost total = words_of(cs@, lo as int, hi as int);
    let mut out: Vec<(usize, usize)> = Vec::new();
    let mut start: Option<usize> = None;
    let mut i: usize = lo;
    proof {
        lemma_word_scan_bounds(cs@, lo as int, hi as int, None, lo as int);
    }
    while i < hi
        invariant
            lo <= i <= hi <= cs@.len(),
            start matches Some(a) ==> lo <= a < i,
            total == words_of(cs@, lo as int, hi as int),
            forall|k: int| 0 <= k < total.len() ==> lo <= (#[trigger] total[k]).0 < total[k].1 <= hi,
            ({
                let rest = word_scan(cs@, i as int, hi as int, opt_int(start));
                &&& out@.len() + rest.len() == total.len()
                &&& forall|k: int|
                    0 <= k < out@.len() ==> (#[trigger] out@[k]).0 == total[k].0 && out@[k].1
                        == total[k].1
                &&& forall|k: int| 0 <= k < rest.len() ==> #[trigger] rest[k] == total[out@.len() + k]
            }),
        decreases hi - i,
    {
        let ghost prev = word_scan(cs@, i as int, hi as int, opt_int(start));
        let ghost old_len = out@.len();
        assert forall|k: int| 0 <= k < prev.len() implies #[trigger] prev[k] == total[old_len + k] by {}
        if is_space_char(cs[i]) {
            match start {
                Some(a) => {
                    assert(prev == seq![(a as int, i as int)] + word_scan(cs@, i + 1, hi as int, None));
                    assert(prev[0] == (a as int, i as int));
                    out.push((a, i));
                    start = None;
                    i = i + 1;
                    proof {
                        let rest = word_scan(cs@, i as int, hi as int, None);
                        assert forall|k: int| 0 <= k < rest.len() implies #[trigger] rest[k]
                            == total[out@.len() + k] by {
                            assert(prev[k + 1] == rest[k]);
                            assert(prev[k + 1] == total[old_len + k + 1]);
                        }
                    }
                },
                None => {
                    i = i + 1;
                },
            }
        } else {
            match start {
                Some(_) => {},
                None => {
                    start = Some(i);
                },
            }
            i = i + 1;
        }
    }
    match start {
        Some(a) => {
            proof {
                let rest = word_scan(cs@, i as int, hi as int, Some(a as int));
                assert(rest[0] == (a as int, hi as int));
            }
            out.push((a, hi));
        },
        None => {},
    }
    out
}

/// The first index in `cs[lo..hi]` that holds `c`, or `hi`.
pub fn find_char(cs: &Vec<char>, lo: usize, hi: usize, c: char) -> (r: usize)
    requires
        lo <= hi <= cs@.len(),
    ensures
        r == first_index(cs@, lo as int, hi as int, c),
        lo <= r <= hi,
{
    let mut i: usize = lo;
    while i < hi && cs[i] != c
        invariant
            lo <= i <= hi <= cs@.len(),
            first_index(cs@, lo as int, hi as int, c) == first_index(cs@, i as int, hi as int, c),
        decreases hi - i,
    {
        i = i + 1;
    }
    i
}

/// The pieces of `cs[lo..hi]` between separators: newlines, or with `blank` set, blank
/// lines (two newlines), taken left to right as `str::split` does.
fn split_pieces(cs: &Vec<char>, lo: usize, hi: usize, blank: bool) -> (r: Vec<(usize, usize)>)
    requires
        lo <= hi <= cs@.len(),
    ensures
        spans_match(r@, piece_scan(cs@, lo as int, hi as int, lo as int, blank)),
        r@.len() >= 1,
        forall|k: int| 0 <= k < r@.len() ==> lo <= (#[trigger] r@[k]).0 <= r@[k].1 <= hi,
{
    let ghost total = piece_scan(cs@, lo as int, hi as int, lo as int, blank);
    proof {
        lemma_piece_scan_bounds(cs@, lo as int, hi as int, lo as int, blank, lo as int);
    }
    let mut out: Vec<(usize, usize)> = Vec::new();
    let mut start: usize = lo;
    let mut i: usize = lo;
    while i < hi
        invariant
            lo <= start <= i <= hi <= cs@.len(),
            forall|k: int| 0 <= k < total.len() ==> lo <= (#[trigger] total[k]).0 <= total[k].1 <= hi,
            ({
                let rest = piece_scan(cs@, i as int, hi as int, start as int, blank);
                &&& out@.len() + rest.len() == total.len()
                &&& forall|k: int|
                    0 <= k < out@.len() ==> (#[trigger] out@[k]).0 == total[k].0 && out@[k].1
                        == total[k].1
                &&& forall|k: int| 0 <= k < rest.len() ==> #[trigger] rest[k] == total[out@.len() + k]
            }),
        decreases hi - i,
    {
        let ghost prev = piece_scan(cs@, i as int, hi as int, start as int, blank);
        if blank && i + 1 < hi && cs[i] == '\n' && cs[i + 1] == '\n' {
            assert(prev[0] == (start as int, i as int));
            out.push((start, i));
            i = i + 2;
            start = i;
            proof {
                let rest = piece_scan(cs@, i as int, hi as int, start as int, blank);
                assert forall|k: int| 0 <= k < rest.len() implies #[trigger] rest[k] == total[out@.len() + k] by {
                    assert(prev[k + 1] == rest[k]);
                }
            }
        } else if !blank && cs[i] == '\n' {
            assert(prev[0] == (start as int, i as int));
            out.push((start, i));
            i = i + 1;
            start = i;
            proof {
                let rest = piece_scan(cs@, i as int, hi as int, start as int, blank);
                assert forall|k: int| 0 <= k < rest.len() implies #[trigger] rest[k] == total[out@.len() + k] by {
                    assert(prev[k + 1] == rest[k]);
                }
            }
        } else {
            i = i + 1;
        }
    }
    proof {
        let rest = piece_scan(cs@, i as int, hi as int, start as int, blank);
        assert(rest[0] == (start as int, hi as int));
    }
    out.push((start, hi));
    out
}

/// The pieces of `cs[lo..hi]` between blank lines; there is always at least one.
pub fn split_blocks(cs: &Vec<char>, lo: usize, hi: usize) -> (r: Vec<(usize, usize)>)
    requires
        lo <= hi <= cs@.len(),
    ensures
        spans_match(r@, blocks_of(cs@, lo as int, hi as int)),
        r@.len() >= 1,
        forall|k: int| 0 <= k < r@.len() ==> lo <= (#[trigger] r@[k]).0 <= r@[k].1 <= hi,
{
    split_pieces(cs, lo, hi, true)
}

/// The lines of `cs[lo..hi]`: the pieces between newlines; there is always at least one.
pub fn split_lines(cs: &Vec<char>, lo: usize, hi: usize) -> (r: Vec<(usize, usize)>)
    requires
        lo <= hi <= cs@.len(),
    ensures
        spans_match(r@, lines_of(cs@, lo as int, hi as int)),
        r@.len() >= 1,
        forall|k: int| 0 <= k < r@.len() ==> lo <= (#[trigger] r@[k]).0 <= r@[k].1 <= hi,
{
    split_pieces(cs, lo, hi, false)
}

/// The first index in `s[lo..hi]` that is not a space, or `hi`.
pub open spec fn trim_start(s: Seq<char>, lo: int, hi: int) -> int
    decreases hi - lo,
{
    if lo >= hi {
        hi
    } else if is_space(s[lo]) {
        trim_start(s, lo + 1, hi)
    } else {
        lo
    }
}

/// The end of `s[lo..hi]` once the spaces at its end are dropped.
pub open spec fn trim_end(s: Seq<char>, lo: int, hi: int) -> int
    decreases hi - lo,
{
    if hi <= lo {
        lo
    } else if is_space(s[hi - 1]) {
        trim_end(s, lo, hi - 1)
    } else {
        hi
    }
}

/// `cs[lo..hi]` without the spaces at either end.
pub fn trim_span(cs: &Vec<char>, lo: usize, hi: usize) -> (r: (usize, usize))
    requires
        lo <= hi <= cs@.len(),
    ensures
        r.0 == trim_start(cs@, lo as int, hi as int),
        r.1 == trim_end(cs@, r.0 as int, hi as int),
        lo <= r.0 <= r.1 <= hi,
{
    let mut a: usize = lo;
    while a < hi && is_space_char(cs[a])
        invariant
            lo <= a <= hi <= cs@.len(),
            trim_start(cs@, lo as int, hi as int) == trim_start(cs@, a as int, hi as int),
        decreases hi - a,
    {
        a = a + 1;
    }
    let mut b: usize = hi;
    while b > a && is_space_char(cs[b - 1])
        invariant
            lo <= a <= b <= hi <= cs@.len(),
            trim_end(cs@, a as int, hi as int) == trim_end(cs@, a as int, b as int),
        decreases b - a,
    {
        b = b - 1;
    }
    (a, b)
}

/// The `i64`s written by the first `n` of the word spans `spans` of `s`, if each
/// writes one.
pub open spec fn numbers_upto(s: Seq<char>, spans: Seq<(int, int)>, n: int) -> Option<Seq<i64>>
    decreases n,
{
    if n <= 0 {
        Some(Seq::empty())
    } else {
        match numbers_upto(s, spans, n - 1) {
            Some(v) => match i64_of(s.subrange(spans[n - 1].0, spans[n - 1].1)) {
                Some(x) => Some(v.push(x)),
                None => None,
            },
            None => None,
        }
    }
}

/// The `i64`s written by the words of `s[lo..hi]`, if each word writes one.
pub open spec fn numbers_in(s: Seq<char>, lo: int, hi: int) -> Option<Seq<i64>> {
    numbers_upto(s, words_of(s, lo, hi), words_of(s, lo, hi).len() as int)
}

/// The numbers of a labelled list: the words after the first `:` of `s[lo..hi]` and
/// before the next one. `None` without a `:` or when a word is not an `i64`.
pub open spec fn numbers_after_colon(s: Seq<char>, lo: int, hi: int) -> Option<Seq<i64>> {
    let c = first_index(s, lo, hi, ':');
    if c >= hi {
        None
    } else {
        numbers_in(s, c + 1, first_index(s, c + 1, hi, ':'))
    }
}

proof fn lemma_numbers_none(s: Seq<char>, spans: Seq<(int, int)>, n: int, m: int)
    requires
        0 <= n <= m,
        numbers_upto(s, spans, n) is None,
    ensures
        numbers_upto(s, spans, m) is None,
    decreases m - n,
{
    if n < m {
        lemma_numbers_none(s, spans, n, m - 1);
    }
}

/// Reads the numbers of a labelled list in `cs[lo..hi]`.
pub fn read_numbers_after_colon(cs: &Vec<char>, lo: usize, hi: usize) -> (r: Option<Vec<i64>>)
    requires
        lo <= hi <= cs@.len(),
    ensures
        match numbers_after_colon(cs@, lo as int, hi as int) {
            Some(v) => r matches Some(x) && x@ == v,
            None => r is None,
        },
{
    let colon = find_char(cs, lo, hi, ':');
    if colon == hi {
        return None;
    }
    let colon2 = find_char(cs, colon + 1, hi, ':');
    let words = word_spans(cs, colon + 1, colon2);
    let ghost spans = words_of(cs@, colon + 1, colon2 as int);
    let mut out: Vec<i64> = Vec::new();
    let mut i: usize = 0;
    while i < words.len()
        invariant
            i <= words@.len(),
            colon2 <= cs@.len(),
            lo <= colon < hi <= cs@.len(),
            colon == first_index(cs@, lo as int, hi as int, ':'),
            colon2 == first_index(cs@, colon + 1, hi as int, ':'),
            spans == words_of(cs@, colon + 1, colon2 as int),
            spans_match(words@, spans),
            forall|j: int| 0 <= j < words@.len() ==> colon + 1 <= (#[trigger] words@[j]).0 < words@[j].1 <= colon2,
            numbers_upto(cs@, spans, i as int) == Some(out@),
        decreases words@.len() - i,
    {
        assert(colon + 1 <= words@[i as int].0 < words@[i as int].1 <= colon2);
        assert(words@[i as int].0 == spans[i as int].0 && words@[i as int].1 == spans[i as int].1);
        match parse_i64(cs, words[i].0, words[i].1) {
            Some(v) => out.push(v),
            None => {
                proof {
                    assert(numbers_upto(cs@, spans, i + 1) is None);
                    lemma_numbers_none(cs@, spans, i + 1, spans.len() as int);
                    assert(first_index(cs@, lo as int, hi as int, ':') == colon);
                    assert(numbers_in(cs@, colon + 1, colon2 as int) is None);
                }
                return None;
            },
        }
        i = i + 1;
    }
    Some(out)
}

} // verus!
