use vstd::prelude::*;
use crate::text::{chars_of, lines_of, numbers_after_colon, read_numbers_after_colon, split_lines};

verus! {

/// Why the race sheet could not be read or scored.
#[derive(Debug, Clone, Copy, PartialEq, Eq, Structural)]
pub enum RaceError {
    /// A missing line, a missing `:`, a field that is not an integer, or a race
    /// without a record distance.
    Parse,
    /// The product of the counts does not fit in an `i64`.
    Overflow,
}

/// One race: how long it lasts and the distance to beat.
#[derive(Debug, Clone, Copy, PartialEq, Eq, Structural)]
pub struct Race {
    pub duration: i64,
    pub record_distance: i64,
}

/// The distance covered when the button is held for `hold` of `duration` units.
pub open spec fn distance(duration: int, hold: int) -> int {
    hold * (duration - hold)
}

/// How many holds among the first `n` beat the record.
pub open spec fn winning_holds(duration: int, record: int, n: int) -> int
    decreases n,
{
    if n <= 0 {
        0
    } else {
        winning_holds(duration, record, n - 1) + if distance(duration, n - 1) > record {
            1int
        } else {
            0int
        }
    }
}

/// The durations fit the arithmetic: every distance of the race fits in an `i64`.
pub open spec fn duration_fits(duration: int) -> bool {
    duration <= 0 || duration * duration <= 4 * (i64::MAX as int)
}

proof fn lemma_distance_fits(duration: int, hold: int)
    requires
        duration_fits(duration),
        0 <= hold < duration,
    ensures
        0 <= distance(duration, hold) <= i64::MAX,
{
    assert(0 <= hold * (duration - hold)) by (nonlinear_arith)
        requires
            0 <= hold < duration,
    ;
    assert(4 * (hold * (duration - hold)) <= duration * duration) by (nonlinear_arith);
}

proof fn lemma_winning_holds_bounded(duration: int, record: int, n: int)
    requires
        0 <= n,
    ensures
        0 <= winning_holds(duration, record, n) <= n,
    decreases n,
{
    if n > 0 {
        lemma_winning_holds_bounded(duration, record, n - 1);
    }
}

impl Race {
    pub fn new(duration: i64, record_distance: i64) -> (r: Race)
        ensures
            r == (Race { duration, record_distance }),
    {
        Race { duration, record_distance }
    }

    /// The distance for each hold time `0, 1, ..., duration - 1`.
    pub fn get_options(&self) -> (r: Vec<i64>)
        requires
            duration_fits(self.duration as int),
        ensures
            r@.len() == if self.duration > 0 { self.duration as int } else { 0 },
            forall|i: int| 0 <= i < r@.len() ==> #[trigger] r@[i] == distance(self.duration as int, i),
    {
        let mut options: Vec<i64> = Vec::new();
        let mut i: i64 = 0;
        while i < self.duration
            invariant
                0 <= i,
                i == 0 || i <= self.duration,
                duration_fits(self.duration as int),
                options@.len() == i,
                forall|j: int| 0 <= j < i ==> #[trigger] options@[j] == distance(self.duration as int, j),
            decreases self.duration - i,
        {
            proof {
                lemma_distance_fits(self.duration as int, i as int);
            }
            options.push(i * (self.duration - i));
            i = i + 1;
        }
        options
    }

    /// How many hold times beat the record distance.
    pub fn get_number_of_options_to_win(&self) -> (r: i64)
        requires
            duration_fits(self.duration as int),
        ensures
            r == winning_holds(self.duration as int, self.record_distance as int, if self.duration > 0 {
                self.duration as int
            } else {
                0
            }),
    {
        let mut count: i64 = 0;
        let mut i: i64 = 0;
        while i < self.duration
            invariant
                0 <= i,
                i == 0 || i <= self.duration,
                duration_fits(self.duration as int),
                count == winning_holds(self.duration as int, self.record_distance as int, i as int),
            decreases self.duration - i,
        {
            proof {
                lemma_distance_fits(self.duration as int, i as int);
                lemma_winning_holds_bounded(self.duration as int, self.record_distance as int, i as int);
            }
            if i * (self.duration - i) > self.record_distance {
                count = count + 1;
            }
            i = i + 1;
        }
        count
    }
}

/// The product of the winning counts of the first `n` races.
pub open spec fn product_of_wins(races: Seq<Race>, n: int) -> int
    decreases n,
{
    if n <= 0 {
        1
    } else {
        product_of_wins(races, n - 1) * winning_holds(
            races[n - 1].duration as int,
            races[n - 1].record_distance as int,
            if races[n - 1].duration > 0 { races[n - 1].duration as int } else { 0 },
        )
    }
}

pub open spec fn races_fit(races: Seq<Race>) -> bool {
    forall|i: int| 0 <= i < races.len() ==> duration_fits((#[trigger] races[i]).duration as int)
}

/// A sheet of races.
#[derive(Debug)]
pub struct Day6 {
    races: Vec<Race>,
}

impl Day6 {
    pub closed spec fn races(&self) -> Seq<Race> {
        self.races@
    }

    pub fn new(races: Vec<Race>) -> (r: Day6)
        ensures
            r.races() == races@,
    {
        Day6 { races }
    }

    /// The product over all races of the number of ways to win; `Overflow` when that
    /// product does not fit in an `i64`.
    pub fn run_one(&self) -> (r: Result<i64, RaceError>)
        requires
            races_fit(self.races()),
        ensures
            r is Ok <==> product_of_wins(self.races(), self.races().len() as int) <= i64::MAX,
            r matches Ok(v) ==> v == product_of_wins(self.races(), self.races().len() as int),
            r is Err ==> r == Err::<i64, RaceError>(RaceError::Overflow),
    {
        let n = self.races.len();
        let mut i: usize = 0;
        while i < n
            invariant
                i <= n,
                n == self.races@.len(),
                races_fit(self.races@),
                forall|j: int| 0 <= j < i ==> wins_of(#[trigger] self.races@[j]) >= 1,
            decreases n - i,
        {
            let race = self.races[i];
            assert(duration_fits(self.races@[i as int].duration as int));
            if race.get_number_of_options_to_win() == 0 {
                proof {
                    lemma_product_zero(self.races@, i as int, n as int);
                }
                return Ok(0);
            }
            proof {
                lemma_winning_holds_bounded(race.duration as int, race.record_distance as int, if race.duration > 0 { race.duration as int } else { 0 });
            }
            i = i + 1;
        }
        let mut product: i64 = 1;
        let mut i: usize = 0;
        while i < n
            invariant
                i <= n,
                n == self.races@.len(),
                races_fit(self.races@),
                forall|j: int| 0 <= j < n ==> wins_of(#[trigger] self.races@[j]) >= 1,
                product == product_of_wins(self.races@, i as int),
            decreases n - i,
        {
            let race = self.races[i];
            assert(duration_fits(self.races@[i as int].duration as int));
            let wins = race.get_number_of_options_to_win();
            proof {
                lemma_product_nonnegative(self.races@, i as int);
                assert(wins_of(self.races@[i as int]) >= 1);
                assert(product_of_wins(self.races@, i + 1) == product * wins);
            }
            match product.checked_mul(wins) {
                Some(p) => {
                    product = p;
                },
                None => {
                    assert(product_of_wins(self.races@, i + 1) > i64::MAX) by (nonlinear_arith)
                        requires
                            product_of_wins(self.races@, i + 1) == product * wins,
                            0 <= product,
                            0 <= wins,
                            !(product * wins <= i64::MAX),
                    ;
                    proof {
                        lemma_product_grows(self.races@, i + 1, n as int);
                    }
                    return Err(RaceError::Overflow);
                },
            }
            i = i + 1;
        }
        Ok(product)
    }

    /// Parses a sheet: a line of race durations and a line of record distances, each
    /// after a label and a `:`; the races pair them up by position.
    pub fn from_str(s: &str) -> (r: Result<Day6, RaceError>)
        ensures
            r is Ok <==> sheet_ok(s@),
            r matches Ok(d) ==> d.races() == races_of(s@),
            r is Err ==> r == Err::<Day6, RaceError>(RaceError::Parse),
    {
        let cs = chars_of(s);
        let n = cs.len();
        let mut lines = split_lines(&cs, 0, n);
        if n > 0 && cs[n - 1] == '\n' {
            lines.pop();
        }
        let ghost ls = sheet_lines(cs@);
        assert(lines@.len() == ls.len());
        if lines.len() < 2 {
            return Err(RaceError::Parse);
        }
        assert(lines@[0].0 == ls[0].0 && lines@[0].1 == ls[0].1);
        assert(lines@[1].0 == ls[1].0 && lines@[1].1 == ls[1].1);
        let (alo, ahi) = lines[0];
        let (blo, bhi) = lines[1];
        let times = match read_numbers_after_colon(&cs, alo, ahi) {
            Some(v) => v,
            None => {
                return Err(RaceError::Parse);
            },
        };
        let distances = match read_numbers_after_colon(&cs, blo, bhi) {
            Some(v) => v,
            None => {
                return Err(RaceError::Parse);
            },
        };
        if distances.len() < times.len() {
            return Err(RaceError::Parse);
        }
        let mut races: Vec<Race> = Vec::new();
        let mut i: usize = 0;
        while i < times.len()
            invariant
                i <= times@.len() <= distances@.len(),
                races@.len() == i,
                forall|j: int| 0 <= j < i ==> #[trigger] races@[j] == (Race { duration: times@[j], record_distance: distances@[j] }),
            decreases times@.len() - i,
        {
            races.push(Race::new(times[i], distances[i]));
            i = i + 1;
        }
        let d = Day6::new(races);
        assert(d.races() =~= races_of(s@));
        Ok(d)
    }
}

/// The lines of a sheet, as `str::lines` gives them: a final newline ends the last line.
pub open spec fn sheet_lines(s: Seq<char>) -> Seq<(int, int)> {
    if s.len() > 0 && s.last() == '\n' {
        lines_of(s, 0, s.len() as int).drop_last()
    } else {
        lines_of(s, 0, s.len() as int)
    }
}

pub open spec fn durations_of(s: Seq<char>) -> Option<Seq<i64>> {
    numbers_after_colon(s, sheet_lines(s)[0].0, sheet_lines(s)[0].1)
}

pub open spec fn records_of(s: Seq<char>) -> Option<Seq<i64>> {
    numbers_after_colon(s, sheet_lines(s)[1].0, sheet_lines(s)[1].1)
}

/// The text is a sheet: two lines of numbers, with a record for each duration.
pub open spec fn sheet_ok(s: Seq<char>) -> bool {
    &&& sheet_lines(s).len() >= 2
    &&& durations_of(s) is Some
    &&& records_of(s) is Some
    &&& durations_of(s)->Some_0.len() <= records_of(s)->Some_0.len()
}

/// The races of a sheet: each duration with the record at the same position.
pub open spec fn races_of(s: Seq<char>) -> Seq<Race> {
    Seq::new(
        durations_of(s)->Some_0.len(),
        |i: int| Race { duration: durations_of(s)->Some_0[i], record_distance: records_of(s)->Some_0[i] },
    )
}

/// The number of ways to win race `r`.
pub open spec fn wins_of(r: Race) -> int {
    winning_holds(
        r.duration as int,
        r.record_distance as int,
        if r.duration > 0 { r.duration as int } else { 0 },
    )
}

proof fn lemma_product_zero(races: Seq<Race>, j: int, n: int)
    requires
        0 <= j < n,
        wins_of(races[j]) == 0,
    ensures
        product_of_wins(races, n) == 0,
    decreases n,
{
    if n > j + 1 {
        lemma_product_zero(races, j, n - 1);
    }
}

proof fn lemma_product_grows(races: Seq<Race>, n: int, m: int)
    requires
        0 <= n <= m,
        forall|j: int| 0 <= j < m ==> wins_of(#[trigger] races[j]) >= 1,
    ensures
        product_of_wins(races, n) <= product_of_wins(races, m),
    decreases m - n,
{
    if n < m {
        lemma_product_grows(races, n, m - 1);
        lemma_product_nonnegative(races, m - 1);
        let p = product_of_wins(races, m - 1);
        let w = wins_of(races[m - 1]);
        assert(p <= p * w) by (nonlinear_arith)
            requires
                0 <= p,
                1 <= w,
        ;
    }
}

proof fn lemma_product_nonnegative(races: Seq<Race>, n: int)
    ensures
        0 <= product_of_wins(races, n),
    decreases n,
{
    if n > 0 {
        lemma_product_nonnegative(races, n - 1);
        let r = races[n - 1];
        lemma_winning_holds_bounded(r.duration as int, r.record_distance as int, if r.duration > 0 { r.duration as int } else { 0 });
        let p = product_of_wins(races, n - 1);
        let w = winning_holds(r.duration as int, r.record_distance as int, if r.duration > 0 { r.duration as int } else { 0 });
        assert(0 <= p * w) by (nonlinear_arith)
            requires
                0 <= p,
                0 <= w,
        ;
    }
}

/// The product of the ways to win over all races of the sheet `input`.
pub fn part_one(input: &str) -> (r: Result<i64, RaceError>)
    ensures
        !sheet_ok(input@) ==> r == Err::<i64, RaceError>(RaceError::Parse),
        sheet_ok(input@) && !races_fit(races_of(input@)) ==> r == Err::<i64, RaceError>(
            RaceError::Overflow,
        ),
        r matches Ok(v) ==> v == product_of_wins(races_of(input@), races_of(input@).len() as int),
        sheet_ok(input@) && races_fit(races_of(input@)) ==> (r is Ok <==> product_of_wins(
            races_of(input@),
            races_of(input@).len() as int,
        ) <= i64::MAX),
{
    let day6 = match Day6::from_str(input) {
        Ok(d) => d,
        Err(e) => {
            return Err(e);
        },
    };
    let mut i: usize = 0;
    while i < day6.races.len()
        invariant
            i <= day6.races@.len(),
            day6.races@ == races_of(input@),
            sheet_ok(input@),
            forall|j: int| 0 <= j < i ==> duration_fits((#[trigger] day6.races@[j]).duration as int),
        decreases day6.races@.len() - i,
    {
        let d = day6.races[i].duration;
        if d > 6_074_000_999 {
            assert((d as int) * (d as int) >= 6_074_001_000 * 6_074_001_000) by (nonlinear_arith)
                requires
                    d >= 6_074_001_000,
            ;
            assert(!duration_fits(day6.races@[i as int].duration as int));
            return Err(RaceError::Overflow);
        }
        assert(d <= 0 || (d as int) * (d as int) <= 6_074_000_999 * 6_074_000_999) by (nonlinear_arith)
            requires
                d <= 6_074_000_999,
        ;
        i = i + 1;
    }
    day6.run_one()
}

} // verus!
