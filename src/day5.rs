use vstd::prelude::*;
use std::cmp::Ordering;
use crate::text::{
    blocks_of, chars_of, i64_of, lines_of, numbers_after_colon, parse_i64, read_numbers_after_colon,
    spans_match, split_blocks, split_lines, trim_end, trim_span, trim_start, word_spans, words_of,
};

verus! {

/// A key of the rule order: either a whole rule `(start, length)` or a bare query point.
#[derive(Debug, Clone, Copy, Eq)]
pub enum RuleRange {
    Rule(i64, i64),
    Partial(i64),
}

/// Three-way order of rules and points: rules by start, then length; a point against
/// a rule is `Equal` exactly when the rule's half-open range contains it.
pub open spec fn compare_spec(a: RuleRange, b: RuleRange) -> Ordering {
    match (a, b) {
        (RuleRange::Partial(q), RuleRange::Rule(s, l)) => {
            if q < s {
                Ordering::Less
            } else if q >= s + l {
                Ordering::Greater
            } else {
                Ordering::Equal
            }
        },
        (RuleRange::Rule(s, l), RuleRange::Partial(q)) => {
            if q < s {
                Ordering::Greater
            } else if q >= s + l {
                Ordering::Less
            } else {
                Ordering::Equal
            }
        },
        (RuleRange::Partial(x), RuleRange::Partial(y)) => {
            if x < y {
                Ordering::Less
            } else if x > y {
                Ordering::Greater
            } else {
                Ordering::Equal
            }
        },
        (RuleRange::Rule(s1, l1), RuleRange::Rule(s2, l2)) => {
            if s1 < s2 || (s1 == s2 && l1 < l2) {
                Ordering::Less
            } else if s1 > s2 || (s1 == s2 && l1 > l2) {
                Ordering::Greater
            } else {
                Ordering::Equal
            }
        },
    }
}

pub open spec fn reverse(o: Ordering) -> Ordering {
    match o {
        Ordering::Less => Ordering::Greater,
        Ordering::Greater => Ordering::Less,
        Ordering::Equal => Ordering::Equal,
    }
}

fn compare_int(x: i64, y: i64) -> (r: Ordering)
    ensures
        r == (if x < y {
            Ordering::Less
        } else if x > y {
            Ordering::Greater
        } else {
            Ordering::Equal
        }),
{
    if x < y {
        Ordering::Less
    } else if x > y {
        Ordering::Greater
    } else {
        Ordering::Equal
    }
}

/// Where point `q` lies relative to the half-open range `[s, s + l)`.
fn locate_point(q: i64, s: i64, l: i64) -> (r: Ordering)
    ensures
        r == (if q < s {
            Ordering::Less
        } else if q >= s + l {
            Ordering::Greater
        } else {
            Ordering::Equal
        }),
{
    if q < s {
        Ordering::Less
    } else if (q as i128) >= (s as i128) + (l as i128) {
        Ordering::Greater
    } else {
        Ordering::Equal
    }
}

impl RuleRange {
    /// The three-way containment comparison of two keys.
    pub fn compare(&self, other: &RuleRange) -> (r: Ordering)
        ensures
            r == compare_spec(*self, *other),
    {
        match (*self, *other) {
            (RuleRange::Partial(q), RuleRange::Rule(s, l)) => locate_point(q, s, l),
            (RuleRange::Rule(s, l), RuleRange::Partial(q)) => match locate_point(q, s, l) {
                Ordering::Less => Ordering::Greater,
                Ordering::Greater => Ordering::Less,
                Ordering::Equal => Ordering::Equal,
            },
            (RuleRange::Partial(x), RuleRange::Partial(y)) => compare_int(x, y),
            (RuleRange::Rule(s1, l1), RuleRange::Rule(s2, l2)) => {
                if s1 == s2 {
                    compare_int(l1, l2)
                } else {
                    compare_int(s1, s2)
                }
            },
        }
    }
}

impl PartialEq for RuleRange {
    fn eq(&self, other: &RuleRange) -> (r: bool) {
        match self.compare(other) {
            Ordering::Equal => true,
            _ => false,
        }
    }
}

impl vstd::std_specs::cmp::PartialEqSpecImpl for RuleRange {
    open spec fn obeys_eq_spec() -> bool {
        true
    }

    open spec fn eq_spec(&self, other: &RuleRange) -> bool {
        compare_spec(*self, *other) == Ordering::Equal
    }
}

impl PartialOrd for RuleRange {
    fn partial_cmp(&self, other: &RuleRange) -> (r: Option<Ordering>) {
        Some(self.compare(other))
    }
}

impl vstd::std_specs::cmp::PartialOrdSpecImpl for RuleRange {
    open spec fn obeys_partial_cmp_spec() -> bool {
        true
    }

    open spec fn partial_cmp_spec(&self, other: &RuleRange) -> Option<Ordering> {
        Some(compare_spec(*self, *other))
    }
}

/// Swapping the operands of the comparison reverses its result.
pub proof fn lemma_compare_antisymmetric(a: RuleRange, b: RuleRange)
    ensures
        compare_spec(b, a) == reverse(compare_spec(a, b)),
{
}

/// A point compares equal to a rule exactly when the rule's range contains it.
pub proof fn lemma_compare_point_is_containment(q: i64, s: i64, l: i64)
    ensures
        (compare_spec(RuleRange::Partial(q), RuleRange::Rule(s, l)) == Ordering::Equal) <==> (s
            <= q < s + l),
        (compare_spec(RuleRange::Partial(q), RuleRange::Rule(s, l)) == Ordering::Less) <==> q
            < s,
        (compare_spec(RuleRange::Partial(q), RuleRange::Rule(s, l)) == Ordering::Greater) <==> (q
            >= s + l && q >= s),
{
}

/// One interval rule: `[source_start, source_start + length)` is mapped by a constant
/// offset onto `[destination_start, destination_start + length)`.
#[derive(Debug, Clone, Copy, PartialEq, Eq, Structural)]
pub struct Rule {
    pub source_start: i64,
    pub length: i64,
    pub destination_start: i64,
}

impl Rule {
    /// Both ranges of the rule fit in `i64`, and the length is not negative.
    pub open spec fn wf(self) -> bool {
        &&& 0 <= self.length
        &&& self.source_start + self.length <= i64::MAX
        &&& self.destination_start + self.length <= i64::MAX
    }

    /// The rule covers no point: its length is zero or negative.
    pub open spec fn is_empty(self) -> bool {
        self.length <= 0
    }

    /// A rule that covers some point has both of its ranges within `i64`.
    pub open spec fn fits(self) -> bool {
        self.is_empty() || self.wf()
    }

    pub open spec fn end(self) -> int {
        self.source_start + self.length
    }

    pub open spec fn contains(self, q: int) -> bool {
        self.source_start <= q < self.end()
    }

    pub open spec fn image(self, q: int) -> int {
        self.destination_start + (q - self.source_start)
    }

    pub open spec fn key(self) -> RuleRange {
        RuleRange::Rule(self.source_start, self.length)
    }

    /// Rule `self` lies wholly before rule `other`, and starts strictly earlier.
    pub open spec fn before(self, other: Rule) -> bool {
        self.end() <= other.source_start && self.source_start < other.source_start
    }

    pub fn new(source_start: i64, length: i64, destination_start: i64) -> (r: Rule)
        ensures
            r == (Rule { source_start, length, destination_start }),
    {
        Rule { source_start, length, destination_start }
    }
}

/// Rules ordered by start, pairwise disjoint, each well formed.
pub open spec fn sorted_disjoint(rules: Seq<Rule>) -> bool {
    &&& forall|i: int| 0 <= i < rules.len() ==> #[trigger] rules[i].wf()
    &&& forall|i: int, j: int| 0 <= i < j < rules.len() ==> #[trigger] rules[i].before(#[trigger] rules[j])
}

/// The image of `q` under the first rule of `rules` that contains it, or `q` itself.
pub open spec fn stage_image(rules: Seq<Rule>, q: int) -> int
    decreases rules.len(),
{
    if rules.len() == 0 {
        q
    } else if rules[0].contains(q) {
        rules[0].image(q)
    } else {
        stage_image(rules.drop_first(), q)
    }
}

/// One stage of the pipeline: an ordered collection of non-overlapping rules, kept in
/// a vector sorted by start and searched by binary search under the containment order
/// of `RuleRange::compare`.
#[derive(Debug)]
pub struct Stage {
    rules: Vec<Rule>,
}

impl View for Stage {
    type V = Seq<Rule>;

    closed spec fn view(&self) -> Seq<Rule> {
        self.rules@
    }
}

impl Stage {
    pub open spec fn wf(&self) -> bool {
        sorted_disjoint(self@)
    }

    pub open spec fn image(&self, q: int) -> int {
        stage_image(self@, q)
    }

    pub fn new() -> (r: Stage)
        ensures
            r@ == Seq::<Rule>::empty(),
            r.wf(),
    {
        Stage { rules: Vec::new() }
    }

    pub fn len(&self) -> (r: usize)
        ensures
            r == self@.len(),
    {
        self.rules.len()
    }
}

/// Why building or running an almanac failed.
#[derive(Debug, Clone, Copy, PartialEq, Eq, Structural)]
pub enum AlmanacError {
    /// A malformed seed line or rule line.
    Parse,
    /// There is no seed to take a minimum over.
    EmptyResult,
    /// A rule overlaps a rule already in its stage.
    OverlappingRules,
    /// Seed ranges are read in pairs, and the last seed has no partner.
    UnpairedSeed,
    /// A seed range reaches past the largest `i64`.
    SeedRangeTooLarge,
}

impl Stage {
    /// Adds a rule, keeping the rules sorted; fails when it overlaps one already there.
    pub fn insert(&mut self, rule: Rule) -> (r: Result<(), AlmanacError>)
        requires
            old(self).wf(),
            rule.wf(),
        ensures
            final(self).wf(),
            r is Ok <==> forall|i: int|
                0 <= i < old(self)@.len() ==> #[trigger] old(self)@[i].before(rule) || rule.before(
                    old(self)@[i],
                ),
            r is Ok ==> exists|k: int|
                0 <= k <= old(self)@.len() && final(self)@ == old(self)@.insert(k, rule),
            r is Err ==> r == Err::<(), AlmanacError>(AlmanacError::OverlappingRules)
                && final(self)@ == old(self)@,
    {
        let n = self.rules.len();
        let mut k: usize = 0;
        while k < n && self.rules[k].source_start < rule.source_start
            invariant
                k <= n,
                n == self.rules@.len(),
                self.rules@ == old(self).rules@,
                forall|a: int| 0 <= a < k ==> (#[trigger] self.rules@[a]).source_start < rule.source_start,
            decreases n - k,
        {
            k = k + 1;
        }
        let mut i: usize = 0;
        while i < n
            invariant
                i <= n,
                n == self.rules@.len(),
                self.rules@ == old(self).rules@,
                rule.wf(),
                sorted_disjoint(self.rules@),
                forall|a: int|
                    0 <= a < i ==> #[trigger] self.rules@[a].before(rule) || rule.before(
                        self.rules@[a],
                    ),
            decreases n - i,
        {
            let other = self.rules[i];
            assert(self.rules@[i as int].wf());
            let earlier = other.source_start + other.length <= rule.source_start
                && other.source_start < rule.source_start;
            let later = rule.source_start + rule.length <= other.source_start
                && rule.source_start < other.source_start;
            if !(earlier || later) {
                assert(!(self.rules@[i as int].before(rule) || rule.before(self.rules@[i as int])));
                return Err(AlmanacError::OverlappingRules);
            }
            i = i + 1;
        }
        let ghost old_rules = self.rules@;
        self.rules.insert(k, rule);
        proof {
            let new_rules = self.rules@;
            assert(new_rules == old_rules.insert(k as int, rule));
            assert forall|a: int| 0 <= a < old_rules.len() && a >= k implies rule.before(
                #[trigger] old_rules[a],
            ) by {
                if a > k {
                    assert(old_rules[k as int].before(old_rules[a]));
                }
                assert(old_rules[a].before(rule) || rule.before(old_rules[a]));
            }
            assert forall|a: int| 0 <= a < old_rules.len() && a < k implies (#[trigger] old_rules[
                a
            ]).before(rule) by {
                assert(old_rules[a].before(rule) || rule.before(old_rules[a]));
            }
            assert forall|a: int, b: int| 0 <= a < b < new_rules.len() implies #[trigger] new_rules[
                a
            ].before(#[trigger] new_rules[b]) by {
                if b < k {
                    assert(old_rules[a].before(old_rules[b]));
                } else if b == k {
                } else if a < k {
                    assert(new_rules[b] == old_rules[b - 1]);
                    assert(old_rules[a].before(old_rules[b - 1]));
                } else if a == k {
                } else {
                    assert(old_rules[a - 1].before(old_rules[b - 1]));
                }
            }
            assert forall|a: int| 0 <= a < new_rules.len() implies #[trigger] new_rules[a].wf() by {
                if a < k {
                    assert(old_rules[a].wf());
                } else if a > k {
                    assert(old_rules[a - 1].wf());
                }
            }
        }
        Ok(())
    }

    /// Binary search for the rule that compares equal to `key`.
    fn search(&self, key: &RuleRange) -> (r: Option<usize>)
        requires
            self.wf(),
        ensures
            match r {
                Some(i) => i < self@.len() && compare_spec(*key, self@[i as int].key())
                    == Ordering::Equal,
                None => forall|i: int|
                    0 <= i < self@.len() ==> compare_spec(*key, (#[trigger] self@[i]).key())
                        != Ordering::Equal,
            },
    {
        let mut lo: usize = 0;
        let mut hi: usize = self.rules.len();
        while lo < hi
            invariant
                lo <= hi <= self@.len(),
                self.wf(),
                forall|i: int|
                    0 <= i < lo ==> compare_spec(*key, (#[trigger] self@[i]).key())
                        == Ordering::Greater,
                forall|i: int|
                    hi <= i < self@.len() ==> compare_spec(*key, (#[trigger] self@[i]).key())
                        == Ordering::Less,
            decreases hi - lo,
        {
            let mid = lo + (hi - lo) / 2;
            let rule = self.rules[mid];
            let c = key.compare(&RuleRange::Rule(rule.source_start, rule.length));
            match c {
                Ordering::Equal => {
                    return Some(mid);
                },
                Ordering::Less => {
                    proof {
                        assert forall|i: int| mid <= i < self@.len() implies compare_spec(
                            *key,
                            (#[trigger] self@[i]).key(),
                        ) == Ordering::Less by {
                            if i > mid {
                                lemma_compare_monotone(self@, *key, mid as int, i);
                            }
                        }
                    }
                    hi = mid;
                },
                Ordering::Greater => {
                    proof {
                        assert forall|i: int| 0 <= i <= mid implies compare_spec(
                            *key,
                            (#[trigger] self@[i]).key(),
                        ) == Ordering::Greater by {
                            if i < mid {
                                lemma_compare_monotone(self@, *key, i, mid as int);
                            }
                        }
                    }
                    lo = mid + 1;
                },
            }
        }
        None
    }

    /// The rule whose key compares equal to `key`, as its key and destination start.
    pub fn get_key_value(&self, key: &RuleRange) -> (r: Option<(RuleRange, i64)>)
        requires
            self.wf(),
        ensures
            match r {
                Some((k, d)) => exists|i: int|
                    0 <= i < self@.len() && #[trigger] self@[i].key() == k && self@[i].destination_start
                        == d && compare_spec(*key, k) == Ordering::Equal,
                None => forall|i: int|
                    0 <= i < self@.len() ==> compare_spec(*key, (#[trigger] self@[i]).key())
                        != Ordering::Equal,
            },
    {
        match self.search(key) {
            Some(i) => {
                let rule = self.rules[i];
                assert(self@[i as int].key() == RuleRange::Rule(rule.source_start, rule.length));
                Some((RuleRange::Rule(rule.source_start, rule.length), rule.destination_start))
            },
            None => None,
        }
    }

    /// The image of `q` under this stage: shifted by the rule that contains it, else `q`.
    pub fn apply(&self, q: i64) -> (r: i64)
        requires
            self.wf(),
        ensures
            r == self.image(q as int),
    {
        match self.search(&RuleRange::Partial(q)) {
            Some(i) => {
                let rule = self.rules[i];
                proof {
                    assert(self@[i as int].wf());
                    lemma_image_in_rule(self@, i as int, q as int);
                }
                rule.destination_start + (q - rule.source_start)
            },
            None => {
                proof {
                    assert forall|i: int| 0 <= i < self@.len() implies !(
                    #[trigger] self@[i]).contains(q as int) by {
                        assert(compare_spec(RuleRange::Partial(q), self@[i].key())
                            != Ordering::Equal);
                    }
                    lemma_image_outside(self@, q as int);
                }
                q
            },
        }
    }
}

proof fn lemma_compare_monotone(rules: Seq<Rule>, key: RuleRange, i: int, j: int)
    requires
        sorted_disjoint(rules),
        0 <= i < j < rules.len(),
    ensures
        compare_spec(key, rules[i].key()) != Ordering::Greater ==> compare_spec(
            key,
            rules[j].key(),
        ) == Ordering::Less,
{
    assert(rules[i].before(rules[j]));
    assert(rules[i].wf());
}

/// In a well-formed stage the rules are strictly increasing in the containment order,
/// the order of any key against the rules never goes back from `Less` to `Greater`,
/// and no key compares equal to two rules.
pub proof fn lemma_stage_order(stage: Stage, key: RuleRange, i: int, j: int)
    requires
        stage.wf(),
        0 <= i < j < stage@.len(),
    ensures
        compare_spec(stage@[i].key(), stage@[j].key()) == Ordering::Less,
        compare_spec(stage@[j].key(), stage@[i].key()) == Ordering::Greater,
        compare_spec(key, stage@[i].key()) != Ordering::Greater ==> compare_spec(
            key,
            stage@[j].key(),
        ) == Ordering::Less,
        !(compare_spec(key, stage@[i].key()) == Ordering::Equal && compare_spec(
            key,
            stage@[j].key(),
        ) == Ordering::Equal),
{
    lemma_compare_monotone(stage@, key, i, j);
    lemma_compare_monotone(stage@, stage@[i].key(), i, j);
}

/// Under a well-formed stage, a point inside a rule is mapped by that rule's offset.
pub proof fn lemma_apply_inside(stage: Stage, i: int, q: int)
    requires
        stage.wf(),
        0 <= i < stage@.len(),
        stage@[i].contains(q),
    ensures
        stage.image(q) == stage@[i].destination_start + (q - stage@[i].source_start),
{
    lemma_image_in_rule(stage@, i, q);
}

proof fn lemma_image_in_rule(rules: Seq<Rule>, i: int, q: int)
    requires
        sorted_disjoint(rules),
        0 <= i < rules.len(),
        rules[i].contains(q),
    ensures
        stage_image(rules, q) == rules[i].image(q),
    decreases i,
{
    if i > 0 {
        assert(rules[0].before(rules[i]));
        let rest = rules.drop_first();
        assert(rest[i - 1] == rules[i]);
        assert forall|a: int, b: int| 0 <= a < b < rest.len() implies #[trigger] rest[a].before(
            #[trigger] rest[b],
        ) by {
            assert(rules[a + 1].before(rules[b + 1]));
        }
        assert forall|a: int| 0 <= a < rest.len() implies #[trigger] rest[a].wf() by {
            assert(rules[a + 1].wf());
        }
        lemma_image_in_rule(rest, i - 1, q);
    }
}

/// A point that no rule of the stage contains is passed through unchanged.
pub proof fn lemma_apply_outside(stage: Stage, q: int)
    requires
        forall|i: int| 0 <= i < stage@.len() ==> !(#[trigger] stage@[i]).contains(q),
    ensures
        stage.image(q) == q,
{
    lemma_image_outside(stage@, q);
}

proof fn lemma_image_outside(rules: Seq<Rule>, q: int)
    requires
        forall|i: int| 0 <= i < rules.len() ==> !(#[trigger] rules[i]).contains(q),
    ensures
        stage_image(rules, q) == q,
    decreases rules.len(),
{
    if rules.len() > 0 {
        assert(!rules[0].contains(q));
        let rest = rules.drop_first();
        assert forall|i: int| 0 <= i < rest.len() implies !(#[trigger] rest[i]).contains(q) by {
            assert(rules[i + 1] == rest[i]);
        }
        lemma_image_outside(rest, q);
    }
}


pub open spec fn stages_wf(stages: Seq<Stage>) -> bool {
    forall|i: int| 0 <= i < stages.len() ==> (#[trigger] stages[i]).wf()
}

/// The location of `q`: `q` folded through every stage, first to last.
pub open spec fn locate(stages: Seq<Stage>, q: int) -> int
    decreases stages.len(),
{
    if stages.len() == 0 {
        q
    } else {
        locate(stages.drop_first(), stages[0].image(q))
    }
}

/// Folding through stages `a` and then `b` is folding through `a + b`: each stage acts
/// on what the stages before it gave, in list order.
pub proof fn lemma_locate_append(a: Seq<Stage>, b: Seq<Stage>, q: int)
    ensures
        locate(a + b, q) == locate(b, locate(a, q)),
    decreases a.len(),
{
    if a.len() == 0 {
        assert(a + b =~= b);
    } else {
        assert((a + b).drop_first() =~= a.drop_first() + b);
        assert((a + b)[0] == a[0]);
        lemma_locate_append(a.drop_first(), b, a[0].image(q));
    }
}

/// `m` is the least location of the integers in `[lo, hi)`.
pub open spec fn least_location(stages: Seq<Stage>, lo: int, hi: int, m: int) -> bool {
    &&& exists|x: int| lo <= x < hi && #[trigger] locate(stages, x) == m
    &&& forall|x: int| lo <= x < hi ==> #[trigger] locate(stages, x) >= m
}

/// `m` is the least location of the seeds in `seeds`.
pub open spec fn least_seed_location(stages: Seq<Stage>, seeds: Seq<i64>, m: int) -> bool {
    &&& exists|i: int| 0 <= i < seeds.len() && #[trigger] locate(stages, seeds[i] as int) == m
    &&& forall|i: int| 0 <= i < seeds.len() ==> #[trigger] locate(stages, seeds[i] as int) >= m
}

/// Consecutive seeds read as `(start, length)` pairs.
pub open spec fn seed_pairs(seeds: Seq<i64>) -> Seq<(i64, i64)> {
    Seq::new(seeds.len() / 2, |i: int| (seeds[2 * i], seeds[2 * i + 1]))
}

pub open spec fn in_pair(p: (i64, i64), x: int) -> bool {
    p.0 <= x < p.0 + p.1
}

pub open spec fn pair_fits(p: (i64, i64)) -> bool {
    p.1 <= 0 || p.0 + p.1 <= i64::MAX
}

/// Start of chunk `n` when `[start, start + length)` is cut into `workers` chunks.
pub open spec fn chunk_lo(start: int, length: int, workers: int, n: int) -> int {
    start + n * (length / workers)
}

/// End of chunk `n`; the last chunk takes the remainder.
pub open spec fn chunk_hi(start: int, length: int, workers: int, n: int) -> int {
    if n == workers - 1 {
        start + length
    } else {
        start + (n + 1) * (length / workers)
    }
}

proof fn lemma_chunk_bounds(start: int, length: int, workers: int, n: int)
    requires
        0 <= length,
        1 <= workers,
        0 <= n < workers,
    ensures
        start <= chunk_lo(start, length, workers, n) <= chunk_hi(start, length, workers, n)
            <= start + length,
        workers * (length / workers) <= length,
        0 <= length / workers,
{
    let q = length / workers;
    assert(0 <= q);
    assert(workers * q <= length) by (nonlinear_arith)
        requires
            q == length / workers,
            1 <= workers,
            0 <= length,
    ;
    assert(0 <= n * q <= (n + 1) * q <= workers * q) by (nonlinear_arith)
        requires
            0 <= n < workers,
            0 <= q,
    ;
}

proof fn lemma_chunk_next(start: int, length: int, workers: int, j: int)
    requires
        0 < j < workers,
    ensures
        chunk_hi(start, length, workers, j - 1) == chunk_lo(start, length, workers, j),
{
    assert(j - 1 != workers - 1);
    assert((j - 1 + 1) * (length / workers) == j * (length / workers));
}

proof fn lemma_chunk_order(start: int, length: int, workers: int, m: int, n: int)
    requires
        0 <= length,
        1 <= workers,
        0 <= m < n < workers,
    ensures
        chunk_hi(start, length, workers, m) <= chunk_lo(start, length, workers, n),
{
    let q = length / workers;
    assert((m + 1) * q <= n * q) by (nonlinear_arith)
        requires
            m + 1 <= n,
            0 <= q,
    ;
}

/// The chunks of a worker partition cover each integer of `[start, start + length)`
/// exactly once, whatever the number of workers; the last chunk takes the remainder.
pub proof fn lemma_partition_exact(start: int, length: int, workers: int, x: int)
    requires
        0 <= length,
        1 <= workers,
        start <= x < start + length,
    ensures
        exists|n: int|
            0 <= n < workers && #[trigger] chunk_lo(start, length, workers, n) <= x < chunk_hi(
                start,
                length,
                workers,
                n,
            ),
        forall|m: int, n: int|
            0 <= m < workers && 0 <= n < workers && #[trigger] chunk_lo(start, length, workers, m)
                <= x < chunk_hi(start, length, workers, m) && #[trigger] chunk_lo(
                start,
                length,
                workers,
                n,
            ) <= x < chunk_hi(start, length, workers, n) ==> m == n,
{
    let q = length / workers;
    let n = if q == 0 {
        workers - 1
    } else if (x - start) / q < workers - 1 {
        (x - start) / q
    } else {
        workers - 1
    };
    lemma_chunk_bounds(start, length, workers, workers - 1);
    if q != 0 {
        let t = (x - start) / q;
        assert(t * q <= x - start < (t + 1) * q) by (nonlinear_arith)
            requires
                t == (x - start) / q,
                q > 0,
                x - start >= 0,
        ;
        if t >= workers - 1 {
            assert((workers - 1) * q <= t * q) by (nonlinear_arith)
                requires
                    t >= workers - 1,
                    q > 0,
            ;
        }
    }
    assert(chunk_lo(start, length, workers, n) <= x < chunk_hi(start, length, workers, n));
    assert forall|a: int, b: int|
        0 <= a < workers && 0 <= b < workers && #[trigger] chunk_lo(start, length, workers, a) <= x
            < chunk_hi(start, length, workers, a) && #[trigger] chunk_lo(start, length, workers, b)
            <= x < chunk_hi(start, length, workers, b) implies a == b by {
        if a < b {
            lemma_chunk_order(start, length, workers, a, b);
        } else if b < a {
            lemma_chunk_order(start, length, workers, b, a);
        }
    }
}

/// Cuts `[start, start + length)` into `workers` contiguous chunks of equal size,
/// except that the last one also takes the remainder.
pub fn partition(start: i64, length: i64, workers: usize) -> (r: Vec<(i64, i64)>)
    requires
        0 <= length,
        start + length <= i64::MAX,
        1 <= workers,
    ensures
        r@.len() == workers,
        forall|n: int|
            0 <= n < workers ==> (#[trigger] r@[n]).0 == chunk_lo(
                start as int,
                length as int,
                workers as int,
                n,
            ) && r@[n].1 == chunk_hi(start as int, length as int, workers as int, n),
{
    let q: i128 = (length as i128) / (workers as i128);
    let mut out: Vec<(i64, i64)> = Vec::new();
    let mut n: usize = 0;
    while n < workers
        invariant
            n <= workers,
            1 <= workers,
            0 <= length,
            start + length <= i64::MAX,
            q == length as int / workers as int,
            out@.len() == n,
            forall|m: int|
                0 <= m < n ==> (#[trigger] out@[m]).0 == chunk_lo(
                    start as int,
                    length as int,
                    workers as int,
                    m,
                ) && out@[m].1 == chunk_hi(start as int, length as int, workers as int, m),
        decreases workers - n,
    {
        proof {
            lemma_chunk_bounds(start as int, length as int, workers as int, n as int);
            assert(0 <= (n as int) * q <= length) by (nonlinear_arith)
                requires
                    (n as int) < workers,
                    0 <= q,
                    workers * q <= length,
            ;
        }
        let lo: i128 = (start as i128) + (n as i128) * q;
        let hi: i128 = if n == workers - 1 {
            (start as i128) + (length as i128)
        } else {
            (start as i128) + ((n + 1) as i128) * q
        };
        out.push((lo as i64, hi as i64));
        n = n + 1;
    }
    out
}

/// A parsed almanac: the seeds and the ordered stages they pass through.
#[derive(Debug)]
pub struct Almanach {
    rules: Vec<Stage>,
    seeds: Vec<i64>,
}

impl Almanach {
    pub closed spec fn stages(&self) -> Seq<Stage> {
        self.rules@
    }

    pub closed spec fn seeds(&self) -> Seq<i64> {
        self.seeds@
    }

    pub open spec fn wf(&self) -> bool {
        stages_wf(self.stages())
    }

    pub fn new(rules: Vec<Stage>, seeds: Vec<i64>) -> (r: Almanach)
        ensures
            r.stages() == rules@,
            r.seeds() == seeds@,
    {
        Almanach { rules, seeds }
    }

    /// The location of `seed`: its value after every stage of `rules`, in order.
    pub fn location_from_seed(rules: &Vec<Stage>, seed: i64) -> (r: i64)
        requires
            stages_wf(rules@),
        ensures
            r == locate(rules@, seed as int),
    {
        let n = rules.len();
        let mut acc: i64 = seed;
        let mut i: usize = 0;
        assert(rules@.subrange(0, n as int) =~= rules@);
        while i < n
            invariant
                i <= n,
                n == rules@.len(),
                stages_wf(rules@),
                locate(rules@, seed as int) == locate(rules@.subrange(i as int, n as int), acc as int),
            decreases n - i,
        {
            proof {
                let rest = rules@.subrange(i as int, n as int);
                assert(rest.drop_first() =~= rules@.subrange(i + 1, n as int));
                assert(rest[0] == rules@[i as int]);
            }
            acc = rules[i].apply(acc);
            i = i + 1;
        }
        assert(rules@.subrange(n as int, n as int).len() == 0);
        acc
    }

    /// The least location of the seeds taken one by one.
    pub fn run_one(&self) -> (r: Result<i64, AlmanacError>)
        requires
            self.wf(),
        ensures
            self.seeds().len() == 0 <==> r == Err::<i64, AlmanacError>(AlmanacError::EmptyResult),
            r is Err ==> r == Err::<i64, AlmanacError>(AlmanacError::EmptyResult),
            r matches Ok(m) ==> least_seed_location(self.stages(), self.seeds(), m as int),
    {
        let mut best: Option<i64> = None;
        let mut i: usize = 0;
        while i < self.seeds.len()
            invariant
                i <= self.seeds@.len(),
                stages_wf(self.rules@),
                i == 0 <==> best is None,
                best matches Some(b) ==> least_seed_location(
                    self.rules@,
                    self.seeds@.subrange(0, i as int),
                    b as int,
                ),
            decreases self.seeds@.len() - i,
        {
            let loc = Self::location_from_seed(&self.rules, self.seeds[i]);
            let ghost prefix = self.seeds@.subrange(0, i + 1);
            proof {
                assert(prefix[i as int] == self.seeds@[i as int]);
                assert forall|k: int| 0 <= k < i implies prefix[k] == self.seeds@.subrange(
                    0,
                    i as int,
                )[k] by {}
            }
            best = match best {
                Some(b) => {
                    if loc < b {
                        Some(loc)
                    } else {
                        Some(b)
                    }
                },
                None => Some(loc),
            };
            i = i + 1;
        }
        assert(self.seeds@.subrange(0, i as int) =~= self.seeds@);
        match best {
            Some(b) => Ok(b),
            None => Err(AlmanacError::EmptyResult),
        }
    }
}


/// `m` is the least location over the integers of the first `count` seed ranges.
pub open spec fn least_over_pairs(stages: Seq<Stage>, pairs: Seq<(i64, i64)>, count: int, m: int) -> bool {
    &&& exists|k: int, x: int|
        0 <= k < count && #[trigger] in_pair(pairs[k], x) && locate(stages, x) == m
    &&& forall|k: int, x: int|
        0 <= k < count && #[trigger] in_pair(pairs[k], x) ==> locate(stages, x) >= m
}

/// The seeds pair up, every range fits in `i64`, and some range has a member: the
/// conditions under which a minimum over the seed ranges exists.
pub open spec fn seeds_ready(seeds: Seq<i64>) -> bool {
    let ps = seed_pairs(seeds);
    &&& seeds.len() % 2 == 0
    &&& forall|k: int| 0 <= k < ps.len() ==> pair_fits(#[trigger] ps[k])
    &&& exists|k: int| 0 <= k < ps.len() && (#[trigger] ps[k]).1 > 0
}

/// The least location over the seed ranges is unique, so it does not depend on how
/// the ranges were cut into chunks or on how many workers scanned them.
pub proof fn lemma_least_over_pairs_unique(
    stages: Seq<Stage>,
    pairs: Seq<(i64, i64)>,
    count: int,
    m1: int,
    m2: int,
)
    requires
        least_over_pairs(stages, pairs, count, m1),
        least_over_pairs(stages, pairs, count, m2),
    ensures
        m1 == m2,
{
    let (k1, x1) = choose|k: int, x: int|
        0 <= k < count && #[trigger] in_pair(pairs[k], x) && locate(stages, x) == m1;
    let (k2, x2) = choose|k: int, x: int|
        0 <= k < count && #[trigger] in_pair(pairs[k], x) && locate(stages, x) == m2;
    assert(locate(stages, x1) >= m2);
    assert(locate(stages, x2) >= m1);
}

/// Whether seed range `p` ends within `i64`.
pub fn seed_range_fits(p: (i64, i64)) -> (r: bool)
    ensures
        r == pair_fits(p),
{
    p.1 <= 0 || p.0 <= i64::MAX - p.1
}

/// The smaller of two partial minima, where `None` stands for an empty part.
pub fn merge_min(a: Option<i64>, b: Option<i64>) -> (r: Option<i64>)
    ensures
        r == match (a, b) {
            (Some(x), Some(y)) => Some(if x <= y { x } else { y }),
            (Some(x), None) => Some(x),
            (None, y) => y,
        },
{
    match (a, b) {
        (Some(x), Some(y)) => {
            if x <= y {
                Some(x)
            } else {
                Some(y)
            }
        },
        (Some(x), None) => Some(x),
        (None, y) => y,
    }
}

proof fn lemma_least_join(stages: Seq<Stage>, a: int, b: int, c: int, m1: int, m2: int)
    requires
        least_location(stages, a, b, m1),
        least_location(stages, b, c, m2),
    ensures
        least_location(stages, a, c, if m1 <= m2 { m1 } else { m2 }),
{
}

impl Almanach {
    /// The seeds read as `(start, length)` pairs.
    pub fn get_seed_ranges(&self) -> (r: Result<Vec<(i64, i64)>, AlmanacError>)
        ensures
            self.seeds().len() % 2 == 1 <==> r is Err,
            r is Err ==> r == Err::<Vec<(i64, i64)>, AlmanacError>(AlmanacError::UnpairedSeed),
            r matches Ok(v) ==> v@ == seed_pairs(self.seeds()),
    {
        if self.seeds.len() % 2 == 1 {
            return Err(AlmanacError::UnpairedSeed);
        }
        let mut seed_ranges: Vec<(i64, i64)> = Vec::new();
        let mut index: usize = 0;
        while index < self.seeds.len()
            invariant
                index % 2 == 0,
                self.seeds@.len() % 2 == 0,
                index <= self.seeds@.len(),
                seed_ranges@.len() == index / 2,
                forall|i: int|
                    0 <= i < index / 2 ==> #[trigger] seed_ranges@[i] == (
                    self.seeds@[2 * i],
                    self.seeds@[2 * i + 1],
                ),
            decreases self.seeds@.len() - index,
        {
            seed_ranges.push((self.seeds[index], self.seeds[index + 1]));
            index = index + 2;
        }
        assert(seed_ranges@ =~= seed_pairs(self.seeds@));
        Ok(seed_ranges)
    }

    /// The least location of the integers in `[lo, hi)`, scanned one by one; `None`
    /// when the range is empty.
    pub fn min_location_in_range(&self, lo: i64, hi: i64) -> (r: Option<i64>)
        requires
            self.wf(),
        ensures
            r is None <==> lo >= hi,
            r matches Some(m) ==> least_location(self.stages(), lo as int, hi as int, m as int),
    {
        let mut best: Option<i64> = None;
        let mut x: i64 = lo;
        while x < hi
            invariant
                lo <= x,
                x == lo || x <= hi,
                stages_wf(self.rules@),
                x == lo <==> best is None,
                best matches Some(b) ==> least_location(self.rules@, lo as int, x as int, b as int),
            decreases hi - x,
        {
            let loc = Self::location_from_seed(&self.rules, x);
            proof {
                assert(least_location(self.rules@, x as int, x + 1, loc as int));
                if let Some(b) = best {
                    lemma_least_join(self.rules@, lo as int, x as int, x + 1, b as int, loc as int);
                }
            }
            best = match best {
                Some(b) => {
                    if loc < b {
                        Some(loc)
                    } else {
                        Some(b)
                    }
                },
                None => Some(loc),
            };
            x = x + 1;
        }
        best
    }

    /// The least location of the integers in `[start, start + length)`, found chunk by
    /// chunk over the worker partition; `None` when the range is empty.
    #[verifier::spinoff_prover]
    pub fn min_location_over_range(&self, start: i64, length: i64, workers: usize) -> (r: Option<i64>)
        requires
            self.wf(),
            0 <= length,
            start + length <= i64::MAX,
            1 <= workers,
        ensures
            r is None <==> length == 0,
            r matches Some(m) ==> least_location(
                self.stages(),
                start as int,
                start + length,
                m as int,
            ),
    {
        let chunks = partition(start, length, workers);
        let mut best: Option<i64> = None;
        let mut j: usize = 0;
        let ghost upto: int = start as int;
        while j < workers
            invariant
                j <= workers,
                1 <= workers,
                0 <= length,
                stages_wf(self.rules@),
                chunks@.len() == workers,
                forall|n: int|
                    0 <= n < workers ==> (#[trigger] chunks@[n]).0 == chunk_lo(
                        start as int,
                        length as int,
                        workers as int,
                        n,
                    ) && chunks@[n].1 == chunk_hi(start as int, length as int, workers as int, n),
                j == 0 ==> upto == start,
                0 < j ==> upto == chunk_hi(start as int, length as int, workers as int, j - 1),
                start <= upto,
                best is None <==> upto == start,
                best matches Some(b) ==> least_location(self.rules@, start as int, upto, b as int),
            decreases workers - j,
        {
            let (lo, hi) = chunks[j];
            proof {
                lemma_chunk_bounds(start as int, length as int, workers as int, j as int);
                assert(chunks@[j as int].0 == chunk_lo(start as int, length as int, workers as int, j as int));
                assert(lo == chunk_lo(start as int, length as int, workers as int, j as int));
                if j > 0 {
                    lemma_chunk_next(start as int, length as int, workers as int, j as int);
                    assert(upto == chunk_hi(start as int, length as int, workers as int, j - 1));
                } else {
                    assert(chunk_lo(start as int, length as int, workers as int, 0) == start) by (nonlinear_arith);
                }
                assert(lo == upto);
            }
            let part = self.min_location_in_range(lo, hi);
            proof {
                if let Some(m2) = part {
                    if let Some(b) = best {
                        lemma_least_join(self.rules@, start as int, upto, hi as int, b as int, m2 as int);
                    }
                }
                upto = hi as int;
            }
            best = match (best, part) {
                (Some(b), Some(m)) => {
                    if m < b {
                        Some(m)
                    } else {
                        Some(b)
                    }
                },
                (None, p) => p,
                (b, None) => b,
            };
            j = j + 1;
        }
        proof {
            lemma_chunk_bounds(start as int, length as int, workers as int, workers - 1);
        }
        best
    }

    /// The least location over every integer of every seed range, each range scanned
    /// over a partition into `workers` chunks.
    pub fn run_two(&self, workers: usize) -> (r: Result<i64, AlmanacError>)
        requires
            self.wf(),
            1 <= workers,
        ensures
            self.seeds().len() % 2 == 1 ==> r == Err::<i64, AlmanacError>(
                AlmanacError::UnpairedSeed,
            ),
            self.seeds().len() % 2 == 0 && (exists|k: int|
                0 <= k < seed_pairs(self.seeds()).len() && !pair_fits(
                    #[trigger] seed_pairs(self.seeds())[k],
                )) ==> r == Err::<i64, AlmanacError>(AlmanacError::SeedRangeTooLarge),
            self.seeds().len() % 2 == 0 && (forall|k: int|
                0 <= k < seed_pairs(self.seeds()).len() ==> pair_fits(
                    #[trigger] seed_pairs(self.seeds())[k],
                )) && (forall|k: int|
                0 <= k < seed_pairs(self.seeds()).len() ==> (#[trigger] seed_pairs(
                    self.seeds(),
                )[k]).1 <= 0) ==> r == Err::<i64, AlmanacError>(AlmanacError::EmptyResult),
            seeds_ready(self.seeds()) ==> r is Ok,
            r is Ok ==> seeds_ready(self.seeds()),
            r matches Ok(m) ==> least_over_pairs(
                self.stages(),
                seed_pairs(self.seeds()),
                seed_pairs(self.seeds()).len() as int,
                m as int,
            ),
    {
        let pairs = match self.get_seed_ranges() {
            Ok(v) => v,
            Err(e) => {
                return Err(e);
            },
        };
        let ghost ps = seed_pairs(self.seeds@);
        let mut i: usize = 0;
        while i < pairs.len()
            invariant
                pairs@ == ps,
                ps == seed_pairs(self.seeds@),
                self.seeds@.len() % 2 == 0,
                i <= ps.len(),
                forall|k: int| 0 <= k < i ==> pair_fits(#[trigger] ps[k]),
            decreases ps.len() - i,
        {
            let (start, length) = pairs[i];
            if length > 0 && start > i64::MAX - length {
                assert(!pair_fits(ps[i as int]));
                return Err(AlmanacError::SeedRangeTooLarge);
            }
            i = i + 1;
        }
        let mut best: Option<i64> = None;
        let mut i: usize = 0;
        while i < pairs.len()
            invariant
                pairs@ == ps,
                i <= ps.len(),
                1 <= workers,
                stages_wf(self.rules@),
                forall|k: int| 0 <= k < ps.len() ==> pair_fits(#[trigger] ps[k]),
                best is None <==> forall|k: int| 0 <= k < i ==> (#[trigger] ps[k]).1 <= 0,
                best matches Some(b) ==> least_over_pairs(self.rules@, ps, i as int, b as int),
            decreases ps.len() - i,
        {
            let (start, length) = pairs[i];
            let part = if length > 0 {
                assert(pair_fits(ps[i as int]));
                self.min_location_over_range(start, length, workers)
            } else {
                None
            };
            proof {
                assert(ps[i as int] == (start, length));
                if let Some(m2) = part {
                    assert(least_location(self.rules@, start as int, start + length, m2 as int));
                    let m = match best {
                        Some(b) => if m2 < b { m2 } else { b },
                        None => m2,
                    };
                    assert forall|k: int, x: int|
                        0 <= k < i + 1 && #[trigger] in_pair(ps[k], x) implies locate(self.rules@, x) >= m by {
                        if k == i {
                            assert(start <= x < start + length);
                        } else if let Some(b) = best {
                        } else {
                            assert(ps[k].1 <= 0);
                        }
                    }
                    if m == m2 {
                        let x = choose|x: int| start <= x < start + length && #[trigger] locate(self.rules@, x) == m2;
                        assert(in_pair(ps[i as int], x));
                    } else {
                        let b = best->Some_0;
                        let (k, x) = choose|k: int, x: int| 0 <= k < i && #[trigger] in_pair(ps[k], x) && locate(self.rules@, x) == b;
                        assert(in_pair(ps[k], x));
                    }
                    assert(least_over_pairs(self.rules@, ps, i + 1, m as int));
                } else {
                    assert forall|k: int, x: int| 0 <= k < i + 1 && #[trigger] in_pair(ps[k], x) implies k < i by {
                        if k == i {
                            assert(length <= 0);
                        }
                    }
                }
            }
            best = match (best, part) {
                (Some(b), Some(m)) => {
                    if m < b {
                        Some(m)
                    } else {
                        Some(b)
                    }
                },
                (None, p) => p,
                (b, None) => b,
            };
            i = i + 1;
        }
        match best {
            Some(b) => Ok(b),
            None => Err(AlmanacError::EmptyResult),
        }
    }
}

/// The rule written on a line `destination source length`: its first three words are
/// `i64`s, and if it covers any point, both of its ranges fit in `i64`.
pub open spec fn rule_of_line(s: Seq<char>, lo: int, hi: int) -> Option<Rule> {
    let w = words_of(s, lo, hi);
    if w.len() < 3 {
        None
    } else {
        match (
            i64_of(s.subrange(w[0].0, w[0].1)),
            i64_of(s.subrange(w[1].0, w[1].1)),
            i64_of(s.subrange(w[2].0, w[2].1)),
        ) {
            (Some(d), Some(src), Some(l)) => {
                let r = Rule { source_start: src, length: l, destination_start: d };
                if r.fits() {
                    Some(r)
                } else {
                    None
                }
            },
            _ => None,
        }
    }
}

/// The lines of a stage block once the spaces around it are trimmed.
pub open spec fn block_lines(s: Seq<char>, lo: int, hi: int) -> Seq<(int, int)> {
    lines_of(s, trim_start(s, lo, hi), trim_end(s, trim_start(s, lo, hi), hi))
}

/// The rule of each line of a stage block after its label line.
pub open spec fn block_rules(s: Seq<char>, lo: int, hi: int) -> Seq<Option<Rule>> {
    let ls = block_lines(s, lo, hi);
    Seq::new((ls.len() - 1) as nat, |j: int| rule_of_line(s, ls[j + 1].0, ls[j + 1].1))
}

pub open spec fn disjoint(a: Rule, b: Rule) -> bool {
    a.before(b) || b.before(a)
}

/// Every rule line of the block reads as a rule.
pub open spec fn block_reads(s: Seq<char>, lo: int, hi: int) -> bool {
    let rs = block_rules(s, lo, hi);
    forall|j: int| 0 <= j < rs.len() ==> (#[trigger] rs[j]) is Some
}

/// Every rule line of the block reads as a rule, and no two rules that cover points
/// overlap.
pub open spec fn block_ok(s: Seq<char>, lo: int, hi: int) -> bool {
    let rs = block_rules(s, lo, hi);
    &&& block_reads(s, lo, hi)
    &&& forall|j1: int, j2: int|
        0 <= j1 < j2 < rs.len() ==> disjoint_unless_empty(#[trigger] rs[j1]->Some_0, #[trigger] rs[j2]->Some_0)
}

/// Two rules do not overlap, unless one of them covers no point.
pub open spec fn disjoint_unless_empty(a: Rule, b: Rule) -> bool {
    a.is_empty() || b.is_empty() || disjoint(a, b)
}

/// A stage holds exactly the rules that `rs` gives and that cover some point.
pub open spec fn holds_rules(st: Seq<Rule>, rs: Seq<Option<Rule>>) -> bool {
    forall|x: Rule|
        #[trigger] st.contains(x) <==> !x.is_empty() && exists|j: int| 0 <= j < rs.len() && rs[j] == Some(x)
}

/// The blocks of an almanac text, separated by blank lines.
pub open spec fn almanac_blocks(s: Seq<char>) -> Seq<(int, int)> {
    blocks_of(s, 0, s.len() as int)
}

/// The seeds: the numbers after the `:` of the first block.
pub open spec fn seeds_of(s: Seq<char>) -> Option<Seq<i64>> {
    numbers_after_colon(s, almanac_blocks(s)[0].0, almanac_blocks(s)[0].1)
}

/// The text is an almanac: its seeds read and every later block is a stage.
pub open spec fn almanac_ok(s: Seq<char>) -> bool {
    let bs = almanac_blocks(s);
    &&& seeds_of(s) is Some
    &&& forall|k: int| 1 <= k < bs.len() ==> block_ok(s, #[trigger] bs[k].0, bs[k].1)
}

/// Every field of the text reads: the seeds, and every rule line of every stage.
pub open spec fn almanac_reads(s: Seq<char>) -> bool {
    let bs = almanac_blocks(s);
    &&& seeds_of(s) is Some
    &&& forall|k: int| 1 <= k < bs.len() ==> block_reads(s, #[trigger] bs[k].0, bs[k].1)
}

/// `a` is the almanac that text `s` writes.
pub open spec fn parsed_from(a: Almanach, s: Seq<char>) -> bool {
    let bs = almanac_blocks(s);
    &&& a.wf()
    &&& seeds_of(s) == Some(a.seeds())
    &&& a.stages().len() + 1 == bs.len()
    &&& forall|k: int|
        0 <= k < a.stages().len() ==> holds_rules(
            (#[trigger] a.stages()[k])@,
            block_rules(s, bs[k + 1].0, bs[k + 1].1),
        )
}

proof fn lemma_insert_contains(old_rules: Seq<Rule>, new_rules: Seq<Rule>, k: int, rule: Rule, x: Rule)
    requires
        0 <= k <= old_rules.len(),
        new_rules == old_rules.insert(k, rule),
    ensures
        new_rules.contains(x) <==> old_rules.contains(x) || x == rule,
{
    if new_rules.contains(x) {
        let i = choose|i: int| 0 <= i < new_rules.len() && new_rules[i] == x;
        if i < k {
            assert(old_rules[i] == x);
        } else if i > k {
            assert(old_rules[i - 1] == x);
        }
    }
    if old_rules.contains(x) {
        let i = choose|i: int| 0 <= i < old_rules.len() && old_rules[i] == x;
        if i < k {
            assert(new_rules[i] == x);
        } else {
            assert(new_rules[i + 1] == x);
        }
    }
    if x == rule {
        assert(new_rules[k] == x);
    }
}

impl Almanach {
    /// Reads the rule of the line `cs[lo..hi]`.
    fn parse_rule(cs: &Vec<char>, lo: usize, hi: usize) -> (r: Option<Rule>)
        requires
            lo <= hi <= cs@.len(),
        ensures
            r == rule_of_line(cs@, lo as int, hi as int),
    {
        let words = word_spans(cs, lo, hi);
        let ghost w = words_of(cs@, lo as int, hi as int);
        if words.len() < 3 {
            return None;
        }
        assert(words@[0].0 == w[0].0 && words@[0].1 == w[0].1);
        assert(words@[1].0 == w[1].0 && words@[1].1 == w[1].1);
        assert(words@[2].0 == w[2].0 && words@[2].1 == w[2].1);
        let dest = parse_i64(cs, words[0].0, words[0].1);
        let src = parse_i64(cs, words[1].0, words[1].1);
        let len = parse_i64(cs, words[2].0, words[2].1);
        match (dest, src, len) {
            (Some(d), Some(s), Some(l)) => {
                if l > 0 && (s > i64::MAX - l || d > i64::MAX - l) {
                    None
                } else {
                    Some(Rule::new(s, l, d))
                }
            },
            _ => None,
        }
    }

    /// Reads the rule of each line of a block after its label line.
    fn read_block(cs: &Vec<char>, lo: usize, hi: usize) -> (r: Option<Vec<Rule>>)
        requires
            lo <= hi <= cs@.len(),
        ensures
            r is Some <==> block_reads(cs@, lo as int, hi as int),
            r matches Some(v) ==> v@.len() == block_rules(cs@, lo as int, hi as int).len() && forall|j: int|
                0 <= j < v@.len() ==> Some(#[trigger] v@[j]) == block_rules(cs@, lo as int, hi as int)[j],
    {
        let (tlo, thi) = trim_span(cs, lo, hi);
        let lines = split_lines(cs, tlo, thi);
        let ghost ls = block_lines(cs@, lo as int, hi as int);
        let ghost rs = block_rules(cs@, lo as int, hi as int);
        assert(rs.len() + 1 == lines@.len());
        let mut out: Vec<Rule> = Vec::new();
        let mut k: usize = 1;
        while k < lines.len()
            invariant
                1 <= k <= lines@.len(),
                lo <= tlo <= thi <= hi <= cs@.len(),
                ls == lines_of(cs@, tlo as int, thi as int),
                ls == block_lines(cs@, lo as int, hi as int),
                rs == block_rules(cs@, lo as int, hi as int),
                rs.len() + 1 == lines@.len(),
                spans_match(lines@, ls),
                forall|j: int| 0 <= j < lines@.len() ==> tlo <= (#[trigger] lines@[j]).0 <= lines@[j].1 <= thi,
                out@.len() == k - 1,
                forall|j: int| 0 <= j < k - 1 ==> Some(#[trigger] out@[j]) == rs[j],
            decreases lines@.len() - k,
        {
            let (llo, lhi) = lines[k];
            assert(tlo <= lines@[k as int].0 <= lines@[k as int].1 <= thi);
            assert(lines@[k as int].0 == ls[k as int].0 && lines@[k as int].1 == ls[k as int].1);
            assert(rs[k - 1] == rule_of_line(cs@, llo as int, lhi as int));
            match Self::parse_rule(cs, llo, lhi) {
                Some(r) => out.push(r),
                None => {
                    assert(rs[k - 1] is None);
                    return None;
                },
            }
            k = k + 1;
        }
        assert forall|j: int| 0 <= j < rs.len() implies (#[trigger] rs[j]) is Some by {
            assert(Some(out@[j]) == rs[j]);
        }
        Some(out)
    }

    /// Builds a stage from the rules that cover some point; fails when two of them
    /// overlap.
    fn build_stage(rules: &Vec<Rule>) -> (r: Result<Stage, AlmanacError>)
        requires
            forall|j: int| 0 <= j < rules@.len() ==> (#[trigger] rules@[j]).fits(),
        ensures
            r is Ok <==> forall|j1: int, j2: int|
                0 <= j1 < j2 < rules@.len() ==> disjoint_unless_empty(#[trigger] rules@[j1], #[trigger] rules@[j2]),
            r matches Ok(st) ==> st.wf() && forall|x: Rule|
                #[trigger] st@.contains(x) <==> rules@.contains(x) && !x.is_empty(),
            r is Err ==> r == Err::<Stage, AlmanacError>(AlmanacError::OverlappingRules),
    {
        let mut stage = Stage::new();
        let mut k: usize = 0;
        while k < rules.len()
            invariant
                k <= rules@.len(),
                forall|j: int| 0 <= j < rules@.len() ==> (#[trigger] rules@[j]).fits(),
                stage.wf(),
                forall|j1: int, j2: int|
                    0 <= j1 < j2 < k ==> disjoint_unless_empty(#[trigger] rules@[j1], #[trigger] rules@[j2]),
                forall|x: Rule|
                    #[trigger] stage@.contains(x) <==> rules@.subrange(0, k as int).contains(x) && !x.is_empty(),
            decreases rules@.len() - k,
        {
            let rule = rules[k];
            assert(rules@[k as int].fits());
            let ghost old_rules = stage@;
            let ghost pre = rules@.subrange(0, k as int);
            let ghost post = rules@.subrange(0, k + 1);
            proof {
                assert forall|x: Rule| post.contains(x) <==> pre.contains(x) || x == rule by {
                    if pre.contains(x) {
                        let j = choose|j: int| 0 <= j < pre.len() && #[trigger] pre[j] == x;
                        assert(post[j] == x);
                    }
                    if x == rule {
                        assert(post[k as int] == x);
                    }
                    if post.contains(x) {
                        let j = choose|j: int| 0 <= j < post.len() && #[trigger] post[j] == x;
                        if j < k {
                            assert(pre[j] == x);
                        }
                    }
                }
            }
            if rule.length > 0 {
                match stage.insert(rule) {
                    Ok(()) => {
                        proof {
                            let k0 = choose|k0: int| 0 <= k0 <= old_rules.len() && stage@ == #[trigger] old_rules.insert(k0, rule);
                            assert forall|x: Rule| #[trigger] stage@.contains(x) <==> post.contains(x) && !x.is_empty() by {
                                lemma_insert_contains(old_rules, stage@, k0, rule, x);
                            }
                            assert forall|j1: int, j2: int| 0 <= j1 < j2 < k + 1 implies disjoint_unless_empty(
                                #[trigger] rules@[j1],
                                #[trigger] rules@[j2],
                            ) by {
                                if j2 == k && !rules@[j1].is_empty() {
                                    let x = rules@[j1];
                                    assert(pre[j1] == x);
                                    assert(old_rules.contains(x));
                                    let i = choose|i: int| 0 <= i < old_rules.len() && #[trigger] old_rules[i] == x;
                                    assert(old_rules[i].before(rule) || rule.before(old_rules[i]));
                                }
                            }
                        }
                    },
                    Err(e) => {
                        proof {
                            let i = choose|i: int| 0 <= i < old_rules.len() && !(#[trigger] old_rules[i].before(rule) || rule.before(old_rules[i]));
                            assert(old_rules.contains(old_rules[i]));
                            let j = choose|j: int| 0 <= j < pre.len() && #[trigger] pre[j] == old_rules[i];
                            assert(rules@[j] == old_rules[i]);
                            assert(!disjoint_unless_empty(rules@[j], rules@[k as int]));
                        }
                        return Err(e);
                    },
                }
            }
            k = k + 1;
        }
        assert(rules@.subrange(0, k as int) =~= rules@);
        Ok(stage)
    }

    /// Parses an almanac: a `seeds:` line, then blocks separated by blank lines, each a
    /// label line followed by rule lines `destination source length`. A field that
    /// does not read is a `Parse` error; overlapping rules are refused only once every
    /// field has read.
    pub fn from_str(s: &str) -> (r: Result<Almanach, AlmanacError>)
        ensures
            r is Ok <==> almanac_ok(s@),
            r matches Ok(a) ==> parsed_from(a, s@),
            !almanac_reads(s@) ==> r == Err::<Almanach, AlmanacError>(AlmanacError::Parse),
            almanac_reads(s@) && !almanac_ok(s@) ==> r == Err::<Almanach, AlmanacError>(
                AlmanacError::OverlappingRules,
            ),
    {
        let cs = chars_of(s);
        let blocks = split_blocks(&cs, 0, cs.len());
        let ghost bs = almanac_blocks(cs@);
        assert(blocks@[0].0 == bs[0].0 && blocks@[0].1 == bs[0].1);
        let (b0lo, b0hi) = blocks[0];
        let seeds = match read_numbers_after_colon(&cs, b0lo, b0hi) {
            Some(v) => v,
            None => {
                return Err(AlmanacError::Parse);
            },
        };
        let mut read: Vec<Vec<Rule>> = Vec::new();
        let mut k: usize = 1;
        while k < blocks.len()
            invariant
                1 <= k <= blocks@.len(),
                cs@ == s@,
                bs == almanac_blocks(cs@),
                spans_match(blocks@, bs),
                forall|j: int| 0 <= j < blocks@.len() ==> 0 <= (#[trigger] blocks@[j]).0 <= blocks@[j].1 <= cs@.len(),
                read@.len() == k - 1,
                forall|j: int| 1 <= j < k ==> block_reads(cs@, #[trigger] bs[j].0, bs[j].1),
                forall|j: int|
                    0 <= j < read@.len() ==> (#[trigger] read@[j])@.len() == block_rules(cs@, bs[j + 1].0, bs[j + 1].1).len()
                        && forall|t: int|
                        0 <= t < read@[j]@.len() ==> Some(#[trigger] read@[j]@[t]) == block_rules(
                            cs@,
                            bs[j + 1].0,
                            bs[j + 1].1,
                        )[t],
            decreases blocks@.len() - k,
        {
            let (lo, hi) = blocks[k];
            assert(0 <= blocks@[k as int].0 <= blocks@[k as int].1 <= cs@.len());
            assert(lo == bs[k as int].0 && hi == bs[k as int].1);
            match Self::read_block(&cs, lo, hi) {
                Some(v) => {
                    read.push(v);
                },
                None => {
                    return Err(AlmanacError::Parse);
                },
            }
            k = k + 1;
        }
        assert(bs.len() == blocks@.len());
        let mut rules: Vec<Stage> = Vec::new();
        let mut k: usize = 0;
        while k < read.len()
            invariant
                k <= read@.len(),
                read@.len() + 1 == blocks@.len(),
                bs.len() == blocks@.len(),
                cs@ == s@,
                bs == almanac_blocks(cs@),
                seeds_of(cs@) == Some(seeds@),
                forall|j: int| 1 <= j < bs.len() ==> block_reads(cs@, #[trigger] bs[j].0, bs[j].1),
                forall|j: int|
                    0 <= j < read@.len() ==> (#[trigger] read@[j])@.len() == block_rules(cs@, bs[j + 1].0, bs[j + 1].1).len()
                        && forall|t: int|
                        0 <= t < read@[j]@.len() ==> Some(#[trigger] read@[j]@[t]) == block_rules(
                            cs@,
                            bs[j + 1].0,
                            bs[j + 1].1,
                        )[t],
                stages_wf(rules@),
                rules@.len() == k,
                forall|j: int| 1 <= j <= k ==> block_ok(cs@, #[trigger] bs[j].0, bs[j].1),
                forall|j: int|
                    0 <= j < rules@.len() ==> holds_rules(
                        (#[trigger] rules@[j])@,
                        block_rules(cs@, bs[j + 1].0, bs[j + 1].1),
                    ),
            decreases read@.len() - k,
        {
            let ghost rs = block_rules(cs@, bs[k + 1].0, bs[k + 1].1);
            let ghost v = read@[k as int]@;
            assert(v.len() == rs.len());
            assert(block_reads(cs@, bs[k + 1].0, bs[k + 1].1));
            assert forall|j: int| 0 <= j < v.len() implies (#[trigger] v[j]).fits() by {
                assert(Some(v[j]) == rs[j]);
                assert(rs[j] is Some);
            }
            assert forall|j1: int, j2: int| 0 <= j1 < j2 < v.len() implies (disjoint_unless_empty(#[trigger] v[j1], #[trigger] v[j2])
                <==> disjoint_unless_empty(rs[j1]->Some_0, rs[j2]->Some_0)) by {
                assert(Some(v[j1]) == rs[j1]);
                assert(Some(v[j2]) == rs[j2]);
            }
            match Self::build_stage(&read[k]) {
                Ok(st) => {
                    proof {
                        assert forall|x: Rule| #[trigger] st@.contains(x) <==> !x.is_empty() && exists|j: int|
                            0 <= j < rs.len() && rs[j] == Some(x) by {
                            if v.contains(x) {
                                let j = choose|j: int| 0 <= j < v.len() && #[trigger] v[j] == x;
                                assert(Some(v[j]) == rs[j]);
                            }
                            if exists|j: int| 0 <= j < rs.len() && rs[j] == Some(x) {
                                let j = choose|j: int| 0 <= j < rs.len() && rs[j] == Some(x);
                                assert(Some(v[j]) == rs[j]);
                                assert(v.contains(x));
                            }
                        }
                        assert forall|j1: int, j2: int| 0 <= j1 < j2 < rs.len() implies disjoint_unless_empty(
                            #[trigger] rs[j1]->Some_0,
                            #[trigger] rs[j2]->Some_0,
                        ) by {
                            assert(disjoint_unless_empty(v[j1], v[j2]));
                        }
                    }
                    rules.push(st);
                },
                Err(e) => {
                    proof {
                        let (j1, j2) = choose|j1: int, j2: int| 0 <= j1 < j2 < v.len() && !disjoint_unless_empty(#[trigger] v[j1], #[trigger] v[j2]);
                        assert(!disjoint_unless_empty(rs[j1]->Some_0, rs[j2]->Some_0));
                        assert(!block_ok(cs@, bs[k + 1].0, bs[k + 1].1));
                    }
                    return Err(e);
                },
            }
            k = k + 1;
        }
        let a = Almanach::new(rules, seeds);
        assert(parsed_from(a, s@));
        Ok(a)
    }
}

/// The least location over the single seeds of the almanac written in `input`.
pub fn part_one(input: &str) -> (r: Result<i64, AlmanacError>)
    ensures
        !almanac_reads(input@) ==> r == Err::<i64, AlmanacError>(AlmanacError::Parse),
        almanac_reads(input@) && !almanac_ok(input@) ==> r == Err::<i64, AlmanacError>(
            AlmanacError::OverlappingRules,
        ),
        almanac_ok(input@) && seeds_of(input@)->Some_0.len() == 0 ==> r == Err::<i64, AlmanacError>(
            AlmanacError::EmptyResult,
        ),
        r is Ok <==> almanac_ok(input@) && seeds_of(input@)->Some_0.len() > 0,
        r matches Ok(m) ==> exists|a: Almanach|
            parsed_from(a, input@) && #[trigger] least_seed_location(a.stages(), a.seeds(), m as int),
{
    let almanac = match Almanach::from_str(input) {
        Ok(a) => a,
        Err(e) => {
            return Err(e);
        },
    };
    let r = almanac.run_one();
    proof {
        if let Ok(m) = r {
            assert(least_seed_location(almanac.stages(), almanac.seeds(), m as int));
        }
    }
    r
}

/// The least location over every seed of the seed ranges of the almanac written in
/// `input`, each range scanned over `workers` chunks.
pub fn part_two(input: &str, workers: usize) -> (r: Result<i64, AlmanacError>)
    requires
        1 <= workers,
    ensures
        !almanac_reads(input@) ==> r == Err::<i64, AlmanacError>(AlmanacError::Parse),
        almanac_reads(input@) && !almanac_ok(input@) ==> r == Err::<i64, AlmanacError>(
            AlmanacError::OverlappingRules,
        ),
        almanac_ok(input@) && seeds_of(input@)->Some_0.len() % 2 == 1 ==> r == Err::<
            i64,
            AlmanacError,
        >(AlmanacError::UnpairedSeed),
        almanac_ok(input@) && seeds_of(input@)->Some_0.len() % 2 == 0 && (exists|k: int|
            0 <= k < seed_pairs(seeds_of(input@)->Some_0).len() && !pair_fits(
                #[trigger] seed_pairs(seeds_of(input@)->Some_0)[k],
            )) ==> r == Err::<i64, AlmanacError>(AlmanacError::SeedRangeTooLarge),
        almanac_ok(input@) && seeds_of(input@)->Some_0.len() % 2 == 0 && (forall|k: int|
            0 <= k < seed_pairs(seeds_of(input@)->Some_0).len() ==> pair_fits(
                #[trigger] seed_pairs(seeds_of(input@)->Some_0)[k],
            )) && (forall|k: int|
            0 <= k < seed_pairs(seeds_of(input@)->Some_0).len() ==> (#[trigger] seed_pairs(
                seeds_of(input@)->Some_0,
            )[k]).1 <= 0) ==> r == Err::<i64, AlmanacError>(AlmanacError::EmptyResult),
        r is Ok <==> almanac_ok(input@) && seeds_ready(seeds_of(input@)->Some_0),
        r matches Ok(m) ==> exists|a: Almanach|
            parsed_from(a, input@) && #[trigger] least_over_pairs(
                a.stages(),
                seed_pairs(a.seeds()),
                seed_pairs(a.seeds()).len() as int,
                m as int,
            ),
{
    let almanac = match Almanach::from_str(input) {
        Ok(a) => a,
        Err(e) => {
            return Err(e);
        },
    };
    let r = almanac.run_two(workers);
    proof {
        if let Ok(m) = r {
            assert(least_over_pairs(
                almanac.stages(),
                seed_pairs(almanac.seeds()),
                seed_pairs(almanac.seeds()).len() as int,
                m as int,
            ));
        }
    }
    r
}

} // verus!
