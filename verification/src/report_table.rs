//! Comparisons between the benchmarks of one group: their outcomes, the scores
//! that rank the benchmarks from fastest to slowest, and the table rows.
use vstd::prelude::*;
use itertools::Itertools;
use crate::color::{
    bold_text, faint_text, green_text, paint_bold, paint_faint, paint_green, paint_red, red_text,
};
use crate::report::ComparisonResult;
use crate::text::{chars_of, decimal, push_decimal};

verus! {

broadcast use vstd::seq_lib::group_to_multiset_ensures;

/// Outcome of comparing a newer benchmark with an older one in the same group.
#[derive(Debug, Clone, Copy, PartialEq, Eq, Structural)]
pub enum ComparisonReportResult {
    Improved,
    Regressed,
    NonSignificantImproved,
    NonSignificantRegressed,
    NoChange,
}

/// Score change of the newer benchmark for an outcome.
pub open spec fn new_delta(r: ComparisonReportResult) -> int {
    match r {
        ComparisonReportResult::Improved => 2,
        ComparisonReportResult::Regressed => -2,
        ComparisonReportResult::NonSignificantImproved => 1,
        ComparisonReportResult::NonSignificantRegressed => -1,
        ComparisonReportResult::NoChange => 0,
    }
}

/// Score change of the older benchmark for an outcome.
pub open spec fn old_delta(r: ComparisonReportResult) -> int {
    -new_delta(r)
}

/// The function ids of two compared benchmarks and the outcome of the
/// comparison.
pub struct ScoredComparison {
    pub function_id_new: String,
    pub function_id_old: String,
    pub comp_result: ComparisonReportResult,
}

/// A benchmark as the ranking sees it.
pub struct BenchmarkExtended {
    /// Position of the benchmark in its group.
    pub benchmark: usize,
    pub function_id: String,
    pub latency_mean_str: String,
    /// Orders the benchmarks by mean latency: lower is faster.
    pub latency_order: u64,
    /// Bounds and level of the confidence interval of the mean, as shown in the
    /// ranking table.
    pub latency_ci_lower_str: String,
    pub latency_ci_upper_str: String,
    pub latency_confidence_str: String,
    pub score: i32,
}

impl BenchmarkExtended {
    pub fn copy(&self) -> (r: BenchmarkExtended)
        ensures
            r == *self,
    {
        BenchmarkExtended {
            benchmark: self.benchmark,
            function_id: self.function_id.clone(),
            latency_mean_str: self.latency_mean_str.clone(),
            latency_order: self.latency_order,
            latency_ci_lower_str: self.latency_ci_lower_str.clone(),
            latency_ci_upper_str: self.latency_ci_upper_str.clone(),
            latency_confidence_str: self.latency_confidence_str.clone(),
            score: self.score,
        }
    }
}

/// Sum of the score changes that `comparisons` give the function `id`.
pub open spec fn score_delta(comparisons: Seq<ScoredComparison>, id: Seq<char>) -> int
    decreases comparisons.len(),
{
    if comparisons.len() == 0 {
        0
    } else {
        let c = comparisons.last();
        score_delta(comparisons.drop_last(), id) + (if c.function_id_new@ == id {
            new_delta(c.comp_result)
        } else {
            0
        }) + (if c.function_id_old@ == id {
            old_delta(c.comp_result)
        } else {
            0
        })
    }
}

pub proof fn lemma_score_delta_bound(comparisons: Seq<ScoredComparison>, id: Seq<char>)
    ensures
        -2 * comparisons.len() <= score_delta(comparisons, id) <= 2 * comparisons.len(),
    decreases comparisons.len(),
{
    if comparisons.len() > 0 {
        lemma_score_delta_bound(comparisons.drop_last(), id);
    }
}

/// The entry with its score raised by what the comparisons give it.
pub open spec fn scored(e: BenchmarkExtended, comparisons: Seq<ScoredComparison>) -> BenchmarkExtended {
    BenchmarkExtended { score: (e.score + score_delta(comparisons, e.function_id@)) as i32, ..e }
}

pub open spec fn scored_all(
    entries: Seq<BenchmarkExtended>,
    comparisons: Seq<ScoredComparison>,
) -> Seq<BenchmarkExtended> {
    entries.map_values(|e: BenchmarkExtended| scored(e, comparisons))
}

/// Lexicographic order of character sequences by code point, which is the
/// order of `String`s.
pub open spec fn text_less(a: Seq<char>, b: Seq<char>) -> bool
    decreases a.len(),
{
    if a.len() == 0 {
        b.len() > 0
    } else if b.len() == 0 {
        false
    } else if a[0] != b[0] {
        a[0] < b[0]
    } else {
        text_less(a.drop_first(), b.drop_first())
    }
}

pub proof fn lemma_text_less_irreflexive(a: Seq<char>)
    ensures
        !text_less(a, a),
    decreases a.len(),
{
    if a.len() > 0 {
        lemma_text_less_irreflexive(a.drop_first());
    }
}

pub proof fn lemma_text_less_total(a: Seq<char>, b: Seq<char>)
    requires
        a != b,
    ensures
        text_less(a, b) || text_less(b, a),
        !(text_less(a, b) && text_less(b, a)),
    decreases a.len(),
{
    if a.len() > 0 && b.len() > 0 && a[0] == b[0] {
        if a.drop_first() == b.drop_first() {
            assert(a =~= seq![a[0]] + a.drop_first());
            assert(b =~= seq![b[0]] + b.drop_first());
        }
        lemma_text_less_total(a.drop_first(), b.drop_first());
    } else if a.len() == 0 && b.len() == 0 {
        assert(a =~= b);
    }
}

pub proof fn lemma_text_less_transitive(a: Seq<char>, b: Seq<char>, c: Seq<char>)
    requires
        text_less(a, b),
        text_less(b, c),
    ensures
        text_less(a, c),
    decreases a.len(),
{
    if a.len() > 0 && b.len() > 0 && c.len() > 0 && a[0] == b[0] && b[0] == c[0] {
        lemma_text_less_transitive(a.drop_first(), b.drop_first(), c.drop_first());
    }
}

/// `a` ranks before `b`: higher score, then lower latency, then smaller
/// function id.
pub open spec fn ranks_before(a: BenchmarkExtended, b: BenchmarkExtended) -> bool {
    ||| a.score > b.score
    ||| a.score == b.score && a.latency_order < b.latency_order
    ||| a.score == b.score && a.latency_order == b.latency_order && text_less(
        a.function_id@,
        b.function_id@,
    )
}

pub open spec fn sorted_by_rank(s: Seq<BenchmarkExtended>) -> bool {
    forall|i: int, j: int| 0 <= i < j < s.len() ==> ranks_before(#[trigger] s[i], #[trigger] s[j])
}

pub open spec fn distinct_ids(s: Seq<BenchmarkExtended>) -> bool {
    forall|i: int, j: int|
        0 <= i < j < s.len() ==> (#[trigger] s[i]).function_id@ != (#[trigger] s[j]).function_id@
}

pub proof fn lemma_ranks_before_transitive(a: BenchmarkExtended, b: BenchmarkExtended, c: BenchmarkExtended)
    requires
        ranks_before(a, b),
        ranks_before(b, c),
    ensures
        ranks_before(a, c),
{
    if a.score == b.score && b.score == c.score && a.latency_order == b.latency_order
        && b.latency_order == c.latency_order {
        lemma_text_less_transitive(a.function_id@, b.function_id@, c.function_id@);
    }
}

pub proof fn lemma_ranks_before_total(a: BenchmarkExtended, b: BenchmarkExtended)
    requires
        a.function_id@ != b.function_id@,
    ensures
        ranks_before(a, b) != ranks_before(b, a),
{
    lemma_text_less_total(a.function_id@, b.function_id@);
}

/// The sum of the scores.
pub open spec fn total_score(entries: Seq<BenchmarkExtended>) -> int
    decreases entries.len(),
{
    if entries.len() == 0 {
        0
    } else {
        total_score(entries.drop_last()) + entries.last().score
    }
}

/// The sum of the score changes that the comparisons give the entries.
pub open spec fn delta_total(entries: Seq<BenchmarkExtended>, comparisons: Seq<ScoredComparison>) -> int
    decreases entries.len(),
{
    if entries.len() == 0 {
        0
    } else {
        delta_total(entries.drop_last(), comparisons) + score_delta(
            comparisons,
            entries.last().function_id@,
        )
    }
}

/// How many entries have the function id `id`.
pub open spec fn id_count(entries: Seq<BenchmarkExtended>, id: Seq<char>) -> int
    decreases entries.len(),
{
    if entries.len() == 0 {
        0
    } else {
        id_count(entries.drop_last(), id) + if entries.last().function_id@ == id {
            1int
        } else {
            0
        }
    }
}

/// Some entry has the function id `id`.
pub open spec fn has_id(entries: Seq<BenchmarkExtended>, id: Seq<char>) -> bool {
    exists|i: int| 0 <= i < entries.len() && (#[trigger] entries[i]).function_id@ == id
}

proof fn lemma_id_count(entries: Seq<BenchmarkExtended>, id: Seq<char>)
    requires
        distinct_ids(entries),
    ensures
        id_count(entries, id) == if has_id(entries, id) {
            1int
        } else {
            0
        },
    decreases entries.len(),
{
    if entries.len() > 0 {
        let init = entries.drop_last();
        lemma_id_count(init, id);
        if has_id(entries, id) {
            let i = choose|i: int| 0 <= i < entries.len() && (#[trigger] entries[i]).function_id@ == id;
            if entries.last().function_id@ == id {
                if has_id(init, id) {
                    let j = choose|j: int| 0 <= j < init.len() && (#[trigger] init[j]).function_id@ == id;
                    assert(entries[j] == init[j]);
                    assert(entries[entries.len() - 1] == entries.last());
                }
            } else {
                assert(init[i] == entries[i]);
            }
        } else {
            assert forall|j: int| 0 <= j < init.len() implies (#[trigger] init[j]).function_id@ != id by {
                assert(init[j] == entries[j]);
            }
        }
    }
}

proof fn lemma_delta_total_push(
    entries: Seq<BenchmarkExtended>,
    comparisons: Seq<ScoredComparison>,
    c: ScoredComparison,
)
    ensures
        delta_total(entries, comparisons.push(c)) == delta_total(entries, comparisons) + id_count(
            entries,
            c.function_id_new@,
        ) * new_delta(c.comp_result) + id_count(entries, c.function_id_old@) * old_delta(
            c.comp_result,
        ),
    decreases entries.len(),
{
    if entries.len() > 0 {
        lemma_delta_total_push(entries.drop_last(), comparisons, c);
        assert(comparisons.push(c).drop_last() =~= comparisons);
        let a = id_count(entries.drop_last(), c.function_id_new@);
        let b = id_count(entries.drop_last(), c.function_id_old@);
        let d = new_delta(c.comp_result);
        assert((a + 1) * d == a * d + d) by (nonlinear_arith);
        assert((b + 1) * -d == b * -d - d) by (nonlinear_arith);
    }
}

proof fn lemma_delta_total_zero(entries: Seq<BenchmarkExtended>, comparisons: Seq<ScoredComparison>)
    requires
        distinct_ids(entries),
        forall|k: int|
            0 <= k < comparisons.len() ==> has_id(entries, (#[trigger] comparisons[k]).function_id_new@)
                && has_id(entries, comparisons[k].function_id_old@),
    ensures
        delta_total(entries, comparisons) == 0,
    decreases comparisons.len(),
{
    if comparisons.len() == 0 {
        lemma_delta_total_empty(entries, comparisons);
    } else {
        let init = comparisons.drop_last();
        let c = comparisons.last();
        assert forall|k: int| 0 <= k < init.len() implies has_id(entries, (#[trigger] init[k]).function_id_new@)
            && has_id(entries, init[k].function_id_old@) by {
            assert(init[k] == comparisons[k]);
        }
        lemma_delta_total_zero(entries, init);
        assert(init.push(c) =~= comparisons);
        lemma_delta_total_push(entries, init, c);
        assert(c == comparisons[comparisons.len() - 1]);
        lemma_id_count(entries, c.function_id_new@);
        lemma_id_count(entries, c.function_id_old@);
    }
}

proof fn lemma_delta_total_empty(entries: Seq<BenchmarkExtended>, comparisons: Seq<ScoredComparison>)
    requires
        comparisons.len() == 0,
    ensures
        delta_total(entries, comparisons) == 0,
    decreases entries.len(),
{
    if entries.len() > 0 {
        lemma_delta_total_empty(entries.drop_last(), comparisons);
    }
}

proof fn lemma_total_scored(entries: Seq<BenchmarkExtended>, comparisons: Seq<ScoredComparison>)
    requires
        forall|i: int|
            0 <= i < entries.len() ==> -0x7fff_ffff + 2 * comparisons.len() <= (
            #[trigger] entries[i]).score <= 0x7fff_ffff - 2 * comparisons.len(),
    ensures
        total_score(scored_all(entries, comparisons)) == total_score(entries) + delta_total(
            entries,
            comparisons,
        ),
    decreases entries.len(),
{
    if entries.len() > 0 {
        let init = entries.drop_last();
        assert forall|i: int| 0 <= i < init.len() implies -0x7fff_ffff + 2 * comparisons.len() <= (
            #[trigger] init[i]).score <= 0x7fff_ffff - 2 * comparisons.len() by {
            assert(init[i] == entries[i]);
        }
        lemma_total_scored(init, comparisons);
        assert(scored_all(entries, comparisons).drop_last() =~= scored_all(init, comparisons));
        let e = entries.last();
        assert(e == entries[entries.len() - 1]);
        lemma_score_delta_bound(comparisons, e.function_id@);
    }
}

/// Scoring moves points between the two benchmarks of each comparison and
/// makes none: when every function id that a comparison names belongs to one
/// of the benchmarks, their scores add up to what they added up to before.
pub proof fn lemma_scoring_keeps_total(
    entries: Seq<BenchmarkExtended>,
    comparisons: Seq<ScoredComparison>,
)
    requires
        distinct_ids(entries),
        forall|k: int|
            0 <= k < comparisons.len() ==> has_id(entries, (#[trigger] comparisons[k]).function_id_new@)
                && has_id(entries, comparisons[k].function_id_old@),
        forall|i: int|
            0 <= i < entries.len() ==> -0x7fff_ffff + 2 * comparisons.len() <= (
            #[trigger] entries[i]).score <= 0x7fff_ffff - 2 * comparisons.len(),
    ensures
        total_score(scored_all(entries, comparisons)) == total_score(entries),
{
    lemma_total_scored(entries, comparisons);
    lemma_delta_total_zero(entries, comparisons);
}

/// `text_less` on strings, computed.
pub fn string_less(a: &String, b: &String) -> (r: bool)
    ensures
        r == text_less(a@, b@),
{
    let ac = chars_of(a.as_str());
    let bc = chars_of(b.as_str());
    let mut i: usize = 0;
    assert(a@.skip(0) =~= a@);
    assert(b@.skip(0) =~= b@);
    while i < ac.len() && i < bc.len() && ac[i] == bc[i]
        invariant
            i <= ac.len(),
            i <= bc.len(),
            ac@ == a@,
            bc@ == b@,
            text_less(a@, b@) == text_less(a@.skip(i as int), b@.skip(i as int)),
        decreases ac.len() - i,
    {
        assert(a@.skip(i as int).drop_first() =~= a@.skip(i as int + 1));
        assert(b@.skip(i as int).drop_first() =~= b@.skip(i as int + 1));
        i = i + 1;
    }
    if i == ac.len() {
        i < bc.len()
    } else if i == bc.len() {
        false
    } else {
        assert(a@.skip(i as int)[0] == ac@[i as int]);
        assert(b@.skip(i as int)[0] == bc@[i as int]);
        ac[i] < bc[i]
    }
}

/// `ranks_before`, computed.
pub fn rank_before(a: &BenchmarkExtended, b: &BenchmarkExtended) -> (r: bool)
    ensures
        r == ranks_before(*a, *b),
{
    if a.score != b.score {
        a.score > b.score
    } else if a.latency_order != b.latency_order {
        a.latency_order < b.latency_order
    } else {
        string_less(&a.function_id, &b.function_id)
    }
}

/// The groups one after another.
pub open spec fn concat_groups<T>(groups: Seq<Seq<T>>) -> Seq<T>
    decreases groups.len(),
{
    if groups.len() == 0 {
        Seq::empty()
    } else {
        concat_groups(groups.drop_last()) + groups.last()
    }
}

/// Every group is non-empty, its members share a score, and the scores of the
/// groups strictly decrease.
pub open spec fn grouped_by_score(groups: Seq<Seq<BenchmarkExtended>>) -> bool {
    &&& forall|g: int| 0 <= g < groups.len() ==> #[trigger] groups[g].len() > 0
    &&& forall|g: int, k: int|
        0 <= g < groups.len() && 0 <= k < groups[g].len() ==> (#[trigger] groups[g][k]).score
            == groups[g][0].score
    &&& forall|g: int, h: int|
        0 <= g < h < groups.len() ==> (#[trigger] groups[g])[0].score > (#[trigger] groups[h])[0].score
}

/// Benchmarks ranked from fastest to slowest, in groups of equal score.
pub struct RankingResultExtended {
    ranks: Vec<Vec<BenchmarkExtended>>,
}

impl View for RankingResultExtended {
    type V = Seq<Seq<BenchmarkExtended>>;

    closed spec fn view(&self) -> Seq<Seq<BenchmarkExtended>> {
        self.ranks@.map_values(|g: Vec<BenchmarkExtended>| g@)
    }
}

impl RankingResultExtended {
    pub fn ranks(&self) -> (r: &Vec<Vec<BenchmarkExtended>>)
        ensures
            r@.map_values(|g: Vec<BenchmarkExtended>| g@) == self@,
    {
        &self.ranks
    }
}

/// Each entry with the score changes of the comparisons added.
fn apply_scores(
    comparisons: &[ScoredComparison],
    entries: Vec<BenchmarkExtended>,
) -> (r: Vec<BenchmarkExtended>)
    requires
        forall|i: int|
            0 <= i < entries@.len() ==> -0x7fff_ffff + 2 * comparisons@.len() <= (
            #[trigger] entries@[i]).score <= 0x7fff_ffff - 2 * comparisons@.len(),
    ensures
        r@ == scored_all(entries@, comparisons@),
{
    let mut r: Vec<BenchmarkExtended> = Vec::new();
    let mut i: usize = 0;
    while i < entries.len()
        invariant
            i <= entries.len(),
            forall|i: int|
                0 <= i < entries@.len() ==> -0x7fff_ffff + 2 * comparisons@.len() <= (
                #[trigger] entries@[i]).score <= 0x7fff_ffff - 2 * comparisons@.len(),
            r@ == scored_all(entries@.take(i as int), comparisons@),
        decreases entries.len() - i,
    {
        let e = &entries[i];
        assert(comparisons@.len() <= 0x7fff_ffff) by {
            assert(-0x7fff_ffff + 2 * comparisons@.len() <= entries@[i as int].score);
        }
        let mut delta: i64 = 0;
        let mut k: usize = 0;
        while k < comparisons.len()
            invariant
                k <= comparisons.len(),
                comparisons@.len() <= 0x7fff_ffff,
                delta == score_delta(comparisons@.take(k as int), e.function_id@),
                -2 * k <= delta <= 2 * k,
            decreases comparisons.len() - k,
        {
            let c = &comparisons[k];
            let (dn, dold): (i64, i64) = match c.comp_result {
                ComparisonReportResult::Improved => (2, -2),
                ComparisonReportResult::Regressed => (-2, 2),
                ComparisonReportResult::NonSignificantImproved => (1, -1),
                ComparisonReportResult::NonSignificantRegressed => (-1, 1),
                ComparisonReportResult::NoChange => (0, 0),
            };
            if c.function_id_new == e.function_id {
                delta = delta + dn;
            }
            if c.function_id_old == e.function_id {
                delta = delta + dold;
            }
            assert(comparisons@.take(k as int + 1).drop_last() =~= comparisons@.take(k as int));
            k = k + 1;
        }
        assert(comparisons@.take(comparisons.len() as int) =~= comparisons@);
        let mut scored_entry = e.copy();
        scored_entry.score = (e.score as i64 + delta) as i32;
        let ghost before = r@;
        r.push(scored_entry);
        assert(r@ =~= scored_all(entries@.take(i as int + 1), comparisons@));
        i = i + 1;
    }
    assert(entries@.take(entries.len() as int) =~= entries@);
    r
}

/// The entries in ranking order.
fn sort_by_rank(entries: Vec<BenchmarkExtended>) -> (r: Vec<BenchmarkExtended>)
    requires
        distinct_ids(entries@),
    ensures
        sorted_by_rank(r@),
        r@.to_multiset() == entries@.to_multiset(),
        r@.len() == entries@.len(),
{
    let mut out: Vec<BenchmarkExtended> = Vec::new();
    let mut i: usize = 0;
    while i < entries.len()
        invariant
            i <= entries.len(),
            distinct_ids(entries@),
            sorted_by_rank(out@),
            out@.to_multiset() == entries@.take(i as int).to_multiset(),
        decreases entries.len() - i,
    {
        let x = entries[i].copy();
        // Every entry placed so far has another function id than `x`.
        assert forall|k: int| 0 <= k < out@.len() implies (#[trigger] out@[k]).function_id@
            != x.function_id@ by {
            assert(out@.to_multiset().contains(out@[k]));
            assert(entries@.take(i as int).contains(out@[k]));
            let j = choose|j: int| 0 <= j < i && entries@.take(i as int)[j] == out@[k];
            assert(entries@[j] == out@[k]);
        }
        let mut p: usize = 0;
        while p < out.len() && !rank_before(&x, &out[p])
            invariant
                p <= out.len(),
                forall|k: int| 0 <= k < p ==> !ranks_before(x, #[trigger] out@[k]),
            decreases out.len() - p,
        {
            p = p + 1;
        }
        let ghost old_out = out@;
        out.insert(p, x);
        proof {
            assert forall|a: int, b: int| 0 <= a < b < out@.len() implies ranks_before(
                #[trigger] out@[a],
                #[trigger] out@[b],
            ) by {
                if b == p as int {
                    lemma_ranks_before_total(old_out[a], x);
                } else if a == p as int {
                    if b > p + 1 {
                        lemma_ranks_before_transitive(x, old_out[p as int], old_out[b - 1]);
                    }
                } else {
                    let oa = if a < p { a } else { a - 1 };
                    let ob = if b < p { b } else { b - 1 };
                    assert(out@[a] == old_out[oa]);
                    assert(out@[b] == old_out[ob]);
                }
            }
            assert(entries@.take(i as int + 1) =~= entries@.take(i as int).push(entries@[i as int]));
            vstd::seq_lib::to_multiset_insert(old_out, p as int, x);
        }
        i = i + 1;
    }
    assert(entries@.take(entries.len() as int) =~= entries@);
    proof {
        vstd::seq_lib::to_multiset_len(out@);
        vstd::seq_lib::to_multiset_len(entries@);
    }
    out
}

proof fn lemma_concat_push<T>(groups: Seq<Seq<T>>, g: Seq<T>)
    ensures
        concat_groups(groups.push(g)) == concat_groups(groups) + g,
{
    assert(groups.push(g).drop_last() =~= groups);
}

/// Splits sorted entries into runs of equal score.
fn group_by_score(sorted: Vec<BenchmarkExtended>) -> (r: Vec<Vec<BenchmarkExtended>>)
    requires
        sorted@.len() > 0,
        sorted_by_rank(sorted@),
    ensures
        concat_groups(r@.map_values(|g: Vec<BenchmarkExtended>| g@)) == sorted@,
        grouped_by_score(r@.map_values(|g: Vec<BenchmarkExtended>| g@)),
{
    let mut ranks: Vec<Vec<BenchmarkExtended>> = Vec::new();
    let mut current: Vec<BenchmarkExtended> = Vec::new();
    let first = sorted[0].copy();
    let mut current_score = first.score;
    current.push(first);
    let mut i: usize = 1;
    while i < sorted.len()
        invariant
            1 <= i <= sorted.len(),
            sorted_by_rank(sorted@),
            current@.len() > 0,
            concat_groups(ranks@.map_values(|g: Vec<BenchmarkExtended>| g@)) + current@ == sorted@.take(
                i as int,
            ),
            forall|k: int| 0 <= k < current@.len() ==> (#[trigger] current@[k]).score == current_score,
            grouped_by_score(ranks@.map_values(|g: Vec<BenchmarkExtended>| g@)),
            forall|g: int|
                0 <= g < ranks@.len() ==> (#[trigger] ranks@[g])@[0].score > current_score,
            current_score == sorted@[i - 1].score,
        decreases sorted.len() - i,
    {
        let be = sorted[i].copy();
        let ghost groups = ranks@.map_values(|g: Vec<BenchmarkExtended>| g@);
        assert(sorted@.take(i as int + 1) =~= sorted@.take(i as int).push(sorted@[i as int]));
        if be.score == current_score {
            let ghost before = current@;
            current.push(be);
            assert(groups + seq![] =~= groups);
            assert(concat_groups(groups) + current@ =~= (concat_groups(groups) + before).push(be));
        } else {
            assert(ranks_before(sorted@[i - 1], sorted@[i as int]));
            let ghost cur = current@;
            ranks.push(current);
            let ghost new_groups = ranks@.map_values(|g: Vec<BenchmarkExtended>| g@);
            assert(new_groups =~= groups.push(cur));
            proof {
                lemma_concat_push(groups, cur);
            }
            current_score = be.score;
            current = Vec::new();
            current.push(be);
            assert(concat_groups(new_groups) + current@ =~= (concat_groups(groups) + cur).push(be));
            assert forall|g: int| 0 <= g < ranks@.len() implies (#[trigger] ranks@[g])@[0].score
                > current_score by {
                assert(new_groups[g] == ranks@[g]@);
            }
        }
        i = i + 1;
    }
    let ghost groups = ranks@.map_values(|g: Vec<BenchmarkExtended>| g@);
    let ghost cur = current@;
    ranks.push(current);
    proof {
        let new_groups = ranks@.map_values(|g: Vec<BenchmarkExtended>| g@);
        assert(new_groups =~= groups.push(cur));
        lemma_concat_push(groups, cur);
        assert(sorted@.take(sorted.len() as int) =~= sorted@);
    }
    ranks
}

/// Ranks the benchmarks from fastest to slowest. Each comparison moves the
/// scores of its two benchmarks (2 for a significant change, 1 for one within
/// the noise); the benchmarks are then ordered by score, mean latency and
/// function id, and grouped by score.
pub fn rank_fastest_with_scores(
    comparisons_report: &[ScoredComparison],
    benchmark_extended_data: Vec<BenchmarkExtended>,
) -> (r: RankingResultExtended)
    requires
        benchmark_extended_data@.len() > 0,
        distinct_ids(benchmark_extended_data@),
        forall|i: int|
            0 <= i < benchmark_extended_data@.len() ==> -0x7fff_ffff + 2
                * comparisons_report@.len() <= (#[trigger] benchmark_extended_data@[i]).score
                <= 0x7fff_ffff - 2 * comparisons_report@.len(),
    ensures
        concat_groups(r@).to_multiset() == scored_all(
            benchmark_extended_data@,
            comparisons_report@,
        ).to_multiset(),
        sorted_by_rank(concat_groups(r@)),
        grouped_by_score(r@),
{
    let scored_entries = apply_scores(comparisons_report, benchmark_extended_data);
    assert(distinct_ids(scored_entries@));
    let sorted = sort_by_rank(scored_entries);
    let ranks = group_by_score(sorted);
    RankingResultExtended { ranks }
}

// ---------------------------------------------------------------------
// Pairs of benchmarks and joined lists (itertools).
// ---------------------------------------------------------------------

/// The pairs `(i, j)` with `i < j < n` whose first index is `i`, by `j`.
pub open spec fn pairs_with_first(i: int, n: int) -> Seq<(usize, usize)> {
    Seq::new((n - i - 1) as nat, |k: int| (i as usize, (i + 1 + k) as usize))
}

pub open spec fn pairs_below(m: int, n: int) -> Seq<(usize, usize)>
    decreases m,
{
    if m <= 0 {
        Seq::empty()
    } else {
        pairs_below(m - 1, n) + pairs_with_first(m - 1, n)
    }
}

/// Every pair `(i, j)` with `i < j < n`, ordered by `i`, then by `j`.
pub open spec fn all_pairs(n: int) -> Seq<(usize, usize)> {
    pairs_below(n, n)
}

pub proof fn lemma_pairs_in_range(m: int, n: int)
    requires
        0 <= m <= n,
        n <= usize::MAX,
    ensures
        forall|k: int|
            0 <= k < pairs_below(m, n).len() ==> (#[trigger] pairs_below(m, n)[k]).0 < pairs_below(
                m,
                n,
            )[k].1 < n,
    decreases m,
{
    if m > 0 {
        lemma_pairs_in_range(m - 1, n);
        let a = pairs_below(m - 1, n);
        let b = pairs_with_first(m - 1, n);
        assert forall|k: int| 0 <= k < pairs_below(m, n).len() implies (#[trigger] pairs_below(
            m,
            n,
        )[k]).0 < pairs_below(m, n)[k].1 < n by {
            if k >= a.len() {
                assert(pairs_below(m, n)[k] == b[k - a.len()]);
            } else {
                assert(pairs_below(m, n)[k] == a[k]);
            }
        }
    }
}

/// The pair of indices `i` and `j`.
pub open spec fn index_pair(i: int, j: int) -> (usize, usize) {
    (i as usize, j as usize)
}

proof fn lemma_pairs_below(m: int, n: int)
    requires
        0 <= m <= n,
        n <= usize::MAX,
    ensures
        2 * pairs_below(m, n).len() == m * (2 * n - m - 1),
        forall|k: int| 0 <= k < pairs_below(m, n).len() ==> (#[trigger] pairs_below(m, n)[k]).0 < m,
        forall|i: int, j: int|
            0 <= i < m && i < j < n ==> #[trigger] pairs_below(m, n).contains(index_pair(i, j)),
        pairs_below(m, n).no_duplicates(),
    decreases m,
{
    if m > 0 {
        lemma_pairs_below(m - 1, n);
        let a = pairs_below(m - 1, n);
        let b = pairs_with_first(m - 1, n);
        let s = pairs_below(m, n);
        assert(s == a + b);
        assert(2 * s.len() == m * (2 * n - m - 1)) by (nonlinear_arith)
            requires
                2 * a.len() == (m - 1) * (2 * n - (m - 1) - 1),
                s.len() == a.len() + (n - m),
        ;
        assert forall|k: int| 0 <= k < s.len() implies (#[trigger] s[k]).0 < m by {
            if k >= a.len() {
                assert(s[k] == b[k - a.len()]);
            } else {
                assert(s[k] == a[k]);
            }
        }
        assert forall|i: int, j: int| 0 <= i < m && i < j < n implies #[trigger] s.contains(
            index_pair(i, j),
        ) by {
            if i < m - 1 {
                assert(a.contains(index_pair(i, j)));
                let k = choose|k: int| 0 <= k < a.len() && a[k] == index_pair(i, j);
                assert(s[k] == a[k]);
            } else {
                assert(s[a.len() + j - i - 1] == b[j - i - 1]);
            }
        }
        assert forall|x: int, y: int| 0 <= x < y < s.len() implies s[x] != s[y] by {
            if y < a.len() {
                assert(s[x] == a[x] && s[y] == a[y]);
            } else if x >= a.len() {
                assert(s[x] == b[x - a.len()] && s[y] == b[y - a.len()]);
            } else {
                assert(s[x] == a[x] && s[y] == b[y - a.len()]);
            }
        }
    }
}

/// The pairs of `n` items number n(n-1)/2: each pair `(i, j)` with `i < j < n`
/// occurs among them, once.
pub proof fn lemma_all_pairs(n: int)
    requires
        0 <= n <= usize::MAX,
    ensures
        2 * all_pairs(n).len() == n * (n - 1),
        forall|i: int, j: int| 0 <= i < j < n ==> #[trigger] all_pairs(n).contains(index_pair(i, j)),
        forall|k: int|
            0 <= k < all_pairs(n).len() ==> (#[trigger] all_pairs(n)[k]).0 < all_pairs(n)[k].1 < n,
        all_pairs(n).no_duplicates(),
{
    lemma_pairs_below(n, n);
    lemma_pairs_in_range(n, n);
    assert(n * (2 * n - n - 1) == n * (n - 1));
}

/// The index pairs of `n` items, as `Itertools::tuple_combinations` yields the
/// pairs of `0..n`: each pair `(i, j)` with `i < j`, in lexicographic order.
#[verifier::external_body]
#[allow(deprecated)]
pub(crate) fn comparison_pairs(n: usize) -> (r: Vec<(usize, usize)>)
    ensures
        r@ == all_pairs(n as int),
{
    (0..n).tuple_combinations::<(usize, usize)>().collect()
}

/// The items separated by `sep`.
pub open spec fn joined(items: Seq<Seq<char>>, sep: Seq<char>) -> Seq<char>
    decreases items.len(),
{
    if items.len() == 0 {
        Seq::empty()
    } else if items.len() == 1 {
        items[0]
    } else {
        joined(items.drop_last(), sep) + sep + items.last()
    }
}

/// `Itertools::join` on the strings: the first, then each further one preceded
/// by `sep`; empty when there are none.
#[verifier::external_body]
fn join_strings(items: &Vec<String>, sep: &str) -> (r: String)
    ensures
        r@ == joined(items@.map_values(|s: String| s@), sep@),
{
    items.iter().join(sep)
}

// ---------------------------------------------------------------------
// Tables.
// ---------------------------------------------------------------------

/// One row of the table of changes between pairs of benchmarks.
pub struct ChangesTable {
    pub function_id_vs: String,
    pub latency_mean: String,
    pub latency_mean_change: String,
    pub result: String,
}

pub struct ChangesRowView {
    pub function_id_vs: Seq<char>,
    pub latency_mean: Seq<char>,
    pub latency_mean_change: Seq<char>,
    pub result: Seq<char>,
}

impl View for ChangesTable {
    type V = ChangesRowView;

    open spec fn view(&self) -> ChangesRowView {
        ChangesRowView {
            function_id_vs: self.function_id_vs@,
            latency_mean: self.latency_mean@,
            latency_mean_change: self.latency_mean_change@,
            result: self.result@,
        }
    }
}

/// One row of the ranking table.
pub struct RankingTable {
    pub ranking: usize,
    pub function_id: String,
    pub latency_mean: String,
    pub relative_performance: String,
}

pub struct RankingRowView {
    pub ranking: nat,
    pub function_id: Seq<char>,
    pub latency_mean: Seq<char>,
    pub relative_performance: Seq<char>,
}

impl View for RankingTable {
    type V = RankingRowView;

    open spec fn view(&self) -> RankingRowView {
        RankingRowView {
            ranking: self.ranking as nat,
            function_id: self.function_id@,
            latency_mean: self.latency_mean@,
            relative_performance: self.relative_performance@,
        }
    }
}

/// The two tables of one group.
pub struct GroupComparisonTables {
    changes_table_rows: Vec<ChangesTable>,
    ranking_table_rows: Vec<RankingTable>,
}

pub struct GroupTablesView {
    pub changes: Seq<ChangesRowView>,
    pub ranking: Seq<RankingRowView>,
}

impl View for GroupComparisonTables {
    type V = GroupTablesView;

    closed spec fn view(&self) -> GroupTablesView {
        GroupTablesView {
            changes: self.changes_table_rows@.map_values(|r: ChangesTable| r@),
            ranking: self.ranking_table_rows@.map_values(|r: RankingTable| r@),
        }
    }
}

impl GroupComparisonTables {
    pub fn changes_table_rows(&self) -> (r: &Vec<ChangesTable>)
        ensures
            r@.map_values(|r: ChangesTable| r@) == self@.changes,
    {
        &self.changes_table_rows
    }

    pub fn ranking_table_rows(&self) -> (r: &Vec<RankingTable>)
        ensures
            r@.map_values(|r: RankingTable| r@) == self@.ranking,
    {
        &self.ranking_table_rows
    }
}

/// The tables by group id; a later entry for the same id wins.
pub open spec fn groups_map(s: Seq<(String, GroupComparisonTables)>) -> Map<Seq<char>, GroupTablesView>
    decreases s.len(),
{
    if s.len() == 0 {
        Map::empty()
    } else {
        groups_map(s.drop_last()).insert(s.last().0@, s.last().1@)
    }
}

/// The entries whose group id is not `k`, in order.
pub open spec fn without_key(s: Seq<(String, GroupComparisonTables)>, k: Seq<char>) -> Seq<
    (String, GroupComparisonTables),
>
    decreases s.len(),
{
    if s.len() == 0 {
        Seq::empty()
    } else if s.last().0@ == k {
        without_key(s.drop_last(), k)
    } else {
        without_key(s.drop_last(), k).push(s.last())
    }
}

proof fn lemma_without_key_map(s: Seq<(String, GroupComparisonTables)>, k: Seq<char>)
    ensures
        groups_map(without_key(s, k)) == groups_map(s).remove(k),
    decreases s.len(),
{
    if s.len() == 0 {
        assert(groups_map(s).remove(k) =~= Map::empty());
    } else {
        lemma_without_key_map(s.drop_last(), k);
        if s.last().0@ == k {
            assert(groups_map(s).remove(k) =~= groups_map(s.drop_last()).remove(k));
        } else {
            let w = without_key(s.drop_last(), k);
            assert(w.push(s.last()).drop_last() =~= w);
            assert(groups_map(w.push(s.last())) =~= groups_map(s).remove(k));
        }
    }
}

/// No group id occurs twice.
pub open spec fn distinct_group_ids(s: Seq<(String, GroupComparisonTables)>) -> bool {
    forall|i: int, j: int| 0 <= i < j < s.len() ==> (#[trigger] s[i]).0@ != (#[trigger] s[j]).0@
}

/// Some entry has the group id `key`.
pub open spec fn has_group(s: Seq<(String, GroupComparisonTables)>, key: Seq<char>) -> bool {
    exists|j: int| 0 <= j < s.len() && (#[trigger] s[j]).0@ == key
}

proof fn lemma_without_key_distinct(s: Seq<(String, GroupComparisonTables)>, k: Seq<char>)
    requires
        distinct_group_ids(s),
    ensures
        distinct_group_ids(without_key(s, k)),
        !has_group(without_key(s, k), k),
        forall|key: Seq<char>| has_group(without_key(s, k), key) ==> has_group(s, key),
    decreases s.len(),
{
    if s.len() > 0 {
        let init = s.drop_last();
        assert(distinct_group_ids(init)) by {
            assert forall|i: int, j: int| 0 <= i < j < init.len() implies (#[trigger] init[i]).0@
                != (#[trigger] init[j]).0@ by {
                assert(init[i] == s[i] && init[j] == s[j]);
            }
        }
        lemma_without_key_distinct(init, k);
        let w0 = without_key(init, k);
        let w = without_key(s, k);
        assert forall|key: Seq<char>| has_group(init, key) implies has_group(s, key) by {
            let j = choose|j: int| 0 <= j < init.len() && (#[trigger] init[j]).0@ == key;
            assert(s[j] == init[j]);
        }
        if s.last().0@ != k {
            assert(w == w0.push(s.last()));
            assert(!has_group(init, s.last().0@)) by {
                if has_group(init, s.last().0@) {
                    let j = choose|j: int| 0 <= j < init.len() && (#[trigger] init[j]).0@ == s.last().0@;
                    assert(s[j] == init[j]);
                    assert(s[s.len() - 1] == s.last());
                }
            }
            assert forall|i: int, j: int| 0 <= i < j < w.len() implies (#[trigger] w[i]).0@
                != (#[trigger] w[j]).0@ by {
                if j == w.len() - 1 {
                    assert(w[i] == w0[i]);
                    assert(has_group(w0, w0[i].0@));
                } else {
                    assert(w[i] == w0[i] && w[j] == w0[j]);
                }
            }
            assert(!has_group(w, k)) by {
                if has_group(w, k) {
                    let j = choose|j: int| 0 <= j < w.len() && (#[trigger] w[j]).0@ == k;
                    if j < w0.len() {
                        assert(w[j] == w0[j]);
                    }
                }
            }
            assert forall|key: Seq<char>| has_group(w, key) implies has_group(s, key) by {
                let j = choose|j: int| 0 <= j < w.len() && (#[trigger] w[j]).0@ == key;
                if j < w0.len() {
                    assert(w[j] == w0[j]);
                    assert(has_group(w0, key));
                } else {
                    assert(s[s.len() - 1] == s.last());
                }
            }
        }
    }
}

/// The comparison tables of every group, by group id.
pub struct GroupsComparisons {
    groups: Vec<(String, GroupComparisonTables)>,
}

impl GroupsComparisons {
    /// Each group has one entry.
    #[verifier::type_invariant]
    spec fn well_formed(self) -> bool {
        distinct_group_ids(self.groups@)
    }
}

impl View for GroupsComparisons {
    type V = Map<Seq<char>, GroupTablesView>;

    closed spec fn view(&self) -> Map<Seq<char>, GroupTablesView> {
        groups_map(self.groups@)
    }
}

impl GroupsComparisons {
    /// No groups yet.
    pub fn with_capacity(capacity: usize) -> (r: Self)
        ensures
            r@ == Map::<Seq<char>, GroupTablesView>::empty(),
    {
        GroupsComparisons { groups: Vec::with_capacity(capacity) }
    }

    /// The groups, each with its tables.
    pub fn entries(&self) -> (r: &Vec<(String, GroupComparisonTables)>)
        ensures
            groups_map(r@) == self@,
            distinct_group_ids(r@),
    {
        proof {
            use_type_invariant(self);
        }
        &self.groups
    }

    /// Sets the tables of `group_id`, handing back the ones it had.
    pub fn insert(&mut self, group_id: String, tables: GroupComparisonTables) -> (r: Option<
        GroupComparisonTables,
    >)
        ensures
            final(self)@ == old(self)@.insert(group_id@, tables@),
            r matches Some(t) ==> old(self)@.contains_key(group_id@) && old(self)@[group_id@]
                == t@,
            r is None ==> !old(self)@.contains_key(group_id@),
    {
        proof {
            use_type_invariant(&*self);
        }
        let mut groups: Vec<(String, GroupComparisonTables)> = Vec::new();
        std::mem::swap(&mut groups, &mut self.groups);
        let ghost orig = groups@;
        let ghost k = group_id@;
        let mut previous: Option<GroupComparisonTables> = None;
        let mut i: usize = 0;
        let ghost mut t: int = 0;
        while i < groups.len()
            invariant
                0 <= t <= orig.len(),
                groups@ == without_key(orig.take(t), k) + orig.skip(t),
                i == without_key(orig.take(t), k).len(),
                k == group_id@,
                match previous {
                    Some(v) => groups_map(orig.take(t)).contains_key(k) && groups_map(
                        orig.take(t),
                    )[k] == v@,
                    None => !groups_map(orig.take(t)).contains_key(k),
                },
            decreases groups.len() - i,
        {
            assert(orig.take(t + 1).drop_last() =~= orig.take(t));
            assert(orig.skip(t)[0] == orig[t]);
            if groups[i].0 == group_id {
                let removed = groups.remove(i);
                previous = Some(removed.1);
                proof {
                    assert(groups@ =~= without_key(orig.take(t + 1), k) + orig.skip(t + 1));
                    t = t + 1;
                }
            } else {
                proof {
                    assert(without_key(orig.take(t + 1), k) =~= without_key(orig.take(t), k).push(
                        orig[t],
                    ));
                    assert(groups@ =~= without_key(orig.take(t + 1), k) + orig.skip(t + 1));
                    t = t + 1;
                }
                i = i + 1;
            }
        }
        proof {
            if t < orig.len() {
                assert(groups@.len() > i);
            }
            assert(orig.take(orig.len() as int) =~= orig);
            assert(groups@ =~= without_key(orig, k));
            lemma_without_key_map(orig, k);
            lemma_without_key_distinct(orig, k);
        }
        let ghost w = groups@;
        groups.push((group_id, tables));
        proof {
            assert(groups@.drop_last() =~= w);
            assert forall|i: int, j: int| 0 <= i < j < groups@.len() implies (
            #[trigger] groups@[i]).0@ != (#[trigger] groups@[j]).0@ by {
                if j == groups@.len() - 1 {
                    assert(groups@[i] == w[i]);
                } else {
                    assert(groups@[i] == w[i] && groups@[j] == w[j]);
                }
            }
        }
        self.groups = groups;
        proof {
            assert(self@ =~= old(self)@.insert(k, tables@));
        }
        previous
    }
}

// ---------------------------------------------------------------------
// Comparing the benchmarks of a group.
// ---------------------------------------------------------------------

/// What the tables show of one benchmark of a group, with its mean latency
/// already written out.
pub struct BenchmarkSummary {
    pub function_id: Option<String>,
    pub latency_mean_str: String,
    /// Orders the benchmarks by mean latency: lower is faster.
    pub latency_order: u64,
    pub latency_ci_lower_str: String,
    pub latency_ci_upper_str: String,
    pub latency_confidence_str: String,
}

/// The statistical comparison of a newer benchmark with an older one: the
/// decisions it reached and its figures, written out.
pub struct ComparisonMeasurement {
    /// The p-value is below the significance threshold.
    pub is_mean_different: bool,
    /// Where the confidence interval of the mean change lies against the noise.
    pub threshold: ComparisonResult,
    /// The point estimate of the mean change is negative.
    pub mean_diff_negative: bool,
    pub mean_diff_str: String,
    pub mean_diff_pct_str: String,
    pub mean_diff_ci_lower_str: String,
    pub mean_diff_ci_upper_str: String,
    pub confidence_str: String,
    pub p_value_str: String,
    pub significance_str: String,
    pub noise_pct_str: String,
}

/// A pair of benchmarks of one group (by position), how they compare, and
/// the outcome once it is decided.
pub struct ComparisonReport {
    pub id_new: usize,
    pub id_old: usize,
    pub comp: ComparisonMeasurement,
    pub comp_result: ComparisonReportResult,
}

impl ComparisonReport {
    fn new(id_new: usize, id_old: usize, comp: ComparisonMeasurement) -> (r: Self)
        ensures
            r == (ComparisonReport { id_new, id_old, comp, comp_result: ComparisonReportResult::NoChange }),
    {
        ComparisonReport { id_new, id_old, comp, comp_result: ComparisonReportResult::NoChange }
    }
}

/// The outcome of a comparison: no change when the means do not differ
/// significantly, otherwise by the noise threshold and the sign of the change.
pub open spec fn comparison_outcome(m: ComparisonMeasurement) -> ComparisonReportResult {
    if !m.is_mean_different {
        ComparisonReportResult::NoChange
    } else {
        match m.threshold {
            ComparisonResult::Improved => ComparisonReportResult::Improved,
            ComparisonResult::Regressed => ComparisonReportResult::Regressed,
            ComparisonResult::NonSignificant => if m.mean_diff_negative {
                ComparisonReportResult::NonSignificantImproved
            } else {
                ComparisonReportResult::NonSignificantRegressed
            },
        }
    }
}

/// Highlighting of the newer side: green and bold when it improved, red when
/// it regressed, faint and bold when it improved within the noise.
pub open spec fn new_side_text(o: ComparisonReportResult, s: Seq<char>) -> Seq<char> {
    match o {
        ComparisonReportResult::Improved => green_text(bold_text(s)),
        ComparisonReportResult::Regressed => red_text(s),
        ComparisonReportResult::NonSignificantImproved => faint_text(bold_text(s)),
        _ => s,
    }
}

/// Highlighting of the older side, the mirror of `new_side_text`.
pub open spec fn old_side_text(o: ComparisonReportResult, s: Seq<char>) -> Seq<char> {
    match o {
        ComparisonReportResult::Improved => red_text(s),
        ComparisonReportResult::Regressed => green_text(bold_text(s)),
        ComparisonReportResult::NonSignificantRegressed => faint_text(bold_text(s)),
        _ => s,
    }
}

pub open spec fn mean_diff_text(o: ComparisonReportResult, s: Seq<char>) -> Seq<char> {
    match o {
        ComparisonReportResult::Improved => green_text(bold_text(s)),
        ComparisonReportResult::Regressed => red_text(s),
        ComparisonReportResult::NoChange => s,
        _ => faint_text(bold_text(s)),
    }
}

pub open spec fn explanation_text(o: ComparisonReportResult, m: ComparisonMeasurement) -> Seq<char> {
    match o {
        ComparisonReportResult::Improved => "Performance has "@ + green_text(
            bold_text("improved "@ + m.mean_diff_pct_str@),
        ),
        ComparisonReportResult::Regressed => "Performance has "@ + red_text(
            bold_text("regressed "@ + m.mean_diff_pct_str@),
        ),
        ComparisonReportResult::NonSignificantImproved => "Improved "@ + faint_text(
            bold_text(m.mean_diff_pct_str@),
        ) + " within noise threshold of \u{b1}"@ + m.noise_pct_str@ + "%"@,
        ComparisonReportResult::NonSignificantRegressed => "Regressed "@ + faint_text(
            bold_text(m.mean_diff_pct_str@),
        ) + " within noise threshold of \u{b1}"@ + m.noise_pct_str@ + "%"@,
        ComparisonReportResult::NoChange => "No change in performance detected"@,
    }
}

/// The row of the changes table for the newer benchmark `new` against the
/// older `old`.
pub open spec fn changes_row(
    new: BenchmarkSummary,
    old: BenchmarkSummary,
    m: ComparisonMeasurement,
) -> ChangesRowView {
    let o = comparison_outcome(m);
    ChangesRowView {
        function_id_vs: old_side_text(o, old.function_id.unwrap()@) + " vs "@ + new_side_text(
            o,
            new.function_id.unwrap()@,
        ),
        latency_mean: old_side_text(o, old.latency_mean_str@) + " vs "@ + new_side_text(
            o,
            new.latency_mean_str@,
        ),
        latency_mean_change: mean_diff_text(o, m.mean_diff_str@) + " ["@ + m.mean_diff_ci_lower_str@
            + ","@ + m.mean_diff_ci_upper_str@ + "] "@ + m.confidence_str@ + "% CI (p = "@
            + m.p_value_str@ + " "@ + (if m.is_mean_different {
            "<"@
        } else {
            ">"@
        }) + " "@ + m.significance_str@ + ")"@,
        result: explanation_text(o, m),
    }
}

/// The result column of the changes table says what the comparison found:
/// no change when the means do not differ significantly; otherwise that
/// performance improved or regressed (in bold green or red, with the
/// percentage) when the change lies beyond the noise, or that it improved or
/// regressed within the noise threshold (faint and bold), by the sign of the
/// change. An improvement and a regression with the same figures read
/// differently.
pub proof fn lemma_changes_row_result(new: BenchmarkSummary, old: BenchmarkSummary, m: ComparisonMeasurement)
    ensures
        !m.is_mean_different ==> changes_row(new, old, m).result
            == "No change in performance detected"@,
        m.is_mean_different && m.threshold is Improved ==> changes_row(new, old, m).result
            == "Performance has \x1B[32m\x1B[1mimproved "@ + m.mean_diff_pct_str@
            + "\x1B[22m\x1B[39m"@,
        m.is_mean_different && m.threshold is Regressed ==> changes_row(new, old, m).result
            == "Performance has \x1B[31m\x1B[1mregressed "@ + m.mean_diff_pct_str@
            + "\x1B[22m\x1B[39m"@,
        m.is_mean_different && m.threshold is NonSignificant && m.mean_diff_negative
            ==> changes_row(new, old, m).result == "Improved \x1B[2m\x1B[1m"@
            + m.mean_diff_pct_str@ + "\x1B[22m\x1B[22m within noise threshold of \u{b1}"@
            + m.noise_pct_str@ + "%"@,
        m.is_mean_different && m.threshold is NonSignificant && !m.mean_diff_negative
            ==> changes_row(new, old, m).result == "Regressed \x1B[2m\x1B[1m"@
            + m.mean_diff_pct_str@ + "\x1B[22m\x1B[22m within noise threshold of \u{b1}"@
            + m.noise_pct_str@ + "%"@,
        "Performance has \x1B[32m\x1B[1mimproved "@ + m.mean_diff_pct_str@ + "\x1B[22m\x1B[39m"@
            != "Performance has \x1B[31m\x1B[1mregressed "@ + m.mean_diff_pct_str@
            + "\x1B[22m\x1B[39m"@,
{
    let pct = m.mean_diff_pct_str@;
    let improved = "Performance has \x1B[32m\x1B[1mimproved "@ + pct + "\x1B[22m\x1B[39m"@;
    let regressed = "Performance has \x1B[31m\x1B[1mregressed "@ + pct + "\x1B[22m\x1B[39m"@;
    assert(improved != regressed) by {
        reveal_strlit("Performance has \x1B[32m\x1B[1mimproved ");
        reveal_strlit("Performance has \x1B[31m\x1B[1mregressed ");
        assert(improved[19] == '2');
        assert(regressed[19] == '1');
    }
    if !m.is_mean_different {
    } else {
        match m.threshold {
            ComparisonResult::Improved => {
                assert(explanation_text(ComparisonReportResult::Improved, m) =~= improved) by {
                    reveal_strlit("Performance has ");
                    reveal_strlit("improved ");
                    reveal_strlit("Performance has \x1B[32m\x1B[1mimproved ");
                    reveal_strlit("\x1B[22m\x1B[39m");
                }
            },
            ComparisonResult::Regressed => {
                assert(explanation_text(ComparisonReportResult::Regressed, m) =~= regressed) by {
                    reveal_strlit("Performance has ");
                    reveal_strlit("regressed ");
                    reveal_strlit("Performance has \x1B[31m\x1B[1mregressed ");
                    reveal_strlit("\x1B[22m\x1B[39m");
                }
            },
            ComparisonResult::NonSignificant => {
                reveal_strlit(" within noise threshold of \u{b1}");
                reveal_strlit("\x1B[22m\x1B[22m within noise threshold of \u{b1}");
                if m.mean_diff_negative {
                    assert(explanation_text(ComparisonReportResult::NonSignificantImproved, m)
                        =~= "Improved \x1B[2m\x1B[1m"@ + pct
                        + "\x1B[22m\x1B[22m within noise threshold of \u{b1}"@ + m.noise_pct_str@
                        + "%"@) by {
                        reveal_strlit("Improved ");
                        reveal_strlit("Improved \x1B[2m\x1B[1m");
                    }
                } else {
                    assert(explanation_text(ComparisonReportResult::NonSignificantRegressed, m)
                        =~= "Regressed \x1B[2m\x1B[1m"@ + pct
                        + "\x1B[22m\x1B[22m within noise threshold of \u{b1}"@ + m.noise_pct_str@
                        + "%"@) by {
                        reveal_strlit("Regressed ");
                        reveal_strlit("Regressed \x1B[2m\x1B[1m");
                    }
                }
            },
        }
    }
}

fn side_new(o: ComparisonReportResult, s: &str) -> (r: String)
    ensures
        r@ == new_side_text(o, s@),
{
    match o {
        ComparisonReportResult::Improved => paint_green(paint_bold(s).as_str()),
        ComparisonReportResult::Regressed => paint_red(s),
        ComparisonReportResult::NonSignificantImproved => paint_faint(paint_bold(s).as_str()),
        _ => s.to_owned(),
    }
}

fn side_old(o: ComparisonReportResult, s: &str) -> (r: String)
    ensures
        r@ == old_side_text(o, s@),
{
    match o {
        ComparisonReportResult::Improved => paint_red(s),
        ComparisonReportResult::Regressed => paint_green(paint_bold(s).as_str()),
        ComparisonReportResult::NonSignificantRegressed => paint_faint(paint_bold(s).as_str()),
        _ => s.to_owned(),
    }
}

fn versus(a: &str, b: &str) -> (r: String)
    ensures
        r@ == a@ + " vs "@ + b@,
{
    let mut r = String::new();
    r.push_str(a);
    r.push_str(" vs ");
    r.push_str(b);
    assert(r@ =~= a@ + " vs "@ + b@);
    r
}

fn outcome_of(m: &ComparisonMeasurement) -> (o: ComparisonReportResult)
    ensures
        o == comparison_outcome(*m),
{
    if !m.is_mean_different {
        ComparisonReportResult::NoChange
    } else {
        match m.threshold {
            ComparisonResult::Improved => ComparisonReportResult::Improved,
            ComparisonResult::Regressed => ComparisonReportResult::Regressed,
            ComparisonResult::NonSignificant => if m.mean_diff_negative {
                ComparisonReportResult::NonSignificantImproved
            } else {
                ComparisonReportResult::NonSignificantRegressed
            },
        }
    }
}

fn explanation(o: ComparisonReportResult, m: &ComparisonMeasurement) -> (r: String)
    ensures
        r@ == explanation_text(o, *m),
{
    match o {
        ComparisonReportResult::Improved => {
            let mut inner = String::new();
            inner.push_str("improved ");
            inner.push_str(m.mean_diff_pct_str.as_str());
            let mut r = String::new();
            r.push_str("Performance has ");
            r.push_str(paint_green(paint_bold(inner.as_str()).as_str()).as_str());
            assert(inner@ =~= "improved "@ + m.mean_diff_pct_str@);
            assert(r@ =~= explanation_text(o, *m));
            r
        },
        ComparisonReportResult::Regressed => {
            let mut inner = String::new();
            inner.push_str("regressed ");
            inner.push_str(m.mean_diff_pct_str.as_str());
            let mut r = String::new();
            r.push_str("Performance has ");
            r.push_str(paint_red(paint_bold(inner.as_str()).as_str()).as_str());
            assert(inner@ =~= "regressed "@ + m.mean_diff_pct_str@);
            assert(r@ =~= explanation_text(o, *m));
            r
        },
        ComparisonReportResult::NonSignificantImproved => {
            let mut r = String::new();
            r.push_str("Improved ");
            r.push_str(paint_faint(paint_bold(m.mean_diff_pct_str.as_str()).as_str()).as_str());
            r.push_str(" within noise threshold of \u{b1}");
            r.push_str(m.noise_pct_str.as_str());
            r.push_str("%");
            assert(r@ =~= explanation_text(o, *m));
            r
        },
        ComparisonReportResult::NonSignificantRegressed => {
            let mut r = String::new();
            r.push_str("Regressed ");
            r.push_str(paint_faint(paint_bold(m.mean_diff_pct_str.as_str()).as_str()).as_str());
            r.push_str(" within noise threshold of \u{b1}");
            r.push_str(m.noise_pct_str.as_str());
            r.push_str("%");
            assert(r@ =~= explanation_text(o, *m));
            r
        },
        ComparisonReportResult::NoChange => "No change in performance detected".to_owned(),
    }
}

/// The changes-table row of a comparison, and its outcome.
fn changes_table_row(
    new: &BenchmarkSummary,
    old: &BenchmarkSummary,
    m: &ComparisonMeasurement,
) -> (r: (ChangesTable, ComparisonReportResult))
    requires
        new.function_id is Some,
        old.function_id is Some,
    ensures
        r.0@ == changes_row(*new, *old, *m),
        r.1 == comparison_outcome(*m),
{
    let o = outcome_of(m);
    let new_id = match &new.function_id {
        Some(f) => f,
        None => {
            assert(false);
            return (
                ChangesTable {
                    function_id_vs: String::new(),
                    latency_mean: String::new(),
                    latency_mean_change: String::new(),
                    result: String::new(),
                },
                o,
            );
        },
    };
    let old_id = match &old.function_id {
        Some(f) => f,
        None => {
            assert(false);
            return (
                ChangesTable {
                    function_id_vs: String::new(),
                    latency_mean: String::new(),
                    latency_mean_change: String::new(),
                    result: String::new(),
                },
                o,
            );
        },
    };
    let function_id_vs = versus(
        side_old(o, old_id.as_str()).as_str(),
        side_new(o, new_id.as_str()).as_str(),
    );
    let latency_mean = versus(
        side_old(o, old.latency_mean_str.as_str()).as_str(),
        side_new(o, new.latency_mean_str.as_str()).as_str(),
    );
    let mean_diff = match o {
        ComparisonReportResult::Improved => paint_green(
            paint_bold(m.mean_diff_str.as_str()).as_str(),
        ),
        ComparisonReportResult::Regressed => paint_red(m.mean_diff_str.as_str()),
        ComparisonReportResult::NoChange => m.mean_diff_str.clone(),
        _ => paint_faint(paint_bold(m.mean_diff_str.as_str()).as_str()),
    };
    let mut change = String::new();
    change.push_str(mean_diff.as_str());
    change.push_str(" [");
    change.push_str(m.mean_diff_ci_lower_str.as_str());
    change.push_str(",");
    change.push_str(m.mean_diff_ci_upper_str.as_str());
    change.push_str("] ");
    change.push_str(m.confidence_str.as_str());
    change.push_str("% CI (p = ");
    change.push_str(m.p_value_str.as_str());
    change.push_str(" ");
    if m.is_mean_different {
        change.push_str("<");
    } else {
        change.push_str(">");
    }
    change.push_str(" ");
    change.push_str(m.significance_str.as_str());
    change.push_str(")");
    let row = ChangesTable {
        function_id_vs,
        latency_mean,
        latency_mean_change: change,
        result: explanation(o, m),
    };
    assert(row@.latency_mean_change =~= changes_row(*new, *old, *m).latency_mean_change);
    assert(row@ == changes_row(*new, *old, *m));
    (row, o)
}

/// The entry that the ranking starts from for a benchmark of the group.
pub open spec fn extended_of(b: BenchmarkSummary, index: usize) -> BenchmarkExtended {
    BenchmarkExtended {
        benchmark: index,
        function_id: b.function_id.unwrap(),
        latency_mean_str: b.latency_mean_str,
        latency_order: b.latency_order,
        latency_ci_lower_str: b.latency_ci_lower_str,
        latency_ci_upper_str: b.latency_ci_upper_str,
        latency_confidence_str: b.latency_confidence_str,
        score: 0,
    }
}

/// `e` in place of the entry with its function id, or added at the end.
pub open spec fn upsert(s: Seq<BenchmarkExtended>, e: BenchmarkExtended) -> Seq<BenchmarkExtended> {
    if exists|i: int| 0 <= i < s.len() && (#[trigger] s[i]).function_id@ == e.function_id@ {
        s.update(
            choose|i: int| 0 <= i < s.len() && (#[trigger] s[i]).function_id@ == e.function_id@,
            e,
        )
    } else {
        s.push(e)
    }
}

/// The entries of the compared benchmarks, one per function id: for each
/// comparison, the newer benchmark's and then the older one's.
pub open spec fn extended_data(
    reports: Seq<ComparisonReport>,
    benchmarks: Seq<BenchmarkSummary>,
) -> Seq<BenchmarkExtended>
    decreases reports.len(),
{
    if reports.len() == 0 {
        Seq::empty()
    } else {
        let r = reports.last();
        upsert(
            upsert(
                extended_data(reports.drop_last(), benchmarks),
                extended_of(benchmarks[r.id_new as int], r.id_new),
            ),
            extended_of(benchmarks[r.id_old as int], r.id_old),
        )
    }
}

pub open spec fn scored_comparison(r: ComparisonReport, benchmarks: Seq<BenchmarkSummary>) -> ScoredComparison {
    ScoredComparison {
        function_id_new: benchmarks[r.id_new as int].function_id.unwrap(),
        function_id_old: benchmarks[r.id_old as int].function_id.unwrap(),
        comp_result: comparison_outcome(r.comp),
    }
}

pub open spec fn changes_rows(
    reports: Seq<ComparisonReport>,
    benchmarks: Seq<BenchmarkSummary>,
) -> Seq<ChangesRowView> {
    reports.map_values(
        |r: ComparisonReport|
            changes_row(benchmarks[r.id_new as int], benchmarks[r.id_old as int], r.comp),
    )
}

/// `groups` ranks `entries`: the groups, one after another, are the entries
/// in ranking order, and each group holds one score.
pub open spec fn is_ranking_of(groups: Seq<Seq<BenchmarkExtended>>, entries: Seq<BenchmarkExtended>) -> bool {
    &&& concat_groups(groups).to_multiset() == entries.to_multiset()
    &&& sorted_by_rank(concat_groups(groups))
    &&& grouped_by_score(groups)
}

pub open spec fn ranking_row(rank: nat, e: BenchmarkExtended) -> RankingRowView {
    RankingRowView {
        ranking: rank,
        function_id: e.function_id@,
        latency_mean: e.latency_mean_str@ + " ["@ + e.latency_ci_lower_str@ + ","@
            + e.latency_ci_upper_str@ + "] "@ + e.latency_confidence_str@ + "% CI"@,
        relative_performance: "test"@,
    }
}

/// The ranking table: the members of the `i`-th group (from 0) get rank `i + 1`.
pub open spec fn ranking_rows(groups: Seq<Seq<BenchmarkExtended>>) -> Seq<RankingRowView>
    decreases groups.len(),
{
    if groups.len() == 0 {
        Seq::empty()
    } else {
        ranking_rows(groups.drop_last()) + groups.last().map_values(
            |e: BenchmarkExtended| ranking_row(groups.len() as nat, e),
        )
    }
}

pub open spec fn rank_line(group: Seq<BenchmarkExtended>) -> Seq<char> {
    "Rank: "@ + decimal(group.len()) + " - Functions: "@ + joined(
        group.map_values(|e: BenchmarkExtended| e.function_id@),
        ", "@,
    )
}

pub open spec fn insert_message(previous: bool, group_id: Seq<char>) -> Seq<char> {
    if previous {
        "ALREADY INSERTED: "@ + group_id
    } else {
        "NOT INSERTED: "@ + group_id
    }
}

/// Adds `e`, replacing the entry with the same function id.
fn upsert_entry(data: &mut Vec<BenchmarkExtended>, e: BenchmarkExtended)
    requires
        distinct_ids(old(data)@),
    ensures
        final(data)@ == upsert(old(data)@, e),
        distinct_ids(final(data)@),
{
    let mut i: usize = 0;
    while i < data.len()
        invariant
            i <= data.len(),
            data@ == old(data)@,
            distinct_ids(data@),
            forall|j: int| 0 <= j < i ==> (#[trigger] data@[j]).function_id@ != e.function_id@,
        decreases data.len() - i,
    {
        if data[i].function_id == e.function_id {
            let ghost s = data@;
            proof {
                let c = choose|j: int| 0 <= j < s.len() && (#[trigger] s[j]).function_id@ == e.function_id@;
                if c != i as int {
                    if c < i {
                        assert(s[c].function_id@ != e.function_id@);
                    } else {
                        assert(s[i as int].function_id@ != s[c].function_id@);
                    }
                }
                assert(upsert(s, e) == s.update(i as int, e)) by {
                    assert(s[c].function_id@ == e.function_id@);
                }
            }
            data.set(i, e);
            assert forall|a: int, b: int| 0 <= a < b < data@.len() implies (#[trigger] data@[a]).function_id@
                != (#[trigger] data@[b]).function_id@ by {
                if a != i && b != i {
                    assert(data@[a] == s[a] && data@[b] == s[b]);
                } else if a == i {
                    assert(data@[b] == s[b]);
                    assert(s[i as int].function_id@ != s[b].function_id@);
                } else {
                    assert(data@[a] == s[a]);
                    assert(s[a].function_id@ != s[i as int].function_id@);
                }
            }
            return;
        }
        i = i + 1;
    }
    let ghost s = data@;
    data.push(e);
    assert forall|a: int, b: int| 0 <= a < b < data@.len() implies (#[trigger] data@[a]).function_id@
        != (#[trigger] data@[b]).function_id@ by {
        if b < s.len() {
            assert(data@[a] == s[a] && data@[b] == s[b]);
        } else {
            assert(data@[a] == s[a]);
        }
    }
}

/// The ranking table rows for the ranking.
fn ranking_table_rows_of(ranks: &Vec<Vec<BenchmarkExtended>>) -> (r: Vec<RankingTable>)
    requires
        ranks@.len() < usize::MAX,
    ensures
        r@.map_values(|t: RankingTable| t@) == ranking_rows(ranks@.map_values(|g: Vec<BenchmarkExtended>| g@)),
{
    let ghost groups = ranks@.map_values(|g: Vec<BenchmarkExtended>| g@);
    let mut rows: Vec<RankingTable> = Vec::new();
    let mut i: usize = 0;
    while i < ranks.len()
        invariant
            i <= ranks.len() < usize::MAX,
            groups == ranks@.map_values(|g: Vec<BenchmarkExtended>| g@),
            groups.len() == ranks@.len(),
            rows@.map_values(|t: RankingTable| t@) == ranking_rows(groups.take(i as int)),
        decreases ranks.len() - i,
    {
        let rank = &ranks[i];
        let ghost before = rows@.map_values(|t: RankingTable| t@);
        let mut k: usize = 0;
        while k < rank.len()
            invariant
                k <= rank.len(),
                i < ranks.len() < usize::MAX,
                groups.len() == ranks@.len(),
                rank@ == groups[i as int],
                rows@.map_values(|t: RankingTable| t@) == before + rank@.take(k as int).map_values(
                    |e: BenchmarkExtended| ranking_row((i + 1) as nat, e),
                ),
            decreases rank.len() - k,
        {
            let e = &rank[k];
            let mut latency_mean = String::new();
            latency_mean.push_str(e.latency_mean_str.as_str());
            latency_mean.push_str(" [");
            latency_mean.push_str(e.latency_ci_lower_str.as_str());
            latency_mean.push_str(",");
            latency_mean.push_str(e.latency_ci_upper_str.as_str());
            latency_mean.push_str("] ");
            latency_mean.push_str(e.latency_confidence_str.as_str());
            latency_mean.push_str("% CI");
            let row = RankingTable {
                ranking: i + 1,
                function_id: e.function_id.clone(),
                latency_mean,
                relative_performance: "test".to_owned(),
            };
            assert(row@ == ranking_row((i + 1) as nat, *e));
            let ghost prev = rows@;
            rows.push(row);
            assert(rows@ =~= prev.push(row));
            assert(rows@.map_values(|t: RankingTable| t@) =~= prev.map_values(|t: RankingTable| t@).push(
                ranking_row((i + 1) as nat, rank@[k as int]),
            ));
            assert(rank@.take(k as int + 1) =~= rank@.take(k as int).push(rank@[k as int]));
            assert(rank@.take(k as int + 1).map_values(
                |e: BenchmarkExtended| ranking_row((i + 1) as nat, e),
            ) =~= rank@.take(k as int).map_values(
                |e: BenchmarkExtended| ranking_row((i + 1) as nat, e),
            ).push(ranking_row((i + 1) as nat, rank@[k as int])));
            k = k + 1;
        }
        assert(rank@.take(rank.len() as int) =~= rank@);
        assert(groups.take(i as int + 1).drop_last() =~= groups.take(i as int));
        i = i + 1;
    }
    assert(groups.take(ranks.len() as int) =~= groups);
    rows
}

/// The "Rank: ..." line of a group.
fn rank_line_of(group: &Vec<BenchmarkExtended>) -> (r: String)
    ensures
        r@ == rank_line(group@),
{
    let mut ids: Vec<String> = Vec::new();
    let mut k: usize = 0;
    while k < group.len()
        invariant
            k <= group.len(),
            ids@.map_values(|s: String| s@) == group@.take(k as int).map_values(
                |e: BenchmarkExtended| e.function_id@,
            ),
        decreases group.len() - k,
    {
        let ghost prev = ids@;
        let id = group[k].function_id.clone();
        ids.push(id);
        assert(ids@ =~= prev.push(id));
        assert(ids@.map_values(|s: String| s@) =~= prev.map_values(|s: String| s@).push(id@));
        assert(group@.take(k as int + 1) =~= group@.take(k as int).push(group@[k as int]));
        assert(group@.take(k as int + 1).map_values(|e: BenchmarkExtended| e.function_id@)
            =~= group@.take(k as int).map_values(|e: BenchmarkExtended| e.function_id@).push(
            group@[k as int].function_id@,
        ));
        k = k + 1;
    }
    assert(group@.take(group.len() as int) =~= group@);
    let mut line = String::new();
    line.push_str("Rank: ");
    push_decimal(&mut line, group.len() as u64);
    line.push_str(" - Functions: ");
    line.push_str(join_strings(&ids, ", ").as_str());
    assert(line@ =~= rank_line(group@));
    line
}

/// The comparisons of the pairs, in the order of the pairs, none decided yet.
pub open spec fn initial_reports(
    pairs: Seq<(usize, usize)>,
    measurements: Seq<ComparisonMeasurement>,
) -> Seq<ComparisonReport> {
    Seq::new(
        pairs.len(),
        |k: int|
            ComparisonReport {
                id_new: pairs[k].0,
                id_old: pairs[k].1,
                comp: measurements[k],
                comp_result: ComparisonReportResult::NoChange,
            },
    )
}

pub open spec fn reports_well_formed(
    reports: Seq<ComparisonReport>,
    benchmarks: Seq<BenchmarkSummary>,
) -> bool {
    forall|k: int|
        0 <= k < reports.len() ==> {
            &&& (#[trigger] reports[k]).id_new < benchmarks.len()
            &&& reports[k].id_old < benchmarks.len()
            &&& benchmarks[reports[k].id_new as int].function_id is Some
            &&& benchmarks[reports[k].id_old as int].function_id is Some
        }
}

/// What comparing the benchmarks of a group does: the group's tables are set
/// to the changes rows and to the ranking rows of a ranking of the compared
/// benchmarks, and the lines to show are one per rank and the insertion note.
pub open spec fn group_compared(
    before: Map<Seq<char>, GroupTablesView>,
    after: Map<Seq<char>, GroupTablesView>,
    lines: Seq<Seq<char>>,
    group_id: Seq<char>,
    reports: Seq<ComparisonReport>,
    benchmarks: Seq<BenchmarkSummary>,
) -> bool {
    exists|groups: Seq<Seq<BenchmarkExtended>>|
        {
            &&& is_ranking_of(
                groups,
                scored_all(
                    extended_data(reports, benchmarks),
                    reports.map_values(|r: ComparisonReport| scored_comparison(r, benchmarks)),
                ),
            )
            &&& after == before.insert(
                group_id,
                GroupTablesView {
                    changes: changes_rows(reports, benchmarks),
                    ranking: ranking_rows(groups),
                },
            )
            &&& lines == groups.map_values(|g: Seq<BenchmarkExtended>| rank_line(g)).push(
                insert_message(before.contains_key(group_id), group_id),
            )
        }
}

fn extended_entry(b: &BenchmarkSummary, index: usize) -> (e: BenchmarkExtended)
    requires
        b.function_id is Some,
    ensures
        e == extended_of(*b, index),
{
    let function_id = match &b.function_id {
        Some(f) => f.clone(),
        None => String::new(),
    };
    BenchmarkExtended {
        benchmark: index,
        function_id,
        latency_mean_str: b.latency_mean_str.clone(),
        latency_order: b.latency_order,
        latency_ci_lower_str: b.latency_ci_lower_str.clone(),
        latency_ci_upper_str: b.latency_ci_upper_str.clone(),
        latency_confidence_str: b.latency_confidence_str.clone(),
        score: 0,
    }
}

fn function_id_of(b: &BenchmarkSummary) -> (r: String)
    requires
        b.function_id is Some,
    ensures
        r == b.function_id.unwrap(),
{
    match &b.function_id {
        Some(f) => f.clone(),
        None => String::new(),
    }
}

proof fn lemma_upsert_props(s: Seq<BenchmarkExtended>, e: BenchmarkExtended)
    requires
        forall|i: int| 0 <= i < s.len() ==> (#[trigger] s[i]).score == 0,
        e.score == 0,
    ensures
        upsert(s, e).len() >= 1,
        upsert(s, e).len() >= s.len(),
        upsert(s, e).len() <= s.len() + 1,
        forall|i: int| 0 <= i < upsert(s, e).len() ==> (#[trigger] upsert(s, e)[i]).score == 0,
{
}

/// The comparisons of the benchmarks of one group, and their tables.
pub struct IntraGroupComparison {
    comparison_tables: GroupsComparisons,
}

impl View for IntraGroupComparison {
    type V = Map<Seq<char>, GroupTablesView>;

    closed spec fn view(&self) -> Map<Seq<char>, GroupTablesView> {
        self.comparison_tables@
    }
}

impl IntraGroupComparison {
    /// No group compared yet.
    pub fn new() -> (r: Self)
        ensures
            r@ == Map::<Seq<char>, GroupTablesView>::empty(),
    {
        IntraGroupComparison { comparison_tables: GroupsComparisons::with_capacity(12) }
    }

    /// The tables of every group compared so far.
    pub fn comparison_tables(&self) -> (r: &GroupsComparisons)
        ensures
            r@ == self@,
    {
        &self.comparison_tables
    }

    /// Compares each benchmark of the group with each later one (the pairs of
    /// `comparison_pairs`, whose measurements `measurements` holds in the same
    /// order), and records the group's changes and ranking tables. Returns the
    /// lines to show: one per rank, and whether the group already had tables.
    pub fn get_intra_group_comparison_data(
        &mut self,
        group_id: &str,
        benchmarks: &[BenchmarkSummary],
        measurements: Vec<ComparisonMeasurement>,
    ) -> (lines: Vec<String>)
        requires
            measurements@.len() == all_pairs(benchmarks@.len() as int).len(),
            measurements@.len() <= 0x3fff_ffff,
            benchmarks@.len() >= 2 ==> forall|i: int|
                0 <= i < benchmarks@.len() ==> (#[trigger] benchmarks@[i]).function_id is Some,
        ensures
            measurements@.len() == 0 ==> final(self)@ == old(self)@ && lines@.len() == 0,
            measurements@.len() > 0 ==> group_compared(
                old(self)@,
                final(self)@,
                lines@.map_values(|l: String| l@),
                group_id@,
                initial_reports(all_pairs(benchmarks@.len() as int), measurements@),
                benchmarks@,
            ),
    {
        let n = benchmarks.len();
        let pairs = comparison_pairs(n);
        proof {
            lemma_pairs_in_range(n as int, n as int);
        }
        let ghost ms = measurements@;
        let mut measurements = measurements;
        let mut comparisons_report: Vec<ComparisonReport> = Vec::with_capacity(12);
        let mut k: usize = 0;
        while k < pairs.len()
            invariant
                k <= pairs.len(),
                pairs@ == all_pairs(n as int),
                n == benchmarks@.len(),
                ms.len() == pairs@.len(),
                measurements@ == ms.skip(k as int),
                comparisons_report@ == initial_reports(pairs@, ms).take(k as int),
            decreases pairs.len() - k,
        {
            assert(ms.skip(k as int)[0] == ms[k as int]);
            let comp = measurements.remove(0);
            assert(measurements@ =~= ms.skip(k as int + 1));
            let (id_new, id_old) = pairs[k];
            comparisons_report.push(ComparisonReport::new(id_new, id_old, comp));
            assert(comparisons_report@ =~= initial_reports(pairs@, ms).take(k as int + 1));
            k = k + 1;
        }
        assert(initial_reports(pairs@, ms).take(pairs.len() as int) =~= initial_reports(pairs@, ms));
        if comparisons_report.len() == 0 {
            return Vec::new();
        }
        proof {
            assert forall|k: int| 0 <= k < comparisons_report@.len() implies {
                &&& (#[trigger] comparisons_report@[k]).id_new < benchmarks@.len()
                &&& comparisons_report@[k].id_old < benchmarks@.len()
                &&& benchmarks@[comparisons_report@[k].id_new as int].function_id is Some
                &&& benchmarks@[comparisons_report@[k].id_old as int].function_id is Some
            } by {
                assert(pairs@[k].0 < pairs@[k].1 < n);
            }
        }
        self.parse_comparisons(group_id, &comparisons_report, benchmarks)
    }

    fn parse_comparisons(
        &mut self,
        group_id: &str,
        my_comparisons_report: &Vec<ComparisonReport>,
        benchmarks: &[BenchmarkSummary],
    ) -> (lines: Vec<String>)
        requires
            my_comparisons_report@.len() > 0,
            my_comparisons_report@.len() <= 0x3fff_ffff,
            reports_well_formed(my_comparisons_report@, benchmarks@),
        ensures
            group_compared(
                old(self)@,
                final(self)@,
                lines@.map_values(|l: String| l@),
                group_id@,
                my_comparisons_report@,
                benchmarks@,
            ),
    {
        let ghost reports = my_comparisons_report@;
        let ghost bs = benchmarks@;
        let mut changes_table_rows: Vec<ChangesTable> = Vec::with_capacity(12);
        let mut scored: Vec<ScoredComparison> = Vec::new();
        let mut benchmark_extended_data: Vec<BenchmarkExtended> = Vec::with_capacity(12);
        let mut k: usize = 0;
        while k < my_comparisons_report.len()
            invariant
                k <= my_comparisons_report.len() <= 0x3fff_ffff,
                reports == my_comparisons_report@,
                bs == benchmarks@,
                reports_well_formed(reports, bs),
                changes_table_rows@.map_values(|r: ChangesTable| r@) == changes_rows(reports.take(k as int), bs),
                scored@ == reports.take(k as int).map_values(|r: ComparisonReport| scored_comparison(r, bs)),
                benchmark_extended_data@ == extended_data(reports.take(k as int), bs),
                distinct_ids(benchmark_extended_data@),
                forall|i: int| 0 <= i < benchmark_extended_data@.len() ==> (#[trigger] benchmark_extended_data@[i]).score == 0,
                k > 0 ==> benchmark_extended_data@.len() > 0,
                benchmark_extended_data@.len() <= 2 * k,
            decreases my_comparisons_report.len() - k,
        {
            let comparison = &my_comparisons_report[k];
            assert(reports[k as int] == *comparison);
            let new_b = &benchmarks[comparison.id_new];
            let old_b = &benchmarks[comparison.id_old];
            let (row, comp_result) = changes_table_row(new_b, old_b, &comparison.comp);
            let ghost prev_rows = changes_table_rows@;
            changes_table_rows.push(row);
            let ghost prev_scored = scored@;
            scored.push(
                ScoredComparison {
                    function_id_new: function_id_of(new_b),
                    function_id_old: function_id_of(old_b),
                    comp_result,
                },
            );
            let ghost prev_data = benchmark_extended_data@;
            let e_new = extended_entry(new_b, comparison.id_new);
            proof {
                lemma_upsert_props(prev_data, e_new);
            }
            upsert_entry(&mut benchmark_extended_data, e_new);
            let ghost mid_data = benchmark_extended_data@;
            let e_old = extended_entry(old_b, comparison.id_old);
            proof {
                lemma_upsert_props(mid_data, e_old);
            }
            upsert_entry(&mut benchmark_extended_data, e_old);
            proof {
                let t1 = reports.take(k as int + 1);
                assert(t1.drop_last() =~= reports.take(k as int));
                assert(t1.last() == *comparison);
                assert(changes_table_rows@ =~= prev_rows.push(row));
                assert(changes_table_rows@.map_values(|r: ChangesTable| r@) =~= prev_rows.map_values(
                    |r: ChangesTable| r@,
                ).push(row@));
                assert(changes_rows(t1, bs) =~= changes_rows(reports.take(k as int), bs).push(
                    changes_row(bs[comparison.id_new as int], bs[comparison.id_old as int], comparison.comp),
                ));
                assert(changes_table_rows@.map_values(|r: ChangesTable| r@) =~= changes_rows(t1, bs));
                assert(scored@ =~= t1.map_values(|r: ComparisonReport| scored_comparison(r, bs)));
            }
            k = k + 1;
        }
        assert(reports.take(reports.len() as int) =~= reports);
        let ranking = rank_fastest_with_scores(scored.as_slice(), benchmark_extended_data);
        let ranks = ranking.ranks();
        proof {
            let g = ranks@.map_values(|v: Vec<BenchmarkExtended>| v@);
            assert(g.len() <= concat_groups(g).len()) by {
                lemma_concat_len(g);
            }
            vstd::seq_lib::to_multiset_len(concat_groups(g));
            vstd::seq_lib::to_multiset_len(scored_all(extended_data(reports, bs), scored@));
            assert(ranks@.len() == g.len());
        }
        let ranking_table_rows = ranking_table_rows_of(ranks);
        let mut lines: Vec<String> = Vec::new();
        let mut i: usize = 0;
        while i < ranks.len()
            invariant
                i <= ranks.len(),
                lines@.map_values(|l: String| l@) == ranks@.map_values(|v: Vec<BenchmarkExtended>| v@).take(
                    i as int,
                ).map_values(|g: Seq<BenchmarkExtended>| rank_line(g)),
            decreases ranks.len() - i,
        {
            let line = rank_line_of(&ranks[i]);
            let ghost prev = lines@;
            lines.push(line);
            proof {
                let g = ranks@.map_values(|v: Vec<BenchmarkExtended>| v@);
                assert(lines@ =~= prev.push(line));
                assert(lines@.map_values(|l: String| l@) =~= prev.map_values(|l: String| l@).push(line@));
                assert(g.take(i as int + 1) =~= g.take(i as int).push(g[i as int]));
                assert(g[i as int] == ranks@[i as int]@);
                assert(g.take(i as int + 1).map_values(|g: Seq<BenchmarkExtended>| rank_line(g))
                    =~= g.take(i as int).map_values(|g: Seq<BenchmarkExtended>| rank_line(g)).push(
                    rank_line(g[i as int]),
                ));
                assert(lines@.map_values(|l: String| l@) =~= g.take(i as int + 1).map_values(
                    |g: Seq<BenchmarkExtended>| rank_line(g),
                ));
            }
            i = i + 1;
        }
        let ghost before = self@;
        let tables = GroupComparisonTables { changes_table_rows, ranking_table_rows };
        let previous = self.comparison_tables.insert(group_id.to_owned(), tables);
        let mut message = String::new();
        match previous {
            Some(_) => message.push_str("ALREADY INSERTED: "),
            None => message.push_str("NOT INSERTED: "),
        }
        message.push_str(group_id);
        let ghost prev_lines = lines@;
        lines.push(message);
        proof {
            let g = ranks@.map_values(|v: Vec<BenchmarkExtended>| v@);
            assert(g.take(g.len() as int) =~= g);
            assert(message@ =~= insert_message(before.contains_key(group_id@), group_id@));
            assert(lines@ =~= prev_lines.push(message));
            assert(lines@.map_values(|l: String| l@) =~= g.map_values(
                |g: Seq<BenchmarkExtended>| rank_line(g),
            ).push(insert_message(before.contains_key(group_id@), group_id@)));
            assert(tables@ == GroupTablesView {
                changes: changes_rows(reports, bs),
                ranking: ranking_rows(g),
            });
            assert(self@ == before.insert(group_id@, tables@));
        }
        lines
    }
}

proof fn lemma_concat_len(g: Seq<Seq<BenchmarkExtended>>)
    requires
        forall|i: int| 0 <= i < g.len() ==> #[trigger] g[i].len() > 0,
    ensures
        g.len() <= concat_groups(g).len(),
    decreases g.len(),
{
    if g.len() > 0 {
        lemma_concat_len(g.drop_last());
    }
}

// ---------------------------------------------------------------------
// Merging equal cells of the first column.
// ---------------------------------------------------------------------

/// What the merge reads of a cell of the first column of a table: whether it
/// is visible, whether it spans several columns, and its text.
pub struct FirstColumnCell {
    pub visible: bool,
    pub column_span: bool,
    pub text: String,
}

/// Where the merge stands as it walks up the first column: the length of the
/// run of equal cells below, their text, whether a run is under way, whether
/// the next row is to be skipped, and the row spans set so far, each as its
/// first row and its length.
pub struct MergeWalk {
    pub repeat_length: nat,
    pub repeat_value: Seq<char>,
    pub repeat_is_set: bool,
    pub last_is_row_span: bool,
    pub spans: Seq<(nat, nat)>,
}

pub open spec fn merge_start() -> MergeWalk {
    MergeWalk {
        repeat_length: 0,
        repeat_value: Seq::empty(),
        repeat_is_set: false,
        last_is_row_span: false,
        spans: Seq::empty(),
    }
}

/// One step up the column, at `row`. The row after a cell that spans columns
/// is skipped. A hidden cell, or one that spans columns, ends the run under
/// way without merging it. A visible cell with the text of the run extends
/// it; one with another text merges the run below it, when the run has more
/// than one cell, and starts a new run.
pub open spec fn merge_step(w: MergeWalk, row: nat, cell: FirstColumnCell) -> MergeWalk {
    if w.last_is_row_span {
        MergeWalk { last_is_row_span: false, ..w }
    } else if !w.repeat_is_set {
        if !cell.visible || cell.column_span {
            w
        } else {
            MergeWalk { repeat_length: 1, repeat_value: cell.text@, repeat_is_set: true, ..w }
        }
    } else if cell.column_span {
        MergeWalk { repeat_is_set: false, last_is_row_span: true, ..w }
    } else if !cell.visible {
        MergeWalk { repeat_is_set: false, ..w }
    } else if cell.text@ == w.repeat_value {
        MergeWalk { repeat_length: w.repeat_length + 1, ..w }
    } else {
        MergeWalk {
            spans: if w.repeat_length > 1 {
                w.spans.push((row + 1, w.repeat_length))
            } else {
                w.spans
            },
            repeat_length: 1,
            repeat_value: cell.text@,
            ..w
        }
    }
}

/// The walk once it visited the rows from the last one up to `k`.
pub open spec fn merge_walk(cells: Seq<FirstColumnCell>, k: nat) -> MergeWalk
    decreases cells.len() - k,
{
    if k >= cells.len() {
        merge_start()
    } else {
        merge_step(merge_walk(cells, k + 1), k, cells[k as int])
    }
}

/// The row spans that the merge sets, in the order it sets them: those of
/// the walk, then, when the last run counted more than one cell, a span of
/// that length from the first row.
pub open spec fn merged_spans(cells: Seq<FirstColumnCell>) -> Seq<(nat, nat)> {
    if cells.len() == 0 {
        Seq::empty()
    } else {
        let w = merge_walk(cells, 0);
        if w.repeat_length > 1 {
            w.spans.push((0, w.repeat_length))
        } else {
            w.spans
        }
    }
}

/// Rows `row .. row + len` are visible, span no columns, and hold one text.
pub open spec fn uniform_run(cells: Seq<FirstColumnCell>, row: nat, len: nat) -> bool {
    &&& row + len <= cells.len()
    &&& forall|i: int|
        row <= i < row + len ==> {
            &&& (#[trigger] cells[i]).visible
            &&& !cells[i].column_span
            &&& cells[i].text@ == cells[row as int].text@
        }
}

pub open spec fn span_pairs(spans: Seq<(usize, usize)>) -> Seq<(nat, nat)> {
    spans.map_values(|p: (usize, usize)| (p.0 as nat, p.1 as nat))
}

/// The merge of the first column of a table: equal texts in adjacent cells
/// become one cell that spans their rows.
pub struct MergeDuplicatesVerticalFirst;

impl MergeDuplicatesVerticalFirst {
    /// The row spans to set in the first column whose cells are `cells`, from
    /// the top row down: each as its first row and its number of rows.
    pub fn row_spans(&self, cells: &[FirstColumnCell]) -> (spans: Vec<(usize, usize)>)
        ensures
            span_pairs(spans@) == merged_spans(cells@),
    {
        let n = cells.len();
        let mut spans: Vec<(usize, usize)> = Vec::new();
        if n == 0 {
            assert(span_pairs(spans@) =~= merged_spans(cells@));
            return spans;
        }
        let mut repeat_length: usize = 0;
        let mut repeat_row: usize = 0;
        let mut repeat_is_set = false;
        let mut last_is_row_span = false;
        let ghost mut repeat_value: Seq<char> = Seq::empty();
        assert(span_pairs(spans@) =~= Seq::empty());
        let mut i: usize = n;
        while i > 0
            invariant
                i <= n,
                n == cells@.len(),
                repeat_length <= n - i,
                repeat_is_set ==> repeat_row < n && cells@[repeat_row as int].text@ == repeat_value,
                forall|j: int| 0 <= j < spans@.len() ==> (#[trigger] spans@[j]).0 < n,
                merge_walk(cells@, i as nat) == (MergeWalk {
                    repeat_length: repeat_length as nat,
                    repeat_value,
                    repeat_is_set,
                    last_is_row_span,
                    spans: span_pairs(spans@),
                }),
            decreases i,
        {
            let row = i - 1;
            let ghost before = span_pairs(spans@);
            let cell = &cells[row];
            if last_is_row_span {
                last_is_row_span = false;
            } else if !repeat_is_set {
                if cell.visible && !cell.column_span {
                    repeat_length = 1;
                    repeat_row = row;
                    repeat_is_set = true;
                    proof {
                        repeat_value = cell.text@;
                    }
                }
            } else if cell.column_span {
                repeat_is_set = false;
                last_is_row_span = true;
            } else if !cell.visible {
                repeat_is_set = false;
            } else if cell.text == cells[repeat_row].text {
                repeat_length = repeat_length + 1;
            } else {
                if repeat_length > 1 {
                    spans.push((row + 1, repeat_length));
                    assert(span_pairs(spans@) =~= before.push(((row + 1) as nat, repeat_length as nat)));
                }
                repeat_length = 1;
                repeat_row = row;
                proof {
                    repeat_value = cell.text@;
                }
            }
            i = row;
        }
        if repeat_length > 1 {
            let ghost before = span_pairs(spans@);
            spans.push((0, repeat_length));
            assert(span_pairs(spans@) =~= before.push((0, repeat_length as nat)));
        }
        spans
    }
}

/// The first row of the run of equal texts that ends at row `e`.
pub open spec fn run_top(cells: Seq<FirstColumnCell>, e: int) -> int
    decreases e,
{
    if e > 0 && cells[e - 1].text@ == cells[e].text@ {
        run_top(cells, e - 1)
    } else {
        e
    }
}

/// The last row of the run of equal texts that starts at row `k`.
pub open spec fn run_bottom(cells: Seq<FirstColumnCell>, k: int) -> int
    decreases cells.len() - k,
{
    if 0 <= k && k + 1 < cells.len() && cells[k + 1].text@ == cells[k].text@ {
        run_bottom(cells, k + 1)
    } else {
        k
    }
}

/// The maximal runs of two or more equal texts among rows `lo + 1 ..= e`, as
/// spans (first row, length), from the lowest run up.
pub open spec fn runs_between(cells: Seq<FirstColumnCell>, lo: int, e: int) -> Seq<(nat, nat)>
    decreases e - lo,
{
    if e <= lo {
        Seq::empty()
    } else {
        let t = run_top(cells, e);
        let s = if lo < t <= e {
            t
        } else {
            lo + 1
        };
        let len = e - s + 1;
        (if len >= 2 {
            seq![(s as nat, len as nat)]
        } else {
            Seq::empty()
        }) + runs_between(cells, lo, s - 1)
    }
}

/// One span for each maximal run of two or more equal texts in the column, at
/// the run's first row, from the lowest run up.
pub open spec fn equal_runs(cells: Seq<FirstColumnCell>) -> Seq<(nat, nat)> {
    runs_between(cells, -1, cells.len() - 1)
}

/// Every cell is visible and spans no columns.
pub open spec fn all_plain(cells: Seq<FirstColumnCell>) -> bool {
    forall|i: int| 0 <= i < cells.len() ==> (#[trigger] cells[i]).visible && !cells[i].column_span
}

proof fn lemma_run_top_within(cells: Seq<FirstColumnCell>, e: int)
    requires
        0 <= e,
    ensures
        0 <= run_top(cells, e) <= e,
    decreases e,
{
    if e > 0 && cells[e - 1].text@ == cells[e].text@ {
        lemma_run_top_within(cells, e - 1);
    }
}

proof fn lemma_run_top_equal(cells: Seq<FirstColumnCell>, lo: int, e: int)
    requires
        -1 <= lo < e < cells.len(),
        forall|i: int| lo < i <= e ==> (#[trigger] cells[i]).text@ == cells[e].text@,
    ensures
        run_top(cells, e) <= lo + 1,
    decreases e,
{
    lemma_run_top_within(cells, e);
    if e > lo + 1 {
        assert(cells[e - 1].text@ == cells[e].text@);
        assert forall|i: int| lo < i <= e - 1 implies (#[trigger] cells[i]).text@ == cells[e
            - 1].text@ by {}
        lemma_run_top_equal(cells, lo, e - 1);
    }
}

proof fn lemma_run_top_boundary(cells: Seq<FirstColumnCell>, b: int, e: int)
    requires
        0 <= b < e < cells.len(),
        cells[b + 1].text@ != cells[b].text@,
    ensures
        b < run_top(cells, e) <= e,
    decreases e,
{
    lemma_run_top_within(cells, e);
    if cells[e - 1].text@ == cells[e].text@ {
        if e - 1 > b {
            lemma_run_top_boundary(cells, b, e - 1);
        }
    }
}

proof fn lemma_run_top(cells: Seq<FirstColumnCell>, lo: int, b: int, e: int)
    requires
        -1 <= lo < b <= e < cells.len(),
        forall|i: int| lo < i <= b ==> (#[trigger] cells[i]).text@ == cells[b].text@,
        b < e ==> cells[b + 1].text@ != cells[b].text@,
    ensures
        b == e ==> run_top(cells, e) <= lo + 1,
        b < e ==> b < run_top(cells, e) <= e,
        run_top(cells, e) <= e,
{
    lemma_run_top_within(cells, e);
    if b == e {
        lemma_run_top_equal(cells, lo, e);
    } else {
        lemma_run_top_boundary(cells, b, e);
    }
}

/// Splitting off the top run of `lo + 1 ..= e`: the rows `lo + 1 ..= b` that
/// hold one text.
proof fn lemma_runs_between_split(cells: Seq<FirstColumnCell>, lo: int, b: int, e: int)
    requires
        -1 <= lo < b <= e < cells.len(),
        forall|i: int| lo < i <= b ==> (#[trigger] cells[i]).text@ == cells[b].text@,
        b < e ==> cells[b + 1].text@ != cells[b].text@,
    ensures
        runs_between(cells, lo, e) == runs_between(cells, b, e) + if b - lo >= 2 {
            seq![((lo + 1) as nat, (b - lo) as nat)]
        } else {
            Seq::empty()
        },
    decreases e - b,
{
    lemma_run_top(cells, lo, b, e);
    let t = run_top(cells, e);
    if b == e {
        assert(runs_between(cells, lo, lo) == Seq::<(nat, nat)>::empty());
        assert(runs_between(cells, b, e) == Seq::<(nat, nat)>::empty());
        if b - lo >= 2 {
            assert(runs_between(cells, lo, e) =~= seq![((lo + 1) as nat, (b - lo) as nat)]);
        } else {
            assert(runs_between(cells, lo, e) =~= Seq::<(nat, nat)>::empty());
        }
    } else {
        lemma_runs_between_split(cells, lo, b, t - 1);
        let here = if e - t + 1 >= 2 {
            seq![(t as nat, (e - t + 1) as nat)]
        } else {
            Seq::<(nat, nat)>::empty()
        };
        assert(runs_between(cells, lo, e) == here + runs_between(cells, lo, t - 1));
        assert(runs_between(cells, b, e) == here + runs_between(cells, b, t - 1));
        assert(runs_between(cells, lo, e) =~= runs_between(cells, b, e) + if b - lo >= 2 {
            seq![((lo + 1) as nat, (b - lo) as nat)]
        } else {
            Seq::empty()
        });
    }
}

proof fn lemma_run_bottom(cells: Seq<FirstColumnCell>, k: int)
    requires
        0 <= k < cells.len(),
    ensures
        k <= run_bottom(cells, k) < cells.len(),
        forall|i: int| k <= i <= run_bottom(cells, k) ==> (#[trigger] cells[i]).text@ == cells[k].text@,
        run_bottom(cells, k) + 1 < cells.len() ==> cells[run_bottom(cells, k) + 1].text@
            != cells[run_bottom(cells, k)].text@,
    decreases cells.len() - k,
{
    if k + 1 < cells.len() && cells[k + 1].text@ == cells[k].text@ {
        lemma_run_bottom(cells, k + 1);
    }
}

/// In a column of visible cells that span no columns, the walk at row `k`
/// has a run under way from `k` to the end of its equal texts, and has set
/// the spans of the runs below that.
proof fn lemma_merge_walk_plain(cells: Seq<FirstColumnCell>, k: int)
    requires
        all_plain(cells),
        0 <= k < cells.len(),
    ensures
        merge_walk(cells, k as nat) == (MergeWalk {
            repeat_length: (run_bottom(cells, k) - k + 1) as nat,
            repeat_value: cells[k].text@,
            repeat_is_set: true,
            last_is_row_span: false,
            spans: runs_between(cells, run_bottom(cells, k), cells.len() - 1),
        }),
    decreases cells.len() - k,
{
    let n = cells.len() as int;
    lemma_run_bottom(cells, k);
    assert(cells[k].visible && !cells[k].column_span);
    if k == n - 1 {
        assert(merge_walk(cells, (k + 1) as nat) == merge_start());
        assert(runs_between(cells, n - 1, n - 1) == Seq::<(nat, nat)>::empty());
    } else {
        lemma_merge_walk_plain(cells, k + 1);
        lemma_run_bottom(cells, k + 1);
        let b1 = run_bottom(cells, k + 1);
        if cells[k].text@ != cells[k + 1].text@ {
            lemma_runs_between_split(cells, k, b1, n - 1);
            assert(run_bottom(cells, k) == k);
            let p = merge_walk(cells, (k + 1) as nat);
            if p.repeat_length > 1 {
                assert(p.spans.push(((k + 1) as nat, p.repeat_length)) =~= runs_between(
                    cells,
                    b1,
                    n - 1,
                ) + seq![((k + 1) as nat, (b1 - k) as nat)]);
            } else {
                assert(runs_between(cells, k, n - 1) =~= runs_between(cells, b1, n - 1));
            }
        }
    }
}

/// In a column whose cells are all visible and span no columns, the merge sets
/// one span for each maximal run of two or more equal texts, at the run's
/// first row, from the lowest run up; and no other span.
pub proof fn lemma_merge_equal_runs(cells: Seq<FirstColumnCell>)
    requires
        all_plain(cells),
    ensures
        merged_spans(cells) == equal_runs(cells),
{
    let n = cells.len() as int;
    if n == 0 {
        assert(equal_runs(cells) == Seq::<(nat, nat)>::empty());
    } else {
        lemma_merge_walk_plain(cells, 0);
        lemma_run_bottom(cells, 0);
        let b = run_bottom(cells, 0);
        lemma_runs_between_split(cells, -1, b, n - 1);
        let w = merge_walk(cells, 0);
        if w.repeat_length > 1 {
            assert(merged_spans(cells) =~= equal_runs(cells));
        } else {
            assert(merged_spans(cells) =~= equal_runs(cells));
        }
    }
}

/// What holds of the walk at row `k`: the run under way covers rows from `k`
/// on, one text among visible cells that span no columns; every span set so
/// far covers such a run of more than one row, lies below the run under way,
/// and lies wholly above the spans set before it.
proof fn lemma_merge_walk(cells: Seq<FirstColumnCell>, k: nat)
    requires
        k <= cells.len(),
    ensures
        ({
            let w = merge_walk(cells, k);
            &&& w.repeat_length <= cells.len() - k
            &&& w.repeat_is_set ==> {
                &&& w.repeat_length >= 1
                &&& uniform_run(cells, k, w.repeat_length)
                &&& cells[k as int].text@ == w.repeat_value
            }
            &&& forall|j: int|
                0 <= j < w.spans.len() ==> {
                    &&& (#[trigger] w.spans[j]).1 >= 2
                    &&& uniform_run(cells, w.spans[j].0, w.spans[j].1)
                    &&& k + w.repeat_length <= w.spans[j].0
                }
            &&& forall|a: int, b: int|
                0 <= a < b < w.spans.len() ==> #[trigger] w.spans[b].0 + w.spans[b].1
                    <= #[trigger] w.spans[a].0
        }),
    decreases cells.len() - k,
{
    if k < cells.len() {
        lemma_merge_walk(cells, k + 1);
        let p = merge_walk(cells, k + 1);
        let w = merge_walk(cells, k);
        let cell = cells[k as int];
        if !p.last_is_row_span && p.repeat_is_set && !cell.column_span && cell.visible {
            if cell.text@ == p.repeat_value {
                assert(uniform_run(cells, k, w.repeat_length)) by {
                    assert forall|i: int| k <= i < k + w.repeat_length implies {
                        &&& (#[trigger] cells[i]).visible
                        &&& !cells[i].column_span
                        &&& cells[i].text@ == cells[k as int].text@
                    } by {
                        if i > k {
                            assert(cells[i].text@ == cells[k + 1int].text@);
                        }
                    }
                }
            } else if p.repeat_length > 1 {
                let n = p.spans.len();
                assert(w.spans[n as int] == ((k + 1) as nat, p.repeat_length));
                assert forall|j: int| 0 <= j < w.spans.len() implies {
                    &&& (#[trigger] w.spans[j]).1 >= 2
                    &&& uniform_run(cells, w.spans[j].0, w.spans[j].1)
                    &&& k + w.repeat_length <= w.spans[j].0
                } by {
                    if j < n {
                        assert(w.spans[j] == p.spans[j]);
                    }
                }
                assert forall|a: int, b: int|
                    0 <= a < b < w.spans.len() implies #[trigger] w.spans[b].0 + w.spans[b].1
                    <= #[trigger] w.spans[a].0 by {
                    assert(w.spans[a] == p.spans[a]);
                    if b < n {
                        assert(w.spans[b] == p.spans[b]);
                    }
                }
            }
        }
    }
}

/// Each row span that the merge sets covers two rows or more of the column,
/// and lies wholly above the spans set before it, so that no two overlap.
/// Each span set while walking up the column covers visible cells that span
/// no columns and hold one text; so does the span set at the top, when a run
/// was still under way there.
pub proof fn lemma_merged_spans(cells: Seq<FirstColumnCell>)
    ensures
        forall|j: int|
            0 <= j < merged_spans(cells).len() ==> {
                &&& (#[trigger] merged_spans(cells)[j]).1 >= 2
                &&& merged_spans(cells)[j].0 + merged_spans(cells)[j].1 <= cells.len()
            },
        forall|a: int, b: int|
            0 <= a < b < merged_spans(cells).len() ==> #[trigger] merged_spans(cells)[b].0
                + merged_spans(cells)[b].1 <= #[trigger] merged_spans(cells)[a].0,
        cells.len() > 0 ==> forall|j: int|
            0 <= j < merged_spans(cells).len() && (j < merge_walk(cells, 0).spans.len()
                || merge_walk(cells, 0).repeat_is_set) ==> uniform_run(
                cells,
                #[trigger] merged_spans(cells)[j].0,
                merged_spans(cells)[j].1,
            ),
{
    if cells.len() > 0 {
        lemma_merge_walk(cells, 0);
        let w = merge_walk(cells, 0);
        let m = merged_spans(cells);
        assert forall|j: int| 0 <= j < w.spans.len() implies m[j] == w.spans[j] by {}
    }
}

/// No benchmark ranks both before and after another.
proof fn lemma_ranks_before_asymmetric(a: BenchmarkExtended, b: BenchmarkExtended)
    ensures
        !(ranks_before(a, b) && ranks_before(b, a)),
{
    if a.function_id@ == b.function_id@ {
        lemma_text_less_irreflexive(a.function_id@);
    } else {
        lemma_ranks_before_total(a, b);
    }
}

proof fn lemma_multiset_insert_cancel(
    m1: vstd::multiset::Multiset<BenchmarkExtended>,
    m2: vstd::multiset::Multiset<BenchmarkExtended>,
    x: BenchmarkExtended,
)
    requires
        m1.insert(x) == m2.insert(x),
    ensures
        m1 == m2,
{
    broadcast use vstd::multiset::group_multiset_axioms;

    assert forall|y: BenchmarkExtended| m1.count(y) == m2.count(y) by {
        let one = vstd::multiset::Multiset::singleton(x);
        assert(m1.insert(x) == m1.add(one) && m2.insert(x) == m2.add(one));
        assert(m1.add(one).count(y) == m1.count(y) + one.count(y));
        assert(m2.add(one).count(y) == m2.count(y) + one.count(y));
    }
    assert(m1 =~= m2);
}

/// Two sequences in ranking order with the same members are the same.
proof fn lemma_sorted_unique(s1: Seq<BenchmarkExtended>, s2: Seq<BenchmarkExtended>)
    requires
        sorted_by_rank(s1),
        sorted_by_rank(s2),
        s1.to_multiset() == s2.to_multiset(),
    ensures
        s1 == s2,
    decreases s1.len(),
{
    assert(s1.len() == s1.to_multiset().len() && s2.len() == s2.to_multiset().len());
    if s1.len() > 0 {
        let n = s1.len() - 1;
        let a = s1[n];
        let b = s2[n];
        assert(s2.to_multiset().count(b) > 0) by {
            assert(s2.contains(b));
        }
        assert(s1.contains(b));
        let j = choose|j: int| 0 <= j < s1.len() && s1[j] == b;
        assert(s1.to_multiset().count(a) > 0) by {
            assert(s1.contains(a));
        }
        assert(s2.contains(a));
        let k = choose|k: int| 0 <= k < s2.len() && s2[k] == a;
        if j < n && k < n {
            assert(ranks_before(s1[j], s1[n]));
            assert(ranks_before(s2[k], s2[n]));
            lemma_ranks_before_asymmetric(a, b);
        }
        assert(a == b);
        let t1 = s1.drop_last();
        let t2 = s2.drop_last();
        assert(t1.push(a) =~= s1);
        assert(t2.push(a) =~= s2);
        lemma_multiset_insert_cancel(t1.to_multiset(), t2.to_multiset(), a);
        assert(sorted_by_rank(t1)) by {
            assert forall|x: int, y: int| 0 <= x < y < t1.len() implies ranks_before(
                #[trigger] t1[x],
                #[trigger] t1[y],
            ) by {
                assert(t1[x] == s1[x] && t1[y] == s1[y]);
            }
        }
        assert(sorted_by_rank(t2)) by {
            assert forall|x: int, y: int| 0 <= x < y < t2.len() implies ranks_before(
                #[trigger] t2[x],
                #[trigger] t2[y],
            ) by {
                assert(t2[x] == s2[x] && t2[y] == s2[y]);
            }
        }
        lemma_sorted_unique(t1, t2);
        assert(s1 =~= s2);
    }
}

proof fn lemma_grouped_drop_last(g: Seq<Seq<BenchmarkExtended>>)
    requires
        grouped_by_score(g),
        g.len() > 0,
    ensures
        grouped_by_score(g.drop_last()),
{
    let h = g.drop_last();
    assert forall|i: int| 0 <= i < h.len() implies #[trigger] h[i] == g[i] by {}
}

proof fn lemma_concat_last(g: Seq<Seq<BenchmarkExtended>>)
    requires
        grouped_by_score(g),
        g.len() > 0,
    ensures
        concat_groups(g).len() > 0,
        concat_groups(g).last() == g.last().last(),
        concat_groups(g).last().score == g.last()[0].score,
{
    let c = concat_groups(g);
    assert(g.last() == g[g.len() - 1]);
    assert(c == concat_groups(g.drop_last()) + g.last());
    assert(c.last() == g.last()[g.last().len() - 1]);
}

/// Groups of strictly falling scores, each holding one score, are fixed by
/// the sequence that they make one after another.
proof fn lemma_groups_unique(g1: Seq<Seq<BenchmarkExtended>>, g2: Seq<Seq<BenchmarkExtended>>)
    requires
        grouped_by_score(g1),
        grouped_by_score(g2),
        concat_groups(g1) == concat_groups(g2),
    ensures
        g1 == g2,
    decreases g1.len() + g2.len(),
{
    let s = concat_groups(g1);
    if g1.len() == 0 || g2.len() == 0 {
        if g1.len() > 0 {
            lemma_concat_last(g1);
        }
        if g2.len() > 0 {
            lemma_concat_last(g2);
        }
        assert(g1 =~= g2);
    } else {
        let l1 = g1.last();
        let l2 = g2.last();
        let p1 = g1.drop_last();
        let p2 = g2.drop_last();
        let c1 = concat_groups(p1);
        let c2 = concat_groups(p2);
        assert(s == c1 + l1);
        assert(s == c2 + l2);
        assert(l1 == g1[g1.len() - 1] && l2 == g2[g2.len() - 1]);
        lemma_concat_last(g1);
        lemma_concat_last(g2);
        let sigma = s.last().score;
        assert forall|i: int| 0 <= i < l1.len() implies (#[trigger] l1[i]).score == sigma by {
            assert(l1[i].score == l1[0].score);
        }
        assert forall|i: int| 0 <= i < l2.len() implies (#[trigger] l2[i]).score == sigma by {
            assert(l2[i].score == l2[0].score);
        }
        if l1.len() < l2.len() {
            // the member just above the last group of g1 lies in the last group of g2
            assert(p1.len() > 0) by {
                if p1.len() == 0 {
                    assert(c1.len() == 0);
                }
            }
            lemma_grouped_drop_last(g1);
            lemma_concat_last(p1);
            assert(p1.last() == g1[g1.len() - 2]);
            assert(g1[g1.len() - 2][0].score > g1[g1.len() - 1][0].score);
            let q = s.len() - l1.len() - 1;
            assert(s[q] == c1.last());
            assert(s[q] == l2[q - c2.len()]);
            assert(false);
        }
        if l2.len() < l1.len() {
            assert(p2.len() > 0) by {
                if p2.len() == 0 {
                    assert(c2.len() == 0);
                }
            }
            lemma_grouped_drop_last(g2);
            lemma_concat_last(p2);
            assert(p2.last() == g2[g2.len() - 2]);
            assert(g2[g2.len() - 2][0].score > g2[g2.len() - 1][0].score);
            let q = s.len() - l2.len() - 1;
            assert(s[q] == c2.last());
            assert(s[q] == l1[q - c1.len()]);
            assert(false);
        }
        assert(l1 =~= s.subrange(c1.len() as int, s.len() as int));
        assert(l2 =~= s.subrange(c2.len() as int, s.len() as int));
        assert(c1 =~= s.subrange(0, c1.len() as int));
        assert(c2 =~= s.subrange(0, c2.len() as int));
        lemma_grouped_drop_last(g1);
        lemma_grouped_drop_last(g2);
        lemma_groups_unique(p1, p2);
        assert(g1 =~= p1.push(l1));
        assert(g2 =~= p2.push(l2));
    }
}

/// The ranking of a set of benchmarks is unique: any two rankings of the same
/// entries are the same groups in the same order, for scores, latencies and
/// function ids leave no two benchmarks tied.
pub proof fn lemma_ranking_unique(
    g1: Seq<Seq<BenchmarkExtended>>,
    g2: Seq<Seq<BenchmarkExtended>>,
    entries: Seq<BenchmarkExtended>,
)
    requires
        is_ranking_of(g1, entries),
        is_ranking_of(g2, entries),
    ensures
        g1 == g2,
{
    lemma_sorted_unique(concat_groups(g1), concat_groups(g2));
    lemma_groups_unique(g1, g2);
}

} // verus!
