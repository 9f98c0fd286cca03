//! Fuzzy subsequence scoring.
//!
//! Scores how well a short pattern matches a candidate string (the "choice")
//! as a case-insensitive subsequence, and returns the character positions of
//! the best-scoring alignment.  Matches at word separators, camel-case
//! transitions and early positions are rewarded; leading and intervening
//! unmatched characters are penalised.

use vstd::prelude::*;

verus! {

/// Bonus for two chosen choice positions that are directly adjacent.
pub const BONUS_ADJACENCY: i32 = 5;
/// Bonus for a match right after a separator character (and for position 0).
pub const BONUS_SEPARATOR: i32 = 10;
/// Bonus for a match on a camel-case transition.
pub const BONUS_CAMEL: i32 = 10;
/// Penalty per character before the first matched position.
pub const PENALTY_LEADING: i32 = -3;
/// Cap on the accumulated leading penalty.
pub const PENALTY_MAX_LEADING: i32 = -9;
/// Penalty per unmatched character between two chosen positions.
pub const PENALTY_UNMATCHED: i32 = -1;

/// Largest supported choice length (in characters) for a non-empty pattern;
/// keeps every intermediate score within `i32`.
pub const MAX_CHOICE_LEN: usize = 80000000;

/// The lowercase mapping of a character (its first scalar value).
pub uninterp spec fn lower_char(c: char) -> char;

/// Whether a character counts as lowercase.
pub uninterp spec fn is_lowercase_char(c: char) -> bool;

/// Whether a character counts as uppercase.
pub uninterp spec fn is_uppercase_char(c: char) -> bool;

/// Relies on char::to_lowercase: the lowercase mapping of a character,
/// a function of the character alone; its first scalar value is taken
/// (the iterator always yields at least one).
#[verifier::external_body]
fn to_lowercase_char(c: char) -> (r: char)
    ensures
        r == lower_char(c),
{
    c.to_lowercase().next().unwrap()
}

/// Relies on char::is_lowercase: whether the character is lowercase,
/// a function of the character alone.
#[verifier::external_body]
fn char_is_lowercase(c: char) -> (r: bool)
    ensures
        r == is_lowercase_char(c),
{
    c.is_lowercase()
}

/// Relies on char::is_uppercase: whether the character is uppercase,
/// a function of the character alone.
#[verifier::external_body]
fn char_is_uppercase(c: char) -> (r: bool)
    ensures
        r == is_uppercase_char(c),
{
    c.is_uppercase()
}

/// The case-folded view of a character sequence.
pub open spec fn fold_chars_spec(s: Seq<char>) -> Seq<char> {
    s.map_values(|c: char| lower_char(c))
}

/// The characters treated as word separators.
pub open spec fn is_separator(c: char) -> bool {
    c == ' ' || c == '_' || c == '-' || c == '/' || c == '\\'
}

/// The intrinsic positional bonus of matching the choice at position `i`.
/// Position 0 gets the separator bonus and nothing else.  Elsewhere a
/// separator just before, or a camel-case transition, each add a bonus, and
/// while placing the first pattern character a capped leading penalty applies.
pub open spec fn bonus_spec(choice: Seq<char>, i: int, is_first: bool) -> int
    recommends
        0 <= i < choice.len(),
{
    if i == 0 {
        BONUS_SEPARATOR as int
    } else {
        (if is_separator(choice[i - 1]) {
            BONUS_SEPARATOR as int
        } else {
            0
        }) + (if is_lowercase_char(choice[i - 1]) && is_uppercase_char(choice[i]) {
            BONUS_CAMEL as int
        } else {
            0
        }) + (if is_first {
            vstd::math::max((PENALTY_LEADING as int) * i, PENALTY_MAX_LEADING as int)
        } else {
            0
        })
    }
}

/// The score contribution of stepping from chosen position `prev` to the
/// next chosen position `next`: a fixed bonus when they are adjacent, and
/// otherwise a penalty per skipped character.
pub open spec fn adjacency_term(prev: int, next: int) -> int {
    if next == prev + 1 {
        BONUS_ADJACENCY as int
    } else {
        (PENALTY_UNMATCHED as int) * (next - prev - 1)
    }
}

/// `a` aligns the first `m` pattern characters (of the case-folded pattern
/// `fp`) inside the case-folded choice `fc`: one strictly increasing,
/// in-range choice position per pattern position, with equal characters.
pub open spec fn is_partial_alignment(fc: Seq<char>, fp: Seq<char>, m: int, a: Seq<int>) -> bool {
    &&& 0 <= m <= fp.len()
    &&& a.len() == m
    &&& (forall|i: int| 0 <= i < m ==> 0 <= #[trigger] a[i] < fc.len() && fc[a[i]] == fp[i])
    &&& (forall|i: int| 0 < i < m ==> a[i - 1] < #[trigger] a[i])
}

/// `a` aligns the whole pattern.
pub open spec fn is_alignment(fc: Seq<char>, fp: Seq<char>, a: Seq<int>) -> bool {
    is_partial_alignment(fc, fp, fp.len() as int, a)
}

/// The accumulated score of every chosen position after the first: its own
/// intrinsic bonus plus the adjacency term from its predecessor.
pub open spec fn link_score(choice: Seq<char>, a: Seq<int>) -> int
    decreases a.len(),
{
    if a.len() <= 1 {
        0
    } else {
        bonus_spec(choice, a[1], false) + adjacency_term(a[0], a[1]) + link_score(
            choice,
            a.drop_first(),
        )
    }
}

/// How ties between equal-scoring alignments resolve, from the back: `suf`
/// stands for the chosen positions of pattern positions `k` and later, and
/// no alignment `a` of the whole pattern with score `total` that agrees with
/// `suf` strictly after some position `kk` sits below `suf` at `kk` itself.
/// With `k == 0` this says the returned alignment is position-wise least
/// among the maximum-score alignments, resolved from the last position
/// backwards.
pub open spec fn tail_is_least(
    choice: Seq<char>,
    fc: Seq<char>,
    fp: Seq<char>,
    suf: Seq<int>,
    k: int,
    total: int,
) -> bool {
    forall|a: Seq<int>, kk: int|
        #![trigger alignment_score(choice, a), suf[kk - k]]
        is_alignment(fc, fp, a) && alignment_score(choice, a) == total && k <= kk < fp.len() && (
        forall|j: int| kk < j < fp.len() ==> a[j] == suf[j - k]) ==> a[kk] >= suf[kk - k]
}

/// The total score of an alignment: the first chosen position's intrinsic
/// bonus (with the leading penalty applicable) plus all link contributions.
pub open spec fn alignment_score(choice: Seq<char>, a: Seq<int>) -> int {
    if a.len() == 0 {
        0
    } else {
        bonus_spec(choice, a[0], true) + link_score(choice, a)
    }
}

/// The position of the first occurrence of `c` in `fc` at or after `j`.
pub open spec fn first_at_or_after(fc: Seq<char>, c: char, j: int) -> Option<int>
    recommends
        0 <= j,
    decreases fc.len() - j,
{
    if j < 0 || j >= fc.len() {
        None
    } else if fc[j] == c {
        Some(j)
    } else {
        first_at_or_after(fc, c, j + 1)
    }
}

/// Whether the pattern characters from `k` on can be placed by the
/// generator's threshold rule when every position must lie strictly after
/// `lo`: each pattern character takes positions after the FIRST admissible
/// position of the one before.
pub open spec fn greedy_matches_from(fc: Seq<char>, fp: Seq<char>, k: int, lo: int) -> bool
    recommends
        0 <= k <= fp.len(),
        -1 <= lo,
    decreases fp.len() - k,
{
    if k < 0 || k >= fp.len() {
        true
    } else {
        match first_at_or_after(fc, fp[k], lo + 1) {
            Some(j) => greedy_matches_from(fc, fp, k + 1, j),
            None => false,
        }
    }
}

/// Whether the whole case-folded pattern is placeable under the generator's
/// first-candidate threshold rule.
pub open spec fn greedy_matches(fc: Seq<char>, fp: Seq<char>) -> bool {
    greedy_matches_from(fc, fp, 0, -1)
}

/// What a `Some` or `None` of `first_at_or_after` means.
proof fn lemma_first_at_or_after(fc: Seq<char>, c: char, j: int)
    requires
        0 <= j,
    ensures
        first_at_or_after(fc, c, j) matches Some(w) ==> j <= w < fc.len() && fc[w] == c && (forall|
            i: int,
        | j <= i < w ==> fc[i] != c),
        first_at_or_after(fc, c, j) is None ==> forall|i: int| j <= i < fc.len() ==> fc[i] != c,
    decreases fc.len() - j,
{
    if j < fc.len() && fc[j] != c {
        lemma_first_at_or_after(fc, c, j + 1);
    }
}

/// A greedy placement of the pattern characters from `k` on, after `lo`,
/// yields an alignment of those characters.
#[verifier::rlimit(100)]
proof fn lemma_greedy_gives_alignment(fc: Seq<char>, fp: Seq<char>, k: int, lo: int) -> (a: Seq<
    int,
>)
    requires
        0 <= k <= fp.len(),
        -1 <= lo,
        greedy_matches_from(fc, fp, k, lo),
    ensures
        a.len() == fp.len() - k,
        forall|i: int| 0 <= i < a.len() ==> lo < #[trigger] a[i] < fc.len() && fc[a[i]] == fp[k + i],
        forall|i: int| 0 < i < a.len() ==> a[i - 1] < #[trigger] a[i],
    decreases fp.len() - k,
{
    if k == fp.len() {
        Seq::<int>::empty()
    } else {
        let w = first_at_or_after(fc, fp[k], lo + 1)->Some_0;
        lemma_first_at_or_after(fc, fp[k], lo + 1);
        let rest = lemma_greedy_gives_alignment(fc, fp, k + 1, w);
        let a = seq![w] + rest;
        assert(forall|i: int| 0 < i < a.len() ==> a[i] == rest[i - 1]);
        a
    }
}

/// Any alignment of the pattern characters from `k` on, sitting strictly
/// after `lo`, is found by the greedy placement: the first admissible
/// position is a lower bound on the alignment's own, so advancing to it
/// never skips past an alignment.
#[verifier::rlimit(100)]
proof fn lemma_alignment_gives_greedy(fc: Seq<char>, fp: Seq<char>, k: int, lo: int, a: Seq<int>)
    requires
        0 <= k <= fp.len(),
        -1 <= lo,
        a.len() == fp.len() - k,
        forall|i: int| 0 <= i < a.len() ==> 0 <= #[trigger] a[i] < fc.len() && fc[a[i]] == fp[k + i],
        forall|i: int| 0 < i < a.len() ==> a[i - 1] < #[trigger] a[i],
        a.len() > 0 ==> lo < a[0],
    ensures
        greedy_matches_from(fc, fp, k, lo),
    decreases fp.len() - k,
{
    if k < fp.len() {
        lemma_first_at_or_after(fc, fp[k], lo + 1);
        assert(fc[a[0]] == fp[k]);
        let res = first_at_or_after(fc, fp[k], lo + 1);
        if res is None {
            assert(fc[a[0]] != fp[k]);
            assert(false);
        }
        let w = res->Some_0;
        assert(w <= a[0]) by {
            if a[0] < w {
                assert(fc[a[0]] != fp[k]);
            }
        }
        let rest = a.drop_first();
        assert(forall|i: int| 0 <= i < rest.len() ==> rest[i] == a[i + 1]);
        if rest.len() > 0 {
            assert(rest[0] == a[1] > a[0] >= w);
        }
        lemma_alignment_gives_greedy(fc, fp, k + 1, w, rest);
    }
}

/// The generator's first-candidate threshold rule is exactly subsequence
/// existence: the non-empty pattern is placeable under the rule if and only
/// if some strictly increasing, case-folded alignment exists at all.  The
/// rule prunes candidates, never alignments, because every alignment keeps
/// each of its positions at or above the greedy one.
pub proof fn lemma_threshold_rule_is_existence(fc: Seq<char>, fp: Seq<char>)
    ensures
        greedy_matches(fc, fp) <==> exists|a: Seq<int>| is_alignment(fc, fp, a),
{
    if greedy_matches(fc, fp) {
        let a = lemma_greedy_gives_alignment(fc, fp, 0, -1);
        assert(is_alignment(fc, fp, a));
    }
    if exists|a: Seq<int>| is_alignment(fc, fp, a) {
        let a = choose|a: Seq<int>| is_alignment(fc, fp, a);
        lemma_alignment_gives_greedy(fc, fp, 0, -1, a);
    }
}

/// The intrinsic bonus of matching `string` at `index`; `is_first` marks the
/// search for the first pattern character, where the leading penalty applies.
pub fn fuzzy_score(string: &Vec<char>, index: usize, is_first: bool) -> (score: i32)
    requires
        index < string@.len(),
    ensures
        score as int == bonus_spec(string@, index as int, is_first),
{
    if index == 0 {
        return BONUS_SEPARATOR;
    }
    let mut score: i32 = 0;
    let prev = string[index - 1];
    let cur = string[index];
    if prev == ' ' || prev == '_' || prev == '-' || prev == '/' || prev == '\\' {
        score += BONUS_SEPARATOR;
    }
    if char_is_lowercase(prev) && char_is_uppercase(cur) {
        score += BONUS_CAMEL;
    }
    if is_first {
        if index >= 3 {
            score += PENALTY_MAX_LEADING;
        } else {
            score += PENALTY_LEADING * (index as i32);
        }
    }
    score
}

/// The intrinsic bonus always lies between the leading-penalty cap and the
/// sum of the two fixed bonuses.
proof fn lemma_bonus_range(choice: Seq<char>, i: int, is_first: bool)
    requires
        0 <= i < choice.len(),
    ensures
        -9 <= bonus_spec(choice, i, is_first) <= 20,
        !is_first ==> 0 <= bonus_spec(choice, i, is_first),
{
}

/// The characters of a string slice, as a vector.
#[verifier::loop_isolation(false)]
fn chars_of(s: &str) -> (r: Vec<char>)
    ensures
        r@ == s@,
{
    let n = s.unicode_len();
    let mut r: Vec<char> = Vec::new();
    let mut i: usize = 0;
    while i < n
        invariant
            i <= n,
            r@ =~= s@.take(i as int),
        decreases n - i,
    {
        r.push(s.get_char(i));
        i += 1;
    }
    assert(r@ =~= s@);
    r
}

/// The case-folded copy of a character vector.
#[verifier::loop_isolation(false)]
fn fold_chars(v: &Vec<char>) -> (r: Vec<char>)
    ensures
        r@ == fold_chars_spec(v@),
{
    let n = v.len();
    let mut r: Vec<char> = Vec::new();
    let mut i: usize = 0;
    while i < n
        invariant
            i <= n,
            r@.len() == i,
            forall|j: int| 0 <= j < i ==> r@[j] == lower_char(v@[j]),
        decreases n - i,
    {
        r.push(to_lowercase_char(v[i]));
        i += 1;
    }
    assert(r@ =~= fold_chars_spec(v@));
    r
}

/// One possible placement of a single pattern character: a choice position,
/// a score (the intrinsic bonus until combination, the best accumulated score
/// after it) and the row position of the chosen predecessor.
#[derive(Clone, Copy)]
struct Candidate {
    idx: usize,
    score: i32,
    back: usize,
}

/// The exclusive lower bound on choice positions admitted into row `k`:
/// below every position for the first row, afterwards the position of the
/// previous row's first candidate.
spec fn threshold_of(rows: Seq<Vec<Candidate>>, k: int) -> int {
    if k == 0 {
        -1
    } else {
        rows[k - 1]@[0].idx as int
    }
}

/// Some candidate of `row` sits at choice position `j`.
spec fn row_has_idx(row: Seq<Candidate>, j: int) -> bool {
    exists|p: int| 0 <= p < row.len() && #[trigger] row[p].idx == j
}

/// Row `k` is exactly the nonempty, strictly ascending list of the choice
/// positions above its threshold whose folded character is `fp[k]`.
spec fn row_wf(fc: Seq<char>, fp: Seq<char>, rows: Seq<Vec<Candidate>>, k: int) -> bool {
    let row = rows[k]@;
    &&& row.len() > 0
    &&& (forall|p: int|
        0 <= p < row.len() ==> (#[trigger] row[p].idx as int) < fc.len() && fc[row[p].idx as int]
            == fp[k] && row[p].idx as int > threshold_of(rows, k))
    &&& (forall|p: int, q: int|
        0 <= p < q < row.len() ==> (#[trigger] row[p].idx) < (#[trigger] row[q].idx))
    &&& (forall|j: int|
        threshold_of(rows, k) < j < fc.len() && #[trigger] fc[j] == fp[k] ==> row_has_idx(row, j))
}

/// The first `upto` rows are well formed.
spec fn rows_wf(fc: Seq<char>, fp: Seq<char>, rows: Seq<Vec<Candidate>>, upto: int) -> bool {
    forall|k: int| 0 <= k < upto ==> row_wf(fc, fp, rows, k)
}

/// Every candidate of row `k` still carries its intrinsic bonus.
spec fn row_intrinsic(choice: Seq<char>, rows: Seq<Vec<Candidate>>, k: int) -> bool {
    forall|p: int|
        0 <= p < rows[k]@.len() ==> (#[trigger] rows[k]@[p].score) as int == bonus_spec(
            choice,
            rows[k]@[p].idx as int,
            k == 0,
        )
}

/// A position present in a strictly ascending row is at least the first one.
proof fn lemma_member_ge_first(row: Seq<Candidate>, j: int)
    requires
        row.len() > 0,
        forall|p: int, q: int|
            0 <= p < q < row.len() ==> (#[trigger] row[p].idx) < (#[trigger] row[q].idx),
        row_has_idx(row, j),
    ensures
        j >= row[0].idx,
{
    let p = choose|p: int| 0 <= p < row.len() && #[trigger] row[p].idx == j;
    if p > 0 {
        assert(row[0].idx < row[p].idx);
    }
}

/// Thresholds advance strictly, so row `k`'s first position is at least `k`.
proof fn lemma_first_idx_at_least(fc: Seq<char>, fp: Seq<char>, rows: Seq<Vec<Candidate>>, k: int)
    requires
        0 <= k < rows.len(),
        forall|i: int| 0 <= i <= k ==> row_wf(fc, fp, rows, i),
    ensures
        rows[k]@[0].idx >= k,
    decreases k,
{
    assert(row_wf(fc, fp, rows, k));
    if k > 0 {
        lemma_first_idx_at_least(fc, fp, rows, k - 1);
        assert(rows[k]@[0].idx as int > threshold_of(rows, k));
    }
}

/// Every partial alignment runs through the rows: its position for pattern
/// position `i` is a member of row `i`, hence at least that row's first
/// position.  This is why the first-candidate threshold rule loses no
/// alignment: each alignment position already lies above the threshold.
proof fn lemma_alignment_in_rows(
    fc: Seq<char>,
    fp: Seq<char>,
    rows: Seq<Vec<Candidate>>,
    a: Seq<int>,
    m: int,
)
    requires
        0 <= m <= rows.len(),
        m <= a.len(),
        forall|k: int| 0 <= k < m ==> row_wf(fc, fp, rows, k),
        forall|i: int| 0 <= i < a.len() ==> 0 <= #[trigger] a[i] < fc.len(),
        forall|i: int| 0 <= i < m ==> #[trigger] fc[a[i]] == fp[i],
        forall|i: int| 0 < i < a.len() ==> a[i - 1] < #[trigger] a[i],
    ensures
        forall|i: int|
            0 <= i < m ==> row_has_idx(rows[i]@, #[trigger] a[i]) && a[i] >= rows[i]@[0].idx,
    decreases m,
{
    if m > 0 {
        lemma_alignment_in_rows(fc, fp, rows, a, m - 1);
        let i = m - 1;
        assert(row_wf(fc, fp, rows, i));
        assert(fc[a[i]] == fp[i]);
        if i == 0 {
            assert(a[0] > threshold_of(rows, 0));
        } else {
            assert(a[i] > a[i - 1] >= rows[i - 1]@[0].idx);
        }
        assert(threshold_of(rows, i) < a[i] < fc.len());
        assert(row_has_idx(rows[i]@, a[i]));
        lemma_member_ge_first(rows[i]@, a[i]);
    }
}

/// The combined score of extending predecessor candidate `prev` with a match
/// of the next pattern character at choice position `idx`.
spec fn link_value(choice: Seq<char>, prev: Candidate, idx: int) -> int {
    prev.score + bonus_spec(choice, idx, false) + adjacency_term(prev.idx as int, idx)
}

/// No alignment of the first `k + 1` pattern characters that ends at this
/// candidate's position scores above the candidate's stored score.
spec fn dominates(choice: Seq<char>, fc: Seq<char>, fp: Seq<char>, k: int, c: Candidate) -> bool {
    forall|a: Seq<int>|
        is_partial_alignment(fc, fp, k + 1, a) && a[k] == c.idx as int
            ==> #[trigger] alignment_score(choice, a) <= c.score as int
}

/// The candidate's stored score is the combined score through the
/// predecessor that its back pointer records, and that predecessor is the
/// FIRST of the previous row to reach this score: every earlier one combines
/// strictly below it.
spec fn back_wf(choice: Seq<char>, prev_row: Seq<Candidate>, c: Candidate) -> bool {
    &&& (c.back as int) < prev_row.len()
    &&& (prev_row[c.back as int].idx as int) < c.idx as int
    &&& c.score as int == link_value(choice, prev_row[c.back as int], c.idx as int)
    &&& (forall|q: int|
        0 <= q < c.back as int ==> link_value(choice, #[trigger] prev_row[q], c.idx as int)
            < c.score as int)
}

/// Combined row `k` carries correct, bounded scores: each dominates every
/// alignment ending at its position, row 0 keeps intrinsic bonuses, and
/// later rows record a consistent back pointer into the previous row.
spec fn comb_row_wf(
    choice: Seq<char>,
    fc: Seq<char>,
    fp: Seq<char>,
    comb: Seq<Vec<Candidate>>,
    k: int,
) -> bool {
    let row = comb[k]@;
    &&& (forall|p: int| 0 <= p < row.len() ==> dominates(choice, fc, fp, k, #[trigger] row[p]))
    &&& (forall|p: int|
        0 <= p < row.len() ==> -9 - ((#[trigger] row[p]).idx as int) <= row[p].score as int <= 25
            * k + 20)
    &&& (if k == 0 {
        forall|p: int|
            0 <= p < row.len() ==> ((#[trigger] row[p]).score) as int == bonus_spec(
                choice,
                row[p].idx as int,
                true,
            )
    } else {
        forall|p: int| 0 <= p < row.len() ==> back_wf(choice, comb[k - 1]@, #[trigger] row[p])
    })
}

/// Link contributions split off at the last chosen position.
proof fn lemma_link_score_snoc(choice: Seq<char>, a: Seq<int>)
    requires
        a.len() >= 2,
    ensures
        link_score(choice, a) == link_score(choice, a.drop_last()) + bonus_spec(
            choice,
            a[a.len() - 1],
            false,
        ) + adjacency_term(a[a.len() - 2], a[a.len() - 1]),
    decreases a.len(),
{
    reveal_with_fuel(link_score, 3);
    if a.len() == 2 {
        assert(a.drop_last().len() == 1);
        assert(a.drop_first().len() == 1);
    } else {
        let d = a.drop_first();
        let adl = a.drop_last();
        lemma_link_score_snoc(choice, d);
        assert(d[d.len() - 1] == a[a.len() - 1]);
        assert(d[d.len() - 2] == a[a.len() - 2]);
        assert(link_score(choice, a) == bonus_spec(choice, a[1], false) + adjacency_term(
            a[0],
            a[1],
        ) + link_score(choice, d));
        assert(adl[0] == a[0] && adl[1] == a[1]);
        assert(link_score(choice, adl) == bonus_spec(choice, adl[1], false) + adjacency_term(
            adl[0],
            adl[1],
        ) + link_score(choice, adl.drop_first()));
        assert(adl.drop_first() =~= d.drop_last());
    }
}

/// The alignment score grows by one intrinsic bonus and one adjacency term
/// when the last chosen position is split off.
proof fn lemma_alignment_score_snoc(choice: Seq<char>, a: Seq<int>)
    requires
        a.len() >= 2,
    ensures
        alignment_score(choice, a) == alignment_score(choice, a.drop_last()) + bonus_spec(
            choice,
            a[a.len() - 1],
            false,
        ) + adjacency_term(a[a.len() - 2], a[a.len() - 1]),
{
    lemma_link_score_snoc(choice, a);
    assert(a.drop_last()[0] == a[0]);
}

/// Link contributions split off at the first chosen position.
proof fn lemma_link_score_prepend(choice: Seq<char>, x: int, a: Seq<int>)
    requires
        a.len() >= 1,
    ensures
        link_score(choice, seq![x] + a) == bonus_spec(choice, a[0], false) + adjacency_term(
            x,
            a[0],
        ) + link_score(choice, a),
{
    assert((seq![x] + a).drop_first() =~= a);
    assert((seq![x] + a)[0] == x && (seq![x] + a)[1] == a[0]);
}

/// Candidate generation: scans the folded choice once per pattern character,
/// collecting every position above the advancing threshold that matches it,
/// each with its intrinsic bonus.  Returns `None` as soon as a pattern
/// character has no admissible position; no alignment exists then.
#[verifier::loop_isolation(false)]
fn build_rows(choice: &Vec<char>, fc: &Vec<char>, fp: &Vec<char>) -> (res: Option<
    Vec<Vec<Candidate>>,
>)
    requires
        fc@.len() == choice@.len(),
        fp@.len() > 0,
    ensures
        match res {
            None => forall|a: Seq<int>| !is_alignment(fc@, fp@, a),
            Some(rows) => {
                &&& rows@.len() == fp@.len()
                &&& rows_wf(fc@, fp@, rows@, rows@.len() as int)
                &&& forall|k: int| 0 <= k < rows@.len() ==> row_intrinsic(choice@, rows@, k)
            },
        },
{
    let m = fp.len();
    let n = fc.len();
    let mut rows: Vec<Vec<Candidate>> = Vec::new();
    let mut threshold: usize = 0;  // read only once a first row has set it
    let mut k: usize = 0;
    while k < m
        invariant
            k <= m,
            rows@.len() == k,
            rows_wf(fc@, fp@, rows@, k as int),
            forall|i: int| 0 <= i < k ==> row_intrinsic(choice@, rows@, i),
            k > 0 ==> threshold as int == threshold_of(rows@, k as int),
        decreases m - k,
    {
        let ghost thr_int: int = if k == 0 {
            -1
        } else {
            threshold as int
        };
        assert(thr_int == threshold_of(rows@, k as int));
        let pc = fp[k];
        let mut row: Vec<Candidate> = Vec::new();
        let mut j: usize = 0;
        while j < n
            invariant
                j <= n,
                forall|p: int|
                    0 <= p < row@.len() ==> (#[trigger] row@[p].idx) < j && fc@[row@[p].idx as int]
                        == fp@[k as int] && row@[p].idx as int > thr_int && row@[p].score as int
                        == bonus_spec(choice@, row@[p].idx as int, k == 0),
                forall|p: int, q: int|
                    0 <= p < q < row@.len() ==> (#[trigger] row@[p].idx) < (#[trigger] row@[q].idx),
                forall|jj: int|
                    thr_int < jj < j && #[trigger] fc@[jj] == fp@[k as int] ==> row_has_idx(
                        row@,
                        jj,
                    ),
            decreases n - j,
        {
            let ghost old_row = row@;
            let admitted = fc[j] == pc && (k == 0 || j > threshold);
            if admitted {
                let b = fuzzy_score(choice, j, k == 0);
                row.push(Candidate { idx: j, score: b, back: 0 });
            }
            j += 1;
            proof {
                assert forall|jj: int|
                    thr_int < jj < j && #[trigger] fc@[jj] == fp@[k as int] implies row_has_idx(
                    row@,
                    jj,
                ) by {
                    if jj < j - 1 {
                        assert(row_has_idx(old_row, jj));
                        let p = choose|p: int|
                            0 <= p < old_row.len() && #[trigger] old_row[p].idx == jj;
                        assert(row@[p].idx == jj);
                    } else {
                        assert(admitted);
                        assert(row@[old_row.len() as int].idx == jj);
                    }
                }
            }
        }
        if row.len() == 0 {
            proof {
                assert forall|a: Seq<int>| !is_alignment(fc@, fp@, a) by {
                    if is_alignment(fc@, fp@, a) {
                        lemma_alignment_in_rows(fc@, fp@, rows@, a, k as int);
                        assert(fc@[a[k as int]] == fp@[k as int]);
                        if k > 0 {
                            assert(a[k as int] > a[k as int - 1] >= rows@[k as int - 1]@[0].idx);
                        }
                        assert(row_has_idx(row@, a[k as int]));
                        assert(false);
                    }
                }
            }
            return None;
        }
        threshold = row[0].idx;
        let ghost old_rows = rows@;
        rows.push(row);
        proof {
            assert forall|i: int| 0 <= i < k + 1 implies row_wf(fc@, fp@, rows@, i) by {
                assert(rows@[i] == if i < k {
                    old_rows[i]
                } else {
                    rows@[k as int]
                });
                assert(threshold_of(rows@, i) == threshold_of(old_rows, i) || i == 0);
                if i < k {
                    assert(row_wf(fc@, fp@, old_rows, i));
                }
            }
            assert forall|i: int| 0 <= i < k + 1 implies row_intrinsic(choice@, rows@, i) by {
                if i < k {
                    assert(row_intrinsic(choice@, old_rows, i));
                }
            }
        }
        k += 1;
    }
    Some(rows)
}

/// Dynamic-programming combination: every candidate of each later row gets
/// the best combined score over the compatible predecessors in the previous
/// combined row (on ties the first maximum in ascending order) and a back
/// pointer to that predecessor.  Row 0 keeps its intrinsic bonuses.
#[verifier::loop_isolation(false)]
#[verifier::rlimit(100)]
fn combine_rows(
    choice: &Vec<char>,
    fc: &Vec<char>,
    fp: &Vec<char>,
    rows: &Vec<Vec<Candidate>>,
) -> (comb: Vec<Vec<Candidate>>)
    requires
        fc@.len() == choice@.len(),
        fc@.len() <= MAX_CHOICE_LEN,
        0 < fp@.len() == rows@.len(),
        rows_wf(fc@, fp@, rows@, rows@.len() as int),
        forall|k: int| 0 <= k < rows@.len() ==> row_intrinsic(choice@, rows@, k),
    ensures
        comb@.len() == rows@.len(),
        rows_wf(fc@, fp@, comb@, comb@.len() as int),
        forall|k: int| 0 <= k < comb@.len() ==> comb_row_wf(choice@, fc@, fp@, comb@, k),
{
    let m = rows.len();
    let n = fc.len();
    let mut comb: Vec<Vec<Candidate>> = Vec::new();
    let mut k: usize = 0;
    while k < m
        invariant
            k <= m,
            comb@.len() == k,
            forall|i: int| 0 <= i < k ==> (#[trigger] comb@[i]@.len()) == rows@[i]@.len(),
            forall|i: int, p: int|
                0 <= i < k && 0 <= p < comb@[i]@.len() ==> (#[trigger] comb@[i]@[p].idx)
                    == rows@[i]@[p].idx,
            rows_wf(fc@, fp@, comb@, k as int),
            forall|i: int| 0 <= i < k ==> comb_row_wf(choice@, fc@, fp@, comb@, i),
        decreases m - k,
    {
        proof {
            lemma_first_idx_at_least(fc@, fp@, rows@, k as int);
            assert(row_wf(fc@, fp@, rows@, k as int));
            assert((k as int) <= rows@[k as int]@[0].idx < n);
        }
        let row_len = rows[k].len();
        let mut newrow: Vec<Candidate> = Vec::new();
        let mut t: usize = 0;
        if k == 0 {
            while t < row_len
                invariant
                    t <= row_len,
                    newrow@.len() == t,
                    forall|p: int| 0 <= p < t ==> (#[trigger] newrow@[p]) == rows@[0]@[p],
                decreases row_len - t,
            {
                let c = rows[0][t];
                newrow.push(c);
                t += 1;
            }
            proof {
                assert(row_intrinsic(choice@, rows@, 0));
                assert forall|p: int| 0 <= p < newrow@.len() implies dominates(
                    choice@,
                    fc@,
                    fp@,
                    0,
                    #[trigger] newrow@[p],
                ) by {
                    let c = newrow@[p];
                    assert(c.score as int == bonus_spec(choice@, c.idx as int, true));
                    assert forall|a: Seq<int>|
                        is_partial_alignment(fc@, fp@, 1, a) && a[0]
                            == c.idx as int implies #[trigger] alignment_score(choice@, a)
                        <= c.score as int by {
                        assert(a.len() == 1);
                        assert(link_score(choice@, a) == 0);
                    }
                }
                assert forall|p: int| 0 <= p < newrow@.len() implies -9 - ((
                #[trigger] newrow@[p]).idx as int) <= newrow@[p].score as int <= 20 by {
                    lemma_bonus_range(choice@, newrow@[p].idx as int, true);
                }
            }
        } else {
            proof {
                assert(row_wf(fc@, fp@, comb@, k as int - 1));
                assert(comb_row_wf(choice@, fc@, fp@, comb@, k as int - 1));
                assert(row_intrinsic(choice@, rows@, k as int));
                assert(comb@[k as int - 1]@[0].idx == rows@[k as int - 1]@[0].idx);
            }
            let prev_len = comb[k - 1].len();
            while t < row_len
                invariant
                    t <= row_len,
                    k >= 1,
                    newrow@.len() == t,
                    prev_len == comb@[k as int - 1]@.len(),
                    forall|p: int|
                        0 <= p < t ==> (#[trigger] newrow@[p].idx) == rows@[k as int]@[p].idx,
                    forall|p: int|
                        0 <= p < t ==> dominates(choice@, fc@, fp@, k as int, #[trigger] newrow@[p]),
                    forall|p: int|
                        0 <= p < t ==> -9 - ((#[trigger] newrow@[p]).idx as int)
                            <= newrow@[p].score as int <= 25 * (k as int) + 20,
                    forall|p: int|
                        0 <= p < t ==> back_wf(choice@, comb@[k as int - 1]@, #[trigger] newrow@[p]),
                decreases row_len - t,
            {
                let cand = rows[k][t];
                let intr = cand.score;
                proof {
                    assert(cand.idx as int > threshold_of(rows@, k as int));
                    assert(cand.idx < n);
                    assert(intr as int == bonus_spec(choice@, cand.idx as int, false));
                    lemma_bonus_range(choice@, cand.idx as int, false);
                    assert(comb@[k as int - 1]@[0].idx as int == threshold_of(rows@, k as int));
                }
                let c0 = comb[k - 1][0];
                let gap0 = cand.idx - c0.idx - 1;
                let adj0: i32 = if gap0 == 0 {
                    BONUS_ADJACENCY
                } else {
                    PENALTY_UNMATCHED * (gap0 as i32)
                };
                proof {
                    assert(adj0 as int == adjacency_term(c0.idx as int, cand.idx as int));
                    assert(-9 - (c0.idx as int) <= c0.score as int <= 25 * (k as int - 1) + 20);
                }
                let mut best: i32 = c0.score + intr + adj0;
                let mut back: usize = 0;
                let mut p: usize = 1;
                while p < prev_len && comb[k - 1][p].idx < cand.idx
                    invariant
                        1 <= p <= prev_len,
                        (back as int) < p,
                        (comb@[k as int - 1]@[back as int].idx as int) < cand.idx as int,
                        best as int == link_value(
                            choice@,
                            comb@[k as int - 1]@[back as int],
                            cand.idx as int,
                        ),
                        forall|q: int|
                            0 <= q < p ==> ((#[trigger] comb@[k as int - 1]@[q]).idx as int)
                                < cand.idx as int && link_value(
                                choice@,
                                comb@[k as int - 1]@[q],
                                cand.idx as int,
                            ) <= best as int,
                        forall|q: int|
                            0 <= q < back as int ==> link_value(
                                choice@,
                                #[trigger] comb@[k as int - 1]@[q],
                                cand.idx as int,
                            ) < best as int,
                    decreases prev_len - p,
                {
                    let c = comb[k - 1][p];
                    proof {
                        assert(-9 - (c.idx as int) <= c.score as int <= 25 * (k as int - 1) + 20);
                    }
                    let gap = cand.idx - c.idx - 1;
                    let adj: i32 = if gap == 0 {
                        BONUS_ADJACENCY
                    } else {
                        PENALTY_UNMATCHED * (gap as i32)
                    };
                    proof {
                        assert(adj as int == adjacency_term(c.idx as int, cand.idx as int));
                    }
                    let v = c.score + intr + adj;
                    if v > best {
                        best = v;
                        back = p;
                    }
                    p += 1;
                }
                proof {
                    assert forall|q: int|
                        0 <= q < comb@[k as int - 1]@.len() && ((
                        #[trigger] comb@[k as int - 1]@[q]).idx as int)
                            < cand.idx as int implies link_value(
                        choice@,
                        comb@[k as int - 1]@[q],
                        cand.idx as int,
                    ) <= best as int by {
                        if q >= p {
                            assert(comb@[k as int - 1]@[p as int].idx >= cand.idx);
                            if q > p {
                                assert(comb@[k as int - 1]@[p as int].idx < comb@[k as int
                                    - 1]@[q].idx);
                            }
                            assert(false);
                        }
                    }
                }
                let newc = Candidate { idx: cand.idx, score: best, back };
                proof {
                    assert(back_wf(choice@, comb@[k as int - 1]@, newc));
                    assert forall|a: Seq<int>|
                        is_partial_alignment(fc@, fp@, k as int + 1, a) && a[k as int]
                            == newc.idx as int implies #[trigger] alignment_score(choice@, a)
                        <= newc.score as int by {
                        let a1 = a.drop_last();
                        assert(forall|i: int| 0 <= i < k ==> a1[i] == a[i]);
                        assert(is_partial_alignment(fc@, fp@, k as int, a1));
                        lemma_alignment_in_rows(fc@, fp@, comb@, a, k as int);
                        assert(row_has_idx(comb@[k as int - 1]@, a[k as int - 1]));
                        let pq = choose|pq: int|
                            0 <= pq < comb@[k as int - 1]@.len() && (#[trigger] comb@[k as int
                                - 1]@[pq].idx) == a[k as int - 1];
                        let prevc = comb@[k as int - 1]@[pq];
                        assert(dominates(choice@, fc@, fp@, k as int - 1, prevc));
                        assert(a1[k as int - 1] == a[k as int - 1]);
                        assert(alignment_score(choice@, a1) <= prevc.score as int);
                        lemma_alignment_score_snoc(choice@, a);
                        assert((prevc.idx as int) < cand.idx as int);
                        assert(link_value(choice@, prevc, cand.idx as int) <= best as int);
                        assert(alignment_score(choice@, a) <= prevc.score + bonus_spec(
                            choice@,
                            cand.idx as int,
                            false,
                        ) + adjacency_term(prevc.idx as int, cand.idx as int));
                    }
                }
                newrow.push(newc);
                t += 1;
            }
        }
        let ghost old_comb = comb@;
        comb.push(newrow);
        proof {
            assert(comb@[k as int]@ == newrow@);
            assert forall|i: int| 0 <= i < k + 1 implies row_wf(fc@, fp@, comb@, i) by {
                if i < k {
                    assert(comb@[i] == old_comb[i]);
                    assert(threshold_of(comb@, i) == threshold_of(old_comb, i) || i == 0);
                    assert(row_wf(fc@, fp@, old_comb, i));
                } else {
                    assert(row_wf(fc@, fp@, rows@, k as int));
                    assert(threshold_of(comb@, k as int) == threshold_of(rows@, k as int));
                    assert forall|j: int|
                        threshold_of(comb@, k as int) < j < fc@.len() && #[trigger] fc@[j]
                            == fp@[k as int] implies row_has_idx(comb@[k as int]@, j) by {
                        assert(row_has_idx(rows@[k as int]@, j));
                        let w = choose|w: int|
                            0 <= w < rows@[k as int]@.len() && (#[trigger] rows@[k as int]@[w].idx)
                                == j;
                        assert(newrow@[w].idx == j);
                    }
                }
            }
            assert forall|i: int| 0 <= i < k + 1 implies comb_row_wf(choice@, fc@, fp@, comb@, i) by {
                if i < k {
                    assert(comb@[i] == old_comb[i]);
                    if i > 0 {
                        assert(comb@[i - 1] == old_comb[i - 1]);
                    }
                    assert(comb_row_wf(choice@, fc@, fp@, old_comb, i));
                } else {
                    if k > 0 {
                        assert(comb@[k as int - 1] == old_comb[k as int - 1]);
                    }
                }
            }
        }
        k += 1;
    }
    comb
}

/// The alignment score splits at any interior position: the score of the
/// prefix, the split position's own contributions, and the remaining links.
proof fn lemma_alignment_score_split(choice: Seq<char>, a: Seq<int>, k: int)
    requires
        1 <= k < a.len(),
    ensures
        alignment_score(choice, a) == alignment_score(choice, a.subrange(0, k)) + bonus_spec(
            choice,
            a[k],
            false,
        ) + adjacency_term(a[k - 1], a[k]) + link_score(choice, a.subrange(k, a.len() as int)),
    decreases a.len() - k,
{
    let t = a.subrange(k, a.len() as int);
    if k == a.len() - 1 {
        lemma_alignment_score_snoc(choice, a);
        assert(a.subrange(0, k) =~= a.drop_last());
        assert(t.len() == 1);
    } else {
        lemma_alignment_score_split(choice, a.drop_last(), k);
        lemma_alignment_score_snoc(choice, a);
        lemma_link_score_snoc(choice, t);
        assert(t.drop_last() =~= a.drop_last().subrange(k, a.len() - 1));
        assert(a.drop_last().subrange(0, k) =~= a.subrange(0, k));
        assert(t[t.len() - 1] == a[a.len() - 1]);
        assert(t[t.len() - 2] == a[a.len() - 2]);
        assert(a.drop_last()[k] == a[k] && a.drop_last()[k - 1] == a[k - 1]);
    }
}

/// Among maximum-score alignments, none ends before the candidate that the
/// final selection picks: the first maximum of the last combined row.
proof fn lemma_start_least(
    choice: Seq<char>,
    fc: Seq<char>,
    fp: Seq<char>,
    comb: Seq<Vec<Candidate>>,
    best_p: int,
    a: Seq<int>,
    total: int,
)
    requires
        0 < fp.len() == comb.len(),
        rows_wf(fc, fp, comb, comb.len() as int),
        forall|k: int| 0 <= k < comb.len() ==> comb_row_wf(choice, fc, fp, comb, k),
        0 <= best_p < comb[comb.len() - 1]@.len(),
        comb[comb.len() - 1]@[best_p].score as int == total,
        forall|q: int|
            0 <= q < best_p ==> ((#[trigger] comb[comb.len() - 1]@[q]).score as int) < total,
        is_alignment(fc, fp, a),
        alignment_score(choice, a) == total,
    ensures
        a[fp.len() - 1] >= comb[comb.len() - 1]@[best_p].idx,
{
    let last = comb.len() - 1;
    lemma_alignment_in_rows(fc, fp, comb, a, comb.len() as int);
    assert(row_has_idx(comb[last]@, a[last]));
    let w = choose|w: int| 0 <= w < comb[last]@.len() && (#[trigger] comb[last]@[w].idx) == a[last];
    assert(comb_row_wf(choice, fc, fp, comb, last));
    assert(dominates(choice, fc, fp, last, comb[last]@[w]));
    assert(is_partial_alignment(fc, fp, last + 1, a));
    assert(alignment_score(choice, a) <= comb[last]@[w].score as int);
    assert(w >= best_p);
    if w > best_p {
        assert(row_wf(fc, fp, comb, last as int));
        assert(comb[last]@[best_p].idx < comb[last]@[w].idx);
    }
}

/// A maximum-score alignment that runs through the reconstructed tail
/// cannot pass below the back pointer's target: the predecessor that the
/// combination step recorded is the first to reach the stored score.
proof fn lemma_step_least(
    choice: Seq<char>,
    fc: Seq<char>,
    fp: Seq<char>,
    comb: Seq<Vec<Candidate>>,
    k: int,
    col: int,
    a: Seq<int>,
    suf: Seq<int>,
    total: int,
)
    requires
        1 <= k < comb.len() == fp.len(),
        rows_wf(fc, fp, comb, comb.len() as int),
        forall|kk: int| 0 <= kk < comb.len() ==> comb_row_wf(choice, fc, fp, comb, kk),
        0 <= col < comb[k]@.len(),
        is_alignment(fc, fp, a),
        alignment_score(choice, a) == total,
        suf.len() == fp.len() - k,
        suf[0] == comb[k]@[col].idx as int,
        total == comb[k]@[col].score + link_score(choice, suf),
        a.subrange(k, fp.len() as int) == suf,
    ensures
        a[k - 1] >= comb[k - 1]@[comb[k]@[col].back as int].idx,
{
    let c = comb[k]@[col];
    assert(comb_row_wf(choice, fc, fp, comb, k));
    assert(back_wf(choice, comb[k - 1]@, c));
    lemma_alignment_in_rows(fc, fp, comb, a, comb.len() as int);
    assert(row_has_idx(comb[k - 1]@, a[k - 1]));
    let w = choose|w: int|
        0 <= w < comb[k - 1]@.len() && (#[trigger] comb[k - 1]@[w].idx) == a[k - 1];
    let wc = comb[k - 1]@[w];
    lemma_alignment_score_split(choice, a, k);
    assert(a[k] == suf[0]);
    assert(a[k - 1] == a.subrange(0, k)[k - 1]);
    let pre = a.subrange(0, k);
    assert(is_partial_alignment(fc, fp, k, pre)) by {
        assert(forall|i: int| 0 <= i < k ==> pre[i] == a[i]);
    }
    assert(comb_row_wf(choice, fc, fp, comb, k - 1));
    assert(dominates(choice, fc, fp, k - 1, wc));
    assert(alignment_score(choice, pre) <= wc.score as int);
    assert(link_value(choice, wc, c.idx as int) >= c.score as int) by {
        assert(alignment_score(choice, a) == alignment_score(choice, pre) + bonus_spec(
            choice,
            c.idx as int,
            false,
        ) + adjacency_term(a[k - 1], c.idx as int) + link_score(choice, suf));
    }
    assert(w >= c.back as int) by {
        if w < c.back as int {
            assert(link_value(choice, comb[k - 1]@[w], c.idx as int) < c.score as int);
        }
    }
    if w > c.back as int {
        assert(row_wf(fc, fp, comb, k - 1));
        assert(comb[k - 1]@[c.back as int].idx < comb[k - 1]@[w].idx);
    }
}

/// The reconstruction's starting point, the first maximum of the last row,
/// makes a one-position tail that no maximum-score alignment undercuts.
proof fn lemma_tail_least_start(
    choice: Seq<char>,
    fc: Seq<char>,
    fp: Seq<char>,
    comb: Seq<Vec<Candidate>>,
    best_p: int,
    total: int,
)
    requires
        0 < fp.len() == comb.len(),
        rows_wf(fc, fp, comb, comb.len() as int),
        forall|k: int| 0 <= k < comb.len() ==> comb_row_wf(choice, fc, fp, comb, k),
        0 <= best_p < comb[comb.len() - 1]@.len(),
        comb[comb.len() - 1]@[best_p].score as int == total,
        forall|q: int|
            0 <= q < best_p ==> ((#[trigger] comb[comb.len() - 1]@[q]).score as int) < total,
    ensures
        tail_is_least(
            choice,
            fc,
            fp,
            seq![comb[comb.len() - 1]@[best_p].idx as int],
            comb.len() - 1,
            total,
        ),
{
    let last = comb.len() - 1;
    let suf = seq![comb[last]@[best_p].idx as int];
    assert forall|a: Seq<int>, kk: int|
        #![trigger alignment_score(choice, a), suf[kk - last]]
        is_alignment(fc, fp, a) && alignment_score(choice, a) == total && last <= kk < fp.len() && (
        forall|j: int| kk < j < fp.len() ==> a[j] == suf[j - last]) implies a[kk] >= suf[kk
        - last] by {
        lemma_start_least(choice, fc, fp, comb, best_p, a, total);
    }
}

/// One reconstruction step extends a tail that no maximum-score alignment
/// undercuts by the back pointer's target, and keeps that property: an
/// agreeing alignment's next position cannot sit below the recorded
/// predecessor.
proof fn lemma_tail_least_step(
    choice: Seq<char>,
    fc: Seq<char>,
    fp: Seq<char>,
    comb: Seq<Vec<Candidate>>,
    k: int,
    col: int,
    suf: Seq<int>,
    total: int,
)
    requires
        1 <= k < comb.len() == fp.len(),
        rows_wf(fc, fp, comb, comb.len() as int),
        forall|kk: int| 0 <= kk < comb.len() ==> comb_row_wf(choice, fc, fp, comb, kk),
        0 <= col < comb[k]@.len(),
        suf.len() == fp.len() - k,
        suf[0] == comb[k]@[col].idx as int,
        total == comb[k]@[col].score + link_score(choice, suf),
        tail_is_least(choice, fc, fp, suf, k, total),
    ensures
        tail_is_least(
            choice,
            fc,
            fp,
            seq![comb[k - 1]@[comb[k]@[col].back as int].idx as int] + suf,
            k - 1,
            total,
        ),
{
    assert(comb_row_wf(choice, fc, fp, comb, k));
    assert(back_wf(choice, comb[k - 1]@, comb[k]@[col]));
    let pcx = comb[k - 1]@[comb[k]@[col].back as int].idx as int;
    let nsuf = seq![pcx] + suf;
    assert forall|a: Seq<int>, kk: int|
        #![trigger alignment_score(choice, a), nsuf[kk - (k - 1)]]
        is_alignment(fc, fp, a) && alignment_score(choice, a) == total && k - 1 <= kk < fp.len()
            && (forall|j: int| kk < j < fp.len() ==> a[j] == nsuf[j - (k - 1)]) implies a[kk]
        >= nsuf[kk - (k - 1)] by {
        if kk >= k {
            assert forall|j: int| kk < j < fp.len() implies a[j] == suf[j - k] by {
                assert(a[j] == nsuf[j - (k - 1)]);
                assert(nsuf[j - (k - 1)] == suf[j - k]);
            }
            assert(a[kk] >= suf[kk - k]);
            assert(nsuf[kk - (k - 1)] == suf[kk - k]);
        } else {
            assert(a.subrange(k, fp.len() as int) =~= suf) by {
                assert forall|j: int|
                    0 <= j < suf.len() implies a.subrange(k, fp.len() as int)[j] == suf[j] by {
                    assert(a[j + k] == nsuf[j + 1]);
                    assert(nsuf[j + 1] == suf[j]);
                }
            }
            lemma_step_least(choice, fc, fp, comb, k, col, a, suf, total);
        }
    }
}

/// A bound on every score in the last combined row bounds the score of every
/// alignment: each alignment ends at some last-row candidate, which
/// dominates it.
proof fn lemma_last_row_bounds_alignments(
    choice: Seq<char>,
    fc: Seq<char>,
    fp: Seq<char>,
    comb: Seq<Vec<Candidate>>,
    s: int,
)
    requires
        0 < fp.len() == comb.len(),
        rows_wf(fc, fp, comb, comb.len() as int),
        forall|k: int| 0 <= k < comb.len() ==> comb_row_wf(choice, fc, fp, comb, k),
        forall|q: int|
            0 <= q < comb[comb.len() - 1]@.len() ==> (#[trigger] comb[comb.len() - 1]@[q].score)
                as int <= s,
    ensures
        forall|a: Seq<int>| is_alignment(fc, fp, a) ==> #[trigger] alignment_score(choice, a) <= s,
{
    let last = comb.len() - 1;
    assert forall|a: Seq<int>| is_alignment(fc, fp, a) implies #[trigger] alignment_score(
        choice,
        a,
    ) <= s by {
        lemma_alignment_in_rows(fc, fp, comb, a, comb.len() as int);
        assert(row_has_idx(comb[last]@, a[last]));
        let w = choose|w: int|
            0 <= w < comb[last]@.len() && (#[trigger] comb[last]@[w].idx) == a[last];
        assert(comb_row_wf(choice, fc, fp, comb, last));
        assert(dominates(choice, fc, fp, last, comb[last]@[w]));
        assert(is_partial_alignment(fc, fp, last + 1, a));
        assert(alignment_score(choice, a) <= comb[last]@[w].score as int);
    }
}

/// Backtracking: picks the best-scoring candidate of the last combined row
/// (on ties the first in ascending order) and walks back pointers down to
/// row 0, returning the total score and the chosen positions in ascending
/// order.  The result is a maximum-score alignment.
#[verifier::loop_isolation(false)]
#[verifier::rlimit(100)]
fn backtrack(choice: &Vec<char>, fc: &Vec<char>, fp: &Vec<char>, comb: &Vec<Vec<Candidate>>) -> (r:
    (i32, Vec<usize>))
    requires
        fc@.len() == choice@.len(),
        0 < fp@.len() == comb@.len(),
        rows_wf(fc@, fp@, comb@, comb@.len() as int),
        forall|k: int| 0 <= k < comb@.len() ==> comb_row_wf(choice@, fc@, fp@, comb@, k),
    ensures
        is_alignment(fc@, fp@, r.1@.map_values(|u: usize| u as int)),
        r.0 as int == alignment_score(choice@, r.1@.map_values(|u: usize| u as int)),
        forall|a: Seq<int>|
            is_alignment(fc@, fp@, a) ==> #[trigger] alignment_score(choice@, a) <= r.0 as int,
        tail_is_least(choice@, fc@, fp@, r.1@.map_values(|u: usize| u as int), 0, r.0 as int),
{
    let m = comb.len();
    let last = m - 1;
    proof {
        assert(row_wf(fc@, fp@, comb@, last as int));
        assert(comb_row_wf(choice@, fc@, fp@, comb@, last as int));
    }
    let last_len = comb[last].len();
    let mut best_p: usize = 0;
    let mut p: usize = 1;
    while p < last_len
        invariant
            1 <= p <= last_len,
            (best_p as int) < p,
            forall|q: int|
                0 <= q < p ==> (#[trigger] comb@[last as int]@[q].score) <= comb@[last
                    as int]@[best_p as int].score,
            forall|q: int|
                0 <= q < best_p as int ==> (#[trigger] comb@[last as int]@[q].score) < comb@[last
                    as int]@[best_p as int].score,
        decreases last_len - p,
    {
        if comb[last][p].score > comb[last][best_p].score {
            best_p = p;
        }
        p += 1;
    }
    let total = comb[last][best_p].score;
    proof {
        lemma_last_row_bounds_alignments(choice@, fc@, fp@, comb@, total as int);
    }
    let mut rev: Vec<usize> = Vec::new();
    let mut k = last;
    let mut col = best_p;
    let c_start = comb[k][col];
    rev.push(c_start.idx);
    let ghost mut suf: Seq<int> = seq![c_start.idx as int];
    proof {
        assert(row_wf(fc@, fp@, comb@, last as int));
        assert(fc@[c_start.idx as int] == fp@[last as int]);
        lemma_tail_least_start(choice@, fc@, fp@, comb@, best_p as int, total as int);
        assert(tail_is_least(choice@, fc@, fp@, suf, last as int, total as int));
    }
    while k > 0
        invariant
            k < m,
            (col as int) < comb@[k as int]@.len(),
            suf.len() == m - k,
            suf[0] == comb@[k as int]@[col as int].idx as int,
            total as int == comb@[k as int]@[col as int].score + link_score(choice@, suf),
            forall|j: int|
                0 <= j < suf.len() ==> 0 <= #[trigger] suf[j] < fc@.len() && fc@[suf[j]] == fp@[k
                    as int + j],
            forall|j: int| 0 < j < suf.len() ==> suf[j - 1] < #[trigger] suf[j],
            rev@.len() == suf.len(),
            forall|j: int|
                0 <= j < rev@.len() ==> (#[trigger] rev@[j]) as int == suf[suf.len() - 1 - j],
            tail_is_least(choice@, fc@, fp@, suf, k as int, total as int),
        decreases k,
    {
        let c = comb[k][col];
        proof {
            assert(comb_row_wf(choice@, fc@, fp@, comb@, k as int));
            assert(back_wf(choice@, comb@[k as int - 1]@, c));
            assert(row_wf(fc@, fp@, comb@, k as int - 1));
        }
        let b = c.back;
        let pc = comb[k - 1][b];
        rev.push(pc.idx);
        proof {
            let old_suf = suf;
            suf = seq![pc.idx as int] + suf;
            lemma_link_score_prepend(choice@, pc.idx as int, old_suf);
            assert(fc@[pc.idx as int] == fp@[k as int - 1]);
            assert(suf[0] == pc.idx as int);
            assert forall|j: int| 0 < j < suf.len() implies suf[j - 1] < #[trigger] suf[j] by {
                assert(suf[j] == old_suf[j - 1]);
                if j > 1 {
                    assert(suf[j - 1] == old_suf[j - 2]);
                }
            }
            lemma_tail_least_step(
                choice@,
                fc@,
                fp@,
                comb@,
                k as int,
                col as int,
                old_suf,
                total as int,
            );
            assert(tail_is_least(choice@, fc@, fp@, suf, k as int - 1, total as int));
        }
        col = b;
        k -= 1;
    }
    proof {
        assert(comb_row_wf(choice@, fc@, fp@, comb@, 0));
        assert(comb@[0]@[col as int].score as int == bonus_spec(choice@, suf[0], true));
        assert(total as int == alignment_score(choice@, suf));
        assert(is_alignment(fc@, fp@, suf));
    }
    let mut out: Vec<usize> = Vec::new();
    let mut q: usize = rev.len();
    while q > 0
        invariant
            q <= rev@.len(),
            out@.len() == rev@.len() - q,
            forall|j: int|
                0 <= j < out@.len() ==> (#[trigger] out@[j]) == rev@[rev@.len() - 1 - j],
        decreases q,
    {
        q -= 1;
        out.push(rev[q]);
    }
    proof {
        assert(out@.map_values(|u: usize| u as int) =~= suf);
    }
    (total, out)
}

/// Fuzzy-matches `pattern` against `choice`, case-insensitively.
///
/// Returns `None` exactly when no alignment exists: no way to place the
/// case-folded pattern characters, in order, on strictly increasing choice
/// positions holding equal case-folded characters.  Otherwise returns the
/// total score and the chosen positions, one per pattern character in
/// ascending order: a valid alignment whose score no other alignment beats.
/// On equal scores the earlier positions win, both in combination and in the
/// final selection.  An empty pattern always matches, with score 0 and no
/// positions.  For a non-empty pattern the choice may hold at most
/// `MAX_CHOICE_LEN` characters, which keeps every score within `i32`.
pub fn fuzzy_match(choice: &str, pattern: &str) -> (r: Option<(i32, Vec<usize>)>)
    requires
        pattern@.len() == 0 || choice@.len() <= MAX_CHOICE_LEN,
    ensures
        pattern@.len() == 0 ==> (r matches Some(sv) && sv.0 == 0 && sv.1@.len() == 0),
        (r is None) <==> !(exists|a: Seq<int>|
            is_alignment(fold_chars_spec(choice@), fold_chars_spec(pattern@), a)),
        (r is None) <==> !greedy_matches(fold_chars_spec(choice@), fold_chars_spec(pattern@)),
        r matches Some(sv) ==> ({
            let aln = sv.1@.map_values(|u: usize| u as int);
            &&& is_alignment(fold_chars_spec(choice@), fold_chars_spec(pattern@), aln)
            &&& sv.0 as int == alignment_score(choice@, aln)
            &&& forall|a: Seq<int>|
                is_alignment(fold_chars_spec(choice@), fold_chars_spec(pattern@), a)
                    ==> #[trigger] alignment_score(choice@, a) <= sv.0 as int
            &&& tail_is_least(
                choice@,
                fold_chars_spec(choice@),
                fold_chars_spec(pattern@),
                aln,
                0,
                sv.0 as int,
            )
        }),
{
    proof {
        lemma_threshold_rule_is_existence(
            fold_chars_spec(choice@),
            fold_chars_spec(pattern@),
        );
    }
    let pattern_chars = chars_of(pattern);
    if pattern_chars.len() == 0 {
        let picked: Vec<usize> = Vec::new();
        proof {
            let fc = fold_chars_spec(choice@);
            let fp = fold_chars_spec(pattern@);
            assert(fp.len() == 0);
            assert(picked@.map_values(|u: usize| u as int) =~= Seq::<int>::empty());
            assert(is_alignment(fc, fp, Seq::<int>::empty()));
            assert forall|a: Seq<int>| is_alignment(fc, fp, a) implies #[trigger] alignment_score(
                choice@,
                a,
            ) <= 0 by {
                assert(a.len() == 0);
            }
        }
        return Some((0, picked));
    }
    let choice_chars = chars_of(choice);
    let fc = fold_chars(&choice_chars);
    let fp = fold_chars(&pattern_chars);
    match build_rows(&choice_chars, &fc, &fp) {
        None => None,
        Some(rows) => {
            let comb = combine_rows(&choice_chars, &fc, &fp, &rows);
            let (score, picked) = backtrack(&choice_chars, &fc, &fp, &comb);
            proof {
                assert(is_alignment(fc@, fp@, picked@.map_values(|u: usize| u as int)));
            }
            Some((score, picked))
        },
    }
}

} // verus!
