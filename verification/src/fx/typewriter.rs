//! Terminal-style character-by-character text reveal.
//!
//! Counting is by `char`, so multi-byte UTF-8 never splits. How many
//! characters a given time and rate reveal is a float computation made by the
//! caller; these functions take that count and say what is visible.

use vstd::prelude::*;

verus! {

/// The smaller of two integers.
pub open spec fn min_int(a: int, b: int) -> int {
    if a < b { a } else { b }
}

/// The first `n` chars of `text` as a slice on a valid `char` boundary,
/// saturating at the full string.
pub fn prefix_chars(text: &str, n: usize) -> (res: &str)
    ensures
        res@ == text@.take(min_int(n as int, text@.len() as int)),
{
    let len = text.unicode_len();
    if n >= len {
        proof {
            assert(text@.take(text@.len() as int) =~= text@);
        }
        text
    } else {
        let res = text.substring_char(0, n);
        proof {
            assert(res@ =~= text@.take(n as int));
        }
        res
    }
}

/// The total of the first `i` counts.
pub open spec fn count_prefix(counts: Seq<usize>, i: int) -> int
    decreases i,
{
    if i <= 0 {
        0
    } else {
        count_prefix(counts, i - 1) + counts[i - 1]
    }
}

/// How many chars of line `i` a shared budget of `budget` chars reveals: the
/// lines before it are paid for first.
pub open spec fn shown_of(counts: Seq<usize>, budget: int, i: int) -> int {
    let left = budget - count_prefix(counts, i);
    if left <= 0 {
        0
    } else {
        min_int(counts[i] as int, left)
    }
}

/// Per-line reveal state for a block of text streamed as one shared character
/// budget: line `N` only starts revealing once every `char` of lines `0..N` is
/// visible.
#[derive(Debug, Clone)]
pub struct BlockReveal {
    /// Visible `char` count for each input line, in input order.
    pub shown: Vec<usize>,
    /// The line the write-cursor sits on: the first not-yet-complete line, or
    /// the last line once the block is fully revealed; `0` when there are no
    /// lines.
    pub cursor_line: usize,
    /// True once every `char` of every line is visible.
    pub complete: bool,
}

/// The reveal state of lines with `counts` chars each, given a budget of
/// `budget` chars.
pub open spec fn is_block_reveal(counts: Seq<usize>, budget: int, r: BlockReveal) -> bool {
    &&& r.shown@.len() == counts.len()
    &&& forall|i: int| 0 <= i < counts.len() ==> #[trigger] r.shown@[i] == shown_of(counts, budget, i)
    &&& r.complete == (forall|i: int| 0 <= i < counts.len() ==> r.shown@[i] >= #[trigger] counts[i])
    &&& r.cursor_line == if r.complete {
        if counts.len() == 0 { 0 } else { counts.len() - 1 }
    } else {
        choose|i: int| 0 <= i < counts.len() && r.shown@[i] < counts[i] && forall|j: int|
            0 <= j < i ==> r.shown@[j] >= #[trigger] counts[j]
    }
}

/// The char counts of the lines.
pub open spec fn line_counts(lines: Seq<&str>) -> Seq<usize> {
    lines.map_values(|l: &str| l@.len() as usize)
}

proof fn lemma_count_prefix_monotone(counts: Seq<usize>, i: int, j: int)
    requires
        0 <= i <= j <= counts.len(),
    ensures
        count_prefix(counts, i) <= count_prefix(counts, j),
    decreases j - i,
{
    if i < j {
        lemma_count_prefix_monotone(counts, i, j - 1);
    }
}

/// The total number of chars in the lines.
pub fn total_chars(lines: &[&str]) -> (res: usize)
    requires
        count_prefix(line_counts(lines@), lines@.len() as int) <= usize::MAX,
    ensures
        res == count_prefix(line_counts(lines@), lines@.len() as int),
{
    let ghost counts = line_counts(lines@);
    let mut total: usize = 0;
    let mut i: usize = 0;
    while i < lines.len()
        invariant
            i <= lines@.len(),
            counts == line_counts(lines@),
            count_prefix(counts, lines@.len() as int) <= usize::MAX,
            total == count_prefix(counts, i as int),
        decreases lines@.len() - i,
    {
        proof {
            lemma_count_prefix_monotone(counts, i + 1, lines@.len() as int);
        }
        let n = lines[i].unicode_len();
        total = total + n;
        i += 1;
    }
    total
}

/// Reveal the lines with a shared budget of `budget` chars: each line takes
/// what is left after the lines before it, empty lines cost nothing, and the
/// cursor sits on the first incomplete line (the last line once everything
/// is shown).
pub fn reveal_block_budget(lines: &[&str], budget: usize) -> (res: BlockReveal)
    ensures
        is_block_reveal(line_counts(lines@), budget as int, res),
{
    let ghost counts = line_counts(lines@);
    let mut shown: Vec<usize> = Vec::new();
    let mut left: usize = budget;
    let mut complete = true;
    let mut cursor: usize = 0;
    let mut found = false;
    let mut i: usize = 0;
    while i < lines.len()
        invariant
            i <= lines@.len(),
            counts == line_counts(lines@),
            shown@.len() == i,
            forall|k: int| 0 <= k < i ==> #[trigger] shown@[k] == shown_of(counts, budget as int, k),
            left == (if budget - count_prefix(counts, i as int) <= 0 {
                0
            } else {
                budget - count_prefix(counts, i as int)
            }),
            complete == (forall|k: int| 0 <= k < i ==> shown@[k] >= #[trigger] counts[k]),
            found == !complete,
            found ==> (cursor < i && shown@[cursor as int] < counts[cursor as int] && forall|j: int|
                0 <= j < cursor ==> shown@[j] >= #[trigger] counts[j]),
        decreases lines@.len() - i,
    {
        let n = lines[i].unicode_len();
        proof {
            assert(counts[i as int] == n);
        }
        let take = if left < n { left } else { n };
        left = left - take;
        shown.push(take);
        if take < n && !found {
            found = true;
            complete = false;
            cursor = i;
        }
        i += 1;
    }
    let cursor_line = if complete {
        if lines.len() == 0 { 0 } else { lines.len() - 1 }
    } else {
        cursor
    };
    let res = BlockReveal { shown, cursor_line, complete };
    proof {
        if !complete {
            let c = choose|c: int| 0 <= c < counts.len() && res.shown@[c] < counts[c] && forall|j: int|
                0 <= j < c ==> res.shown@[j] >= #[trigger] counts[j];
            assert(c == cursor) by {
                if c < cursor {
                    assert(res.shown@[c] >= counts[c]);
                } else if c > cursor {
                    assert(res.shown@[cursor as int] >= counts[cursor as int]);
                }
            }
        }
    }
    res
}

/// The block streams in order: a line shows anything only when every line
/// before it is fully shown.
pub proof fn law_block_reveals_in_order(counts: Seq<usize>, budget: int, i: int, j: int)
    requires
        0 <= j < i < counts.len(),
        shown_of(counts, budget, i) > 0,
    ensures
        shown_of(counts, budget, j) == counts[j],
{
    lemma_count_prefix_monotone(counts, j + 1, i);
}

proof fn lemma_short_budget_leaves_a_line(counts: Seq<usize>, budget: int, n: int)
    requires
        0 <= budget,
        0 <= n <= counts.len(),
        count_prefix(counts, n) > budget,
    ensures
        exists|i: int| 0 <= i < n && #[trigger] shown_of(counts, budget, i) < counts[i],
    decreases n,
{
    if count_prefix(counts, n - 1) > budget {
        lemma_short_budget_leaves_a_line(counts, budget, n - 1);
        let i = choose|i: int| 0 <= i < n - 1 && #[trigger] shown_of(counts, budget, i) < counts[i];
        assert(shown_of(counts, budget, i) < counts[i]);
    } else {
        assert(shown_of(counts, budget, n - 1) < counts[n - 1]);
    }
}

/// The block is complete exactly when the budget covers every char of every
/// line.
pub proof fn law_block_complete_iff_budget_covers(counts: Seq<usize>, budget: int)
    requires
        0 <= budget,
    ensures
        (forall|i: int| 0 <= i < counts.len() ==> #[trigger] shown_of(counts, budget, i) >= counts[i])
            <==> budget >= count_prefix(counts, counts.len() as int),
{
    let total = count_prefix(counts, counts.len() as int);
    if budget >= total {
        assert forall|i: int| 0 <= i < counts.len() implies #[trigger] shown_of(counts, budget, i) >= counts[i] by {
            lemma_count_prefix_monotone(counts, i + 1, counts.len() as int);
        }
    } else {
        lemma_short_budget_leaves_a_line(counts, budget, counts.len() as int);
    }
}

/// The chars shown on the first `n` lines.
pub open spec fn shown_total(counts: Seq<usize>, budget: int, n: int) -> int
    decreases n,
{
    if n <= 0 {
        0
    } else {
        shown_total(counts, budget, n - 1) + shown_of(counts, budget, n - 1)
    }
}

/// The budget is shared: the lines together show as many chars as the
/// budget allows, up to all of them.
pub proof fn law_block_spends_the_budget(counts: Seq<usize>, budget: int, n: int)
    requires
        0 <= budget,
        0 <= n <= counts.len(),
    ensures
        shown_total(counts, budget, n) == min_int(budget, count_prefix(counts, n)),
    decreases n,
{
    if n > 0 {
        law_block_spends_the_budget(counts, budget, n - 1);
    }
}

} // verus!
