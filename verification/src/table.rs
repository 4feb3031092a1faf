//! Tables fitted to the terminal width.
//!
//! Column widths are measured two ways: the natural width (a cell's whole
//! text on one line) and the floor (its longest word, below which wrapping
//! would have to break a word). A table that does not fit gets its columns
//! shrunk toward their floors, in proportion to how much each can give.

use crate::deck::{Span, SpanV, Style};
use crate::markdown::Alignment;
use crate::strings::{push_char, repeat_seq, repeat_str};
use crate::wrap::{
    concat_groups, concat_texts, groups_ok, interleave, law_wrap, lemma_render_groups_index, lemma_wrap_one_line,
    render_groups, render_line,
    wrap_groups,
};
use crate::wrap::{line_width, sum_lens, to_words, words_of, wrap_lines, wrap_spans};
use vstd::prelude::*;
use vstd::string::*;

verus! {

broadcast use vstd::string::group_string_axioms;

// ---------------------------------------------------------------------------
// Measuring.
// ---------------------------------------------------------------------------

/// The numbers as mathematical integers.
pub open spec fn ints(v: Seq<usize>) -> Seq<int> {
    Seq::new(v.len(), |i: int| v[i] as int)
}

/// The longest word's length, 0 without words.
pub open spec fn max_word(ws: Seq<SpanV>) -> int
    decreases ws.len(),
{
    if ws.len() == 0 {
        0
    } else {
        let m = max_word(ws.drop_last());
        if ws.last().0.len() > m {
            ws.last().0.len() as int
        } else {
            m
        }
    }
}

/// A cell's natural width: its words on one line, one space apart.
pub open spec fn cell_full(cell: Seq<SpanV>) -> int {
    line_width(seq![], words_of(cell))
}

/// The natural widths after one more row: each column that the row has a
/// cell with words in widens to that cell's natural width.
pub open spec fn measure_nat(row: Seq<Seq<SpanV>>, natural: Seq<int>) -> Seq<int> {
    Seq::new(
        natural.len(),
        |c: int|
            if c < row.len() && words_of(row[c]).len() > 0 && cell_full(row[c]) > natural[c] {
                cell_full(row[c])
            } else {
                natural[c]
            },
    )
}

/// The floors after one more row: each of the first `n` columns that the
/// row has a cell with words in widens to that cell's longest word.
pub open spec fn measure_floor(row: Seq<Seq<SpanV>>, floor: Seq<int>, n: int) -> Seq<int> {
    Seq::new(
        floor.len(),
        |c: int|
            if c < n && c < row.len() && words_of(row[c]).len() > 0 && max_word(words_of(row[c]))
                > floor[c] {
                max_word(words_of(row[c]))
            } else {
                floor[c]
            },
    )
}

/// Sum of lengths of a prefix never exceeds the whole.
proof fn lemma_sum_lens_prefix(ws: Seq<SpanV>, k: int)
    requires
        0 <= k <= ws.len(),
    ensures
        crate::wrap::sum_lens(ws.take(k)) <= crate::wrap::sum_lens(ws),
    decreases ws.len() - k,
{
    if k < ws.len() {
        lemma_sum_lens_prefix(ws, k + 1);
        assert(ws.take(k + 1).drop_last() =~= ws.take(k));
    }
    if k == ws.len() {
        assert(ws.take(k) =~= ws);
    }
}

/// Widens the natural widths and floors of the first `natural.len()` columns
/// to fit the row's cells: a column's natural width grows to the cell's
/// whole text on one line, its floor to the cell's longest word. Cells
/// without words change nothing.
pub fn measure_row(row: &[Vec<Span>], natural: &mut Vec<usize>, floor: &mut Vec<usize>)
    requires
        old(natural).len() <= old(floor).len(),
        forall|c: int| 0 <= c < row.len() && c < old(natural).len() ==> #[trigger] cell_full(row.deep_view()[c]) <= usize::MAX,
    ensures
        final(natural)@.len() == old(natural)@.len(),
        final(floor)@.len() == old(floor)@.len(),
        ints(final(natural)@) == measure_nat(
            row.deep_view(),
            ints(old(natural)@),
        ),
        ints(final(floor)@) == measure_floor(
            row.deep_view(),
            ints(old(floor)@),
            old(natural)@.len() as int,
        ),
{
    let ghost rv = row.deep_view();
    let ghost nat0 = ints(old(natural)@);
    let ghost floor0 = ints(old(floor)@);
    let ghost want_nat = measure_nat(rv, nat0);
    let ghost want_floor = measure_floor(rv, floor0, nat0.len() as int);
    let mut c: usize = 0;
    while c < row.len() && c < natural.len()
        invariant
            rv == row.deep_view(),
            natural@.len() == nat0.len(),
            floor@.len() == floor0.len(),
            nat0.len() <= floor0.len(),
            want_nat == measure_nat(rv, nat0),
            want_floor == measure_floor(rv, floor0, nat0.len() as int),
            forall|k: int| 0 <= k < rv.len() && k < nat0.len() ==> #[trigger] cell_full(rv[k]) <= usize::MAX,
            forall|k: int| 0 <= k < c ==> natural@[k] as int == #[trigger] want_nat[k],
            forall|k: int| 0 <= k < c ==> floor@[k] as int == #[trigger] want_floor[k],
            forall|k: int| c <= k < nat0.len() ==> natural@[k] as int == #[trigger] nat0[k],
            forall|k: int| c <= k < floor0.len() ==> floor@[k] as int == #[trigger] floor0[k],
        decreases row.len() - c,
    {
        let words = to_words(row[c].as_slice());
        let ghost wv = words.deep_view();
        assert(wv == words_of(rv[c as int]));
        if words.len() > 0 {
            // natural: the whole text, spaces between words included
            let mut full: usize = 0;
            let mut longest: usize = 0;
            let mut k: usize = 0;
            assert(cell_full(rv[c as int]) <= usize::MAX);
            assert(cell_full(rv[c as int]) == crate::wrap::sum_lens(wv) + wv.len() - 1);
            proof {
                lemma_sum_lens_prefix(wv, 0);
                assert(wv.take(0) =~= Seq::<SpanV>::empty());
            }
            while k < words.len()
                invariant
                    k <= words.len(),
                    wv == words.deep_view(),
                    wv.len() > 0,
                    crate::wrap::sum_lens(wv) + wv.len() - 1 <= usize::MAX,
                    full as int == crate::wrap::sum_lens(wv.take(k as int)),
                    longest as int == max_word(wv.take(k as int)),
                decreases words.len() - k,
            {
                assert(wv.take(k + 1).drop_last() =~= wv.take(k as int));
                proof {
                    lemma_sum_lens_prefix(wv, k + 1);
                }
                let n = words[k].0.as_str().unicode_len();
                full = full + n;
                if n > longest {
                    longest = n;
                }
                k = k + 1;
            }
            assert(wv.take(k as int) =~= wv);
            full = full + (words.len() - 1);
            if full > natural[c] {
                natural.set(c, full);
            }
            if longest > floor[c] {
                floor.set(c, longest);
            }
        }
        c = c + 1;
    }
    assert(ints(natural@) =~= want_nat);
    assert(ints(floor@) =~= want_floor);
}

/// Law: measuring rows only widens: no natural width or floor ever shrinks;
/// the order in which rows are measured does not matter; and measuring a
/// row twice is measuring it once.
pub proof fn law_measure_rows(
    a: Seq<Seq<SpanV>>,
    b: Seq<Seq<SpanV>>,
    natural: Seq<int>,
    floor: Seq<int>,
    n: int,
)
    ensures
        forall|c: int| 0 <= c < natural.len() ==> natural[c] <= #[trigger] measure_nat(a, natural)[c],
        forall|c: int| 0 <= c < floor.len() ==> floor[c] <= #[trigger] measure_floor(a, floor, n)[c],
        measure_nat(b, measure_nat(a, natural)) == measure_nat(a, measure_nat(b, natural)),
        measure_floor(b, measure_floor(a, floor, n), n) == measure_floor(a, measure_floor(b, floor, n), n),
        measure_nat(a, measure_nat(a, natural)) == measure_nat(a, natural),
        measure_floor(a, measure_floor(a, floor, n), n) == measure_floor(a, floor, n),
{
    assert(measure_nat(b, measure_nat(a, natural)) =~= measure_nat(a, measure_nat(b, natural)));
    assert(measure_floor(b, measure_floor(a, floor, n), n) =~= measure_floor(
        a,
        measure_floor(b, floor, n),
        n,
    ));
    assert(measure_nat(a, measure_nat(a, natural)) =~= measure_nat(a, natural));
    assert(measure_floor(a, measure_floor(a, floor, n), n) =~= measure_floor(a, floor, n));
}

// ---------------------------------------------------------------------------
// Fitting the columns.
// ---------------------------------------------------------------------------

/// The sum of the numbers.
pub open spec fn sum_ints(s: Seq<int>) -> int
    decreases s.len(),
{
    if s.len() == 0 {
        0
    } else {
        sum_ints(s.drop_last()) + s.last()
    }
}

/// How far each column's natural width exceeds its floor (0 where it does
/// not): what the column can give up.
pub open spec fn extras_of(natural: Seq<int>, floor: Seq<int>) -> Seq<int> {
    Seq::new(natural.len(), |c: int| if natural[c] > floor[c] { natural[c] - floor[c] } else { 0 })
}

/// A column's proportional share of `budget`, rounded down.
pub open spec fn base_share(extras: Seq<int>, budget: int, total: int, c: int) -> int {
    extras[c] * budget / total
}

/// The remainder that rounding down a column's share dropped.
pub open spec fn share_rest(extras: Seq<int>, budget: int, total: int, c: int) -> int {
    (extras[c] * budget) % total
}

/// A column can take one more character: its rounded share is below what
/// it can give up.
pub open spec fn can_take(extras: Seq<int>, budget: int, total: int, c: int) -> bool {
    base_share(extras, budget, total, c) < extras[c]
}

/// Column `d` comes before column `c` when leftover characters are handed
/// out: it can take one, and it lost a larger remainder, or the same one
/// and stands further left.
pub open spec fn served_before(extras: Seq<int>, budget: int, total: int, d: int, c: int) -> bool {
    &&& can_take(extras, budget, total, d)
    &&& (share_rest(extras, budget, total, d) > share_rest(extras, budget, total, c) || (
    share_rest(extras, budget, total, d) == share_rest(extras, budget, total, c) && d < c))
}

/// The number of columns below `m` served before column `c`.
pub open spec fn rank_below(extras: Seq<int>, budget: int, total: int, c: int, m: int) -> int
    decreases m,
{
    if m <= 0 {
        0
    } else {
        rank_below(extras, budget, total, c, m - 1) + if served_before(extras, budget, total, m - 1, c) {
            1int
        } else {
            0
        }
    }
}

/// The widths when the table does not fit but its floors do: each column
/// gets its floor plus its rounded-down share of the space left over in
/// proportion to what it can give up; the characters lost to rounding go,
/// one each, to the columns that lost the largest remainders.
pub open spec fn shared_widths(natural: Seq<int>, floor: Seq<int>, avail: int) -> Seq<int> {
    let extras = extras_of(natural, floor);
    let total = sum_ints(extras);
    let budget = avail - sum_ints(floor);
    let n = natural.len();
    let leftover = budget - sum_ints(Seq::new(n, |c: int| base_share(extras, budget, total, c)));
    Seq::new(
        n,
        |c: int|
            floor[c] + base_share(extras, budget, total, c) + if can_take(extras, budget, total, c)
                && rank_below(extras, budget, total, c, n as int) < leftover {
                1int
            } else {
                0
            },
    )
}

/// The column widths for `avail` characters of cell space: the natural
/// widths where they fit; the floors where even those do not fit (the table
/// then runs past the edge) or where no column can give anything up; the
/// proportional shares otherwise.
pub open spec fn fit_columns(natural: Seq<int>, floor: Seq<int>, avail: int) -> Seq<int> {
    if sum_ints(natural) <= avail {
        natural
    } else if sum_ints(floor) >= avail {
        floor
    } else if sum_ints(extras_of(natural, floor)) == 0 {
        floor
    } else {
        shared_widths(natural, floor, avail)
    }
}

/// Each number is at most the sum of non-negative numbers.
proof fn lemma_sum_ints_bounds(s: Seq<int>)
    requires
        forall|i: int| 0 <= i < s.len() ==> s[i] >= 0,
    ensures
        sum_ints(s) >= 0,
        forall|i: int| 0 <= i < s.len() ==> s[i] <= sum_ints(s),
    decreases s.len(),
{
    if s.len() > 0 {
        lemma_sum_ints_bounds(s.drop_last());
        assert forall|i: int| 0 <= i < s.len() implies s[i] <= sum_ints(s) by {
            if i < s.len() - 1 {
                assert(s[i] == s.drop_last()[i]);
            }
        }
    }
}

/// Sums add up pointwise bounds.
proof fn lemma_sum_ints_le(a: Seq<int>, b: Seq<int>, c: Seq<int>)
    requires
        a.len() == b.len(),
        a.len() == c.len(),
        forall|i: int| 0 <= i < a.len() ==> a[i] <= b[i] + c[i],
    ensures
        sum_ints(a) <= sum_ints(b) + sum_ints(c),
    decreases a.len(),
{
    if a.len() > 0 {
        lemma_sum_ints_le(a.drop_last(), b.drop_last(), c.drop_last());
    }
}

/// The rounded-down shares add up to at most the budget.
proof fn lemma_shares_sum(extras: Seq<int>, budget: int, total: int, k: int)
    requires
        0 <= k <= extras.len(),
        total > 0,
        budget >= 0,
        forall|i: int| 0 <= i < extras.len() ==> extras[i] >= 0,
    ensures
        sum_ints(Seq::new(k as nat, |c: int| base_share(extras, budget, total, c))) * total
            <= sum_ints(extras.take(k)) * budget,
    decreases k,
{
    let g = Seq::new(k as nat, |c: int| base_share(extras, budget, total, c));
    if k > 0 {
        lemma_shares_sum(extras, budget, total, k - 1);
        let g1 = Seq::new((k - 1) as nat, |c: int| base_share(extras, budget, total, c));
        assert(g.drop_last() =~= g1);
        assert(extras.take(k).drop_last() =~= extras.take(k - 1));
        let e = extras[k - 1];
        let q = e * budget / total;
        assert(q * total <= e * budget) by (nonlinear_arith)
            requires
                total > 0,
                q == e * budget / total,
        ;
        let gs = sum_ints(g1);
        let es = sum_ints(extras.take(k - 1));
        assert((gs + q) * total <= (es + e) * budget) by (nonlinear_arith)
            requires
                gs * total <= es * budget,
                q * total <= e * budget,
        ;
    } else {
        assert(g =~= Seq::<int>::empty());
        assert(extras.take(0) =~= Seq::<int>::empty());
    }
}

/// The sum of the numbers, exactly.
fn sum_wide(v: &Vec<usize>) -> (r: u128)
    ensures
        r as int == sum_ints(ints(v@)),
{
    let mut acc: u128 = 0;
    let mut i: usize = 0;
    while i < v.len()
        invariant
            i <= v.len(),
            acc as int == sum_ints(ints(v@).take(i as int)),
            acc <= i * 0xFFFF_FFFF_FFFF_FFFFu128,
        decreases v.len() - i,
    {
        assert(ints(v@).take(i + 1).drop_last() =~= ints(v@).take(i as int));
        assert(v[i as int] <= 0xFFFF_FFFF_FFFF_FFFFu128);
        acc = acc + v[i] as u128;
        i = i + 1;
    }
    assert(ints(v@).take(i as int) =~= ints(v@));
    acc
}

/// A copy of the numbers.
fn copy_widths(v: &Vec<usize>) -> (r: Vec<usize>)
    ensures
        r@ == v@,
{
    let mut r: Vec<usize> = Vec::new();
    let mut i: usize = 0;
    while i < v.len()
        invariant
            i <= v.len(),
            r@ =~= v@.take(i as int),
        decreases v.len() - i,
    {
        r.push(v[i]);
        i = i + 1;
    }
    r
}

/// Fits the columns into `avail` characters of cell space (see
/// `fit_columns`).
pub fn fit_column_widths(natural: &Vec<usize>, floor: &Vec<usize>, avail: usize) -> (r: Vec<usize>)
    requires
        natural.len() == floor.len(),
    ensures
        ints(r@) == fit_columns(ints(natural@), ints(floor@), avail as int),
{
    let ghost nv = ints(natural@);
    let ghost fv = ints(floor@);
    let n = natural.len();
    let nat_sum = sum_wide(natural);
    if nat_sum <= avail as u128 {
        return copy_widths(natural);
    }
    let floor_sum = sum_wide(floor);
    if floor_sum >= avail as u128 {
        return copy_widths(floor);
    }
    let mut extras: Vec<usize> = Vec::new();
    let mut c: usize = 0;
    while c < n
        invariant
            c <= n,
            n == natural.len(),
            n == floor.len(),
            nv == ints(natural@),
            fv == ints(floor@),
            ints(extras@) =~= extras_of(nv, fv).take(c as int),
            forall|k: int| 0 <= k < c ==> extras@[k] + floor@[k] <= usize::MAX,
        decreases n - c,
    {
        let e = if natural[c] > floor[c] {
            natural[c] - floor[c]
        } else {
            0
        };
        let ghost before = extras@;
        extras.push(e);
        assert(extras@ =~= before.push(e));
        assert(extras_of(nv, fv).take(c + 1) =~= extras_of(nv, fv).take(c as int).push(e as int));
        assert(ints(extras@) =~= ints(before).push(e as int));
        c = c + 1;
    }
    let ghost ev = extras_of(nv, fv);
    assert(ints(extras@) =~= ev);
    let extra_sum = sum_wide(&extras);
    if extra_sum == 0 {
        return copy_widths(floor);
    }
    let budget: usize = avail - (floor_sum as usize);
    proof {
        // a column's natural width is at most its floor plus what it can give up
        lemma_sum_ints_le(nv, fv, ev);
        assert forall|i: int| 0 <= i < ev.len() implies ev[i] >= 0 by {}
        lemma_sum_ints_bounds(ev);
        lemma_shares_sum(ev, budget as int, extra_sum as int, n as int);
        assert(ev.take(n as int) =~= ev);
    }
    let ghost total = extra_sum as int;
    // rounded-down shares and the remainders they drop
    let mut given: Vec<usize> = Vec::new();
    let mut rests: Vec<u128> = Vec::new();
    let mut given_sum: u128 = 0;
    c = 0;
    while c < n
        invariant
            c <= n,
            n == extras.len(),
            ev == ints(extras@),
            total == extra_sum,
            total > 0,
            budget as int <= total,
            forall|i: int| 0 <= i < ev.len() ==> ev[i] <= total,
            given@.len() == c,
            rests@.len() == c,
            forall|k: int| 0 <= k < c ==> given@[k] as int == #[trigger] base_share(ev, budget as int, total, k),
            forall|k: int| 0 <= k < c ==> rests@[k] as int == #[trigger] share_rest(ev, budget as int, total, k),
            forall|k: int| 0 <= k < c ==> given@[k] <= extras@[k],
            given_sum as int == sum_ints(Seq::new(c as nat, |k: int| base_share(ev, budget as int, total, k))),
            given_sum <= c * 0xFFFF_FFFF_FFFF_FFFFu128,
        decreases n - c,
    {
        let e = extras[c];
        assert((e as int) * (budget as int) <= 0xFFFF_FFFF_FFFF_FFFFint * 0xFFFF_FFFF_FFFF_FFFFint) by (nonlinear_arith)
            requires
                0 <= e <= 0xFFFF_FFFF_FFFF_FFFFint,
                0 <= budget <= 0xFFFF_FFFF_FFFF_FFFFint,
        ;
        let prod: u128 = (e as u128) * (budget as u128);
        let g: u128 = prod / extra_sum;
        assert(g <= e) by (nonlinear_arith)
            requires
                g == prod / extra_sum,
                prod == e * budget,
                budget <= extra_sum,
                extra_sum > 0,
        ;
        given.push(g as usize);
        rests.push(prod % extra_sum);
        let ghost before = Seq::new(c as nat, |k: int| base_share(ev, budget as int, total, k));
        assert(Seq::new((c + 1) as nat, |k: int| base_share(ev, budget as int, total, k)).drop_last() =~= before);
        given_sum = given_sum + g;
        c = c + 1;
    }
    let ghost shares = Seq::new(n as nat, |k: int| base_share(ev, budget as int, total, k));
    assert(given_sum as int * total <= total * budget) by (nonlinear_arith)
        requires
            given_sum as int * total <= sum_ints(ev) * budget,
            sum_ints(ev) == total,
    ;
    assert(given_sum <= budget) by (nonlinear_arith)
        requires
            given_sum as int * total <= total * budget,
            total > 0,
    ;
    let leftover: usize = budget - (given_sum as usize);
    // widths: floor, share, and one leftover character for the columns
    // that lost the largest remainders
    let mut widths: Vec<usize> = Vec::new();
    c = 0;
    while c < n
        invariant
            c <= n,
            n == extras.len(),
            n == given.len(),
            n == rests.len(),
            n == floor.len(),
            fv == ints(floor@),
            ev == ints(extras@),
            total == extra_sum,
            total > 0,
            forall|k: int| 0 <= k < n ==> given@[k] as int == #[trigger] base_share(ev, budget as int, total, k),
            forall|k: int| 0 <= k < n ==> rests@[k] as int == #[trigger] share_rest(ev, budget as int, total, k),
            forall|k: int| 0 <= k < n ==> given@[k] <= extras@[k],
            forall|k: int| 0 <= k < n ==> extras@[k] + floor@[k] <= usize::MAX,
            widths@.len() == c,
            forall|k: int| 0 <= k < c ==> widths@[k] as int == #[trigger] shared_widths(nv, fv, avail as int)[k],
            shared_widths(nv, fv, avail as int).len() == n,
            extras_of(nv, fv) == ev,
            sum_ints(ev) == total,
            budget == avail - sum_ints(fv),
            leftover == budget - sum_ints(shares),
            shares == Seq::new(n as nat, |k: int| base_share(ev, budget as int, total, k)),
        decreases n - c,
    {
        let takes = given[c] < extras[c];
        let mut rank: usize = 0;
        let mut d: usize = 0;
        while d < n
            invariant
                d <= n,
                rank <= d,
                n == extras.len(),
                n == given.len(),
                n == rests.len(),
                c < n,
                ev == ints(extras@),
                total > 0,
                forall|k: int| 0 <= k < n ==> given@[k] as int == #[trigger] base_share(ev, budget as int, total, k),
                forall|k: int| 0 <= k < n ==> rests@[k] as int == #[trigger] share_rest(ev, budget as int, total, k),
                rank as int == rank_below(ev, budget as int, total, c as int, d as int),
            decreases n - d,
        {
            if given[d] < extras[d] && (rests[d] > rests[c] || (rests[d] == rests[c] && d < c)) {
                rank = rank + 1;
            }
            d = d + 1;
        }
        let bonus: usize = if takes && rank < leftover {
            1
        } else {
            0
        };
        widths.push(floor[c] + given[c] + bonus);
        c = c + 1;
    }
    assert(ints(widths@) =~= shared_widths(nv, fv, avail as int));
    widths
}

// ---------------------------------------------------------------------------
// Drawing cells and borders.
// ---------------------------------------------------------------------------

/// `n` spaces.
pub open spec fn spaces(n: int) -> Seq<char> {
    repeat_seq(seq![' '], n as nat)
}

/// How a cell's free space splits into left and right padding.
pub open spec fn pad_split(extra: int, align: Option<Alignment>) -> (int, int) {
    match align {
        Some(Alignment::Right) => (extra, 0),
        Some(Alignment::Center) => (extra / 2, extra - extra / 2),
        _ => (0, extra),
    }
}

/// A cell line padded with spaces to `w` characters, by its alignment:
/// right-aligned cells are padded on the left, centred ones on both sides
/// (the odd space going right), all others on the right. A line wider than
/// `w` is left as it is.
pub open spec fn padded(content: Seq<SpanV>, w: int, align: Option<Alignment>) -> Seq<SpanV> {
    let extra = if w > sum_lens(content) {
        w - sum_lens(content)
    } else {
        0
    };
    let lr = pad_split(extra, align);
    (if lr.0 > 0 {
        seq![(spaces(lr.0), Style::plain())]
    } else {
        seq![]
    }) + content + (if lr.1 > 0 {
        seq![(spaces(lr.1), Style::plain())]
    } else {
        seq![]
    })
}

/// Pads a cell line to width `w` by its alignment (see `padded`).
pub fn pad_cell(content: &[(String, Style)], w: usize, align: Option<Alignment>) -> (r: Vec<
    (String, Style),
>)
    ensures
        r.deep_view() == padded(content.deep_view(), w as int, align),
{
    let ghost cv = content.deep_view();
    let mut len: usize = 0;
    let mut i: usize = 0;
    assert(cv.take(0) =~= Seq::<SpanV>::empty());
    while i < content.len()
        invariant
            i <= content.len(),
            cv == content.deep_view(),
            len as int == if sum_lens(cv.take(i as int)) <= usize::MAX {
                sum_lens(cv.take(i as int))
            } else {
                usize::MAX as int
            },
        decreases content.len() - i,
    {
        assert(cv.take(i + 1).drop_last() =~= cv.take(i as int));
        len = len.saturating_add(content[i].0.as_str().unicode_len());
        i = i + 1;
    }
    assert(cv.take(i as int) =~= cv);
    let extra = w.saturating_sub(len);
    let (l, r) = match align {
        Some(Alignment::Right) => (extra, 0),
        Some(Alignment::Center) => (extra / 2, extra - extra / 2),
        _ => (0, extra),
    };
    let ghost ex = if w > sum_lens(cv) {
        w - sum_lens(cv)
    } else {
        0
    };
    assert(extra as int == ex);
    assert((l as int, r as int) == pad_split(ex, align));
    let mut out: Vec<(String, Style)> = Vec::new();
    proof {
        reveal_strlit(" ");
    }
    assert(" "@ =~= seq![' ']);
    if l > 0 {
        let sp = (repeat_str(" ", l), Style::default());
        out.push(sp);
        assert(out.deep_view() =~= seq![(spaces(l as int), Style::plain())]);
    } else {
        assert(out.deep_view() =~= Seq::<SpanV>::empty());
    }
    let mut k: usize = 0;
    let ghost start = out.deep_view();
    assert(cv.take(0) =~= Seq::<SpanV>::empty());
    while k < content.len()
        invariant
            k <= content.len(),
            cv == content.deep_view(),
            out.deep_view() =~= start + cv.take(k as int),
        decreases content.len() - k,
    {
        let ghost before = out.deep_view();
        out.push((content[k].0.clone(), content[k].1));
        assert(out.deep_view() =~= before.push(cv[k as int]));
        k = k + 1;
    }
    assert(cv.take(k as int) =~= cv);
    if r > 0 {
        let ghost before = out.deep_view();
        let sp = (repeat_str(" ", r), Style::default());
        out.push(sp);
        assert(out.deep_view() =~= before.push((spaces(r as int), Style::plain())));
    }
    assert(out.deep_view() =~= padded(cv, w as int, align));
    out
}

/// The border text between columns of the given widths: `left`, then for
/// each column `w + 2` box lines (`mid` between two columns), then `right`.
pub open spec fn rule_inner(widths: Seq<int>, mid: char) -> Seq<char>
    decreases widths.len(),
{
    if widths.len() == 0 {
        seq![]
    } else {
        rule_inner(widths.drop_last(), mid) + (if widths.len() > 1 {
            seq![mid]
        } else {
            seq![]
        }) + repeat_seq(seq!['─'], (widths.last() + 2) as nat)
    }
}

/// A horizontal table border.
pub open spec fn rule_text(widths: Seq<int>, left: char, mid: char, right: char) -> Seq<char> {
    seq![left] + rule_inner(widths, mid) + seq![right]
}

/// Builds a horizontal table border (see `rule_text`).
fn rule(widths: &Vec<usize>, left: char, mid: char, right: char) -> (r: String)
    ensures
        r@ == rule_text(ints(widths@), left, mid, right),
{
    let ghost wv = ints(widths@);
    let mut s = String::new();
    push_char(&mut s, left);
    let mut i: usize = 0;
    assert(wv.take(0) =~= Seq::<int>::empty());
    while i < widths.len()
        invariant
            i <= widths.len(),
            wv == ints(widths@),
            s@ == seq![left] + rule_inner(wv.take(i as int), mid),
        decreases widths.len() - i,
    {
        assert(wv.take(i + 1).drop_last() =~= wv.take(i as int));
        if i > 0 {
            push_char(&mut s, mid);
        }
        let w = widths[i];
        let ghost mid_part = s@;
        let mut k: usize = 0;
        while k < w
            invariant
                k <= w,
                s@ == mid_part + repeat_seq(seq!['─'], k as nat),
            decreases w - k,
        {
            push_char(&mut s, '─');
            k = k + 1;
        }
        push_char(&mut s, '─');
        push_char(&mut s, '─');
        proof {
            lemma_repeat_push(seq!['─'], w as nat);
            lemma_repeat_push(seq!['─'], (w + 1) as nat);
        }
        assert(s@ =~= seq![left] + rule_inner(wv.take(i + 1), mid));
        i = i + 1;
    }
    assert(wv.take(i as int) =~= wv);
    push_char(&mut s, right);
    s
}

/// One more copy at the end.
proof fn lemma_repeat_push(s: Seq<char>, n: nat)
    ensures
        repeat_seq(s, n + 1) == repeat_seq(s, n) + s,
{
}

// ---------------------------------------------------------------------------
// Rows and the whole table.
// ---------------------------------------------------------------------------

/// Line `i` of a cell's lines; an empty line past the cell's last.
pub open spec fn line_at(lines: Seq<Seq<SpanV>>, i: int) -> Seq<SpanV> {
    if 0 <= i < lines.len() {
        lines[i]
    } else {
        seq![]
    }
}

/// Column `c`'s alignment, if the table states one.
pub open spec fn align_at(aligns: Seq<Alignment>, c: int) -> Option<Alignment> {
    if 0 <= c < aligns.len() {
        Some(aligns[c])
    } else {
        None
    }
}

/// The padded cells of the first `k` columns on line `i` of a row, with a
/// column separator between each two.
pub open spec fn row_body(
    cells: Seq<Seq<Seq<SpanV>>>,
    widths: Seq<int>,
    aligns: Seq<Alignment>,
    i: int,
    k: int,
) -> Seq<SpanV>
    decreases k,
{
    if k <= 0 {
        seq![]
    } else {
        row_body(cells, widths, aligns, i, k - 1) + (if k > 1 {
            seq![(" │ "@, Style::plain())]
        } else {
            seq![]
        }) + padded(line_at(cells[k - 1], i), widths[k - 1], align_at(aligns, k - 1))
    }
}

/// Line `i` of a table row, borders included.
pub open spec fn row_line(cells: Seq<Seq<Seq<SpanV>>>, widths: Seq<int>, aligns: Seq<Alignment>, i: int) -> Seq<
    SpanV,
> {
    seq![("│ "@, Style::plain())] + row_body(cells, widths, aligns, i, cells.len() as int) + seq![
        (" │"@, Style::plain()),
    ]
}

/// The most lines any of the cells has.
pub open spec fn max_lines(cells: Seq<Seq<Seq<SpanV>>>) -> int
    decreases cells.len(),
{
    if cells.len() == 0 {
        0
    } else {
        let m = max_lines(cells.drop_last());
        if cells.last().len() > m {
            cells.last().len() as int
        } else {
            m
        }
    }
}

/// A row is as tall as its tallest cell.
pub open spec fn row_height(cells: Seq<Seq<Seq<SpanV>>>) -> int {
    if cells.len() == 0 {
        1
    } else {
        max_lines(cells)
    }
}

/// The lines of a table row whose cells are already wrapped.
pub open spec fn row_lines(cells: Seq<Seq<Seq<SpanV>>>, widths: Seq<int>, aligns: Seq<Alignment>) -> Seq<
    Seq<SpanV>,
> {
    Seq::new(row_height(cells) as nat, |i: int| row_line(cells, widths, aligns, i))
}

/// Draws the lines of a row whose cells are wrapped, one cell per column.
fn emit_row(
    out: &mut Vec<Vec<(String, Style)>>,
    cells: &Vec<Vec<Vec<(String, Style)>>>,
    widths: &Vec<usize>,
    aligns: &[Alignment],
)
    requires
        cells.len() == widths.len(),
    ensures
        final(out).deep_view() == old(out).deep_view() + row_lines(
            cells.deep_view(),
            ints(widths@),
            aligns@,
        ),
{
    let ghost cv = cells.deep_view();
    let ghost wv = ints(widths@);
    let ghost start = out.deep_view();
    let n = cells.len();
    let mut h: usize = 0;
    let mut c: usize = 0;
    assert(cv.take(0) =~= Seq::<Seq<Seq<SpanV>>>::empty());
    while c < n
        invariant
            c <= n,
            n == cells.len(),
            cv == cells.deep_view(),
            h as int == max_lines(cv.take(c as int)),
        decreases n - c,
    {
        assert(cv.take(c + 1).drop_last() =~= cv.take(c as int));
        if cells[c].len() > h {
            h = cells[c].len();
        }
        c = c + 1;
    }
    assert(cv.take(n as int) =~= cv);
    if n == 0 {
        h = 1;
    }
    let ghost want = row_lines(cv, wv, aligns@);
    let mut li: usize = 0;
    while li < h
        invariant
            li <= h,
            h == want.len(),
            n == cells.len(),
            n == widths.len(),
            cv == cells.deep_view(),
            wv == ints(widths@),
            want == row_lines(cv, wv, aligns@),
            out.deep_view() =~= start + want.take(li as int),
        decreases h - li,
    {
        let mut line: Vec<(String, Style)> = Vec::new();
        line.push((String::from_str("│ "), Style::default()));
        let ghost first = line.deep_view();
        assert(first =~= seq![("│ "@, Style::plain())]);
        let mut k: usize = 0;
        while k < n
            invariant
                k <= n,
                n == cells.len(),
                n == widths.len(),
                cv == cells.deep_view(),
                wv == ints(widths@),
                line.deep_view() =~= first + row_body(cv, wv, aligns@, li as int, k as int),
            decreases n - k,
        {
            let ghost before = line.deep_view();
            if k > 0 {
                line.push((String::from_str(" │ "), Style::default()));
            }
            let align = if k < aligns.len() {
                Some(aligns[k])
            } else {
                None
            };
            let mut p = if li < cells[k].len() {
                pad_cell(cells[k][li].as_slice(), widths[k], align)
            } else {
                let empty: Vec<(String, Style)> = Vec::new();
                assert(empty.deep_view() =~= Seq::<SpanV>::empty());
                pad_cell(empty.as_slice(), widths[k], align)
            };
            assert(p.deep_view() == padded(line_at(cv[k as int], li as int), wv[k as int], align_at(aligns@, k as int)));
            let ghost mid = line.deep_view();
            assert(mid =~= before + if k > 0 {
                seq![(" │ "@, Style::plain())]
            } else {
                seq![]
            });
            let ghost pv = p.deep_view();
            line.append(&mut p);
            assert(line.deep_view() =~= mid + pv);
            assert(line.deep_view() =~= first + row_body(cv, wv, aligns@, li as int, k + 1));
            k = k + 1;
        }
        line.push((String::from_str(" │"), Style::default()));
        assert(line.deep_view() =~= row_line(cv, wv, aligns@, li as int));
        let ghost ov = out.deep_view();
        let ghost lv = line.deep_view();
        out.push(line);
        assert(out.deep_view() =~= ov.push(lv));
        assert(want[li as int] == row_line(cv, wv, aligns@, li as int));
        assert(want.take(li + 1) =~= want.take(li as int).push(want[li as int]));
        li = li + 1;
    }
    assert(want.take(h as int) =~= want);
}

/// Cell `c` of a row; an empty cell past the row's end.
pub open spec fn cell_at(row: Seq<Seq<SpanV>>, c: int) -> Seq<SpanV> {
    if 0 <= c < row.len() {
        row[c]
    } else {
        seq![]
    }
}

/// A cell wrapped to width `w`; an empty cell still takes one line.
pub open spec fn cell_lines(cell: Seq<SpanV>, w: int) -> Seq<Seq<SpanV>> {
    let ls = wrap_lines(words_of(cell), seq![], seq![], w);
    if ls.len() == 0 {
        seq![seq![]]
    } else {
        ls
    }
}

/// Each column's cell of the row, wrapped to the column's width.
pub open spec fn row_cells(row: Seq<Seq<SpanV>>, widths: Seq<int>) -> Seq<Seq<Seq<SpanV>>> {
    Seq::new(widths.len(), |c: int| cell_lines(cell_at(row, c), widths[c]))
}

/// The lines of the body rows, one row after another.
pub open spec fn body_lines(rows: Seq<Seq<Seq<SpanV>>>, widths: Seq<int>, aligns: Seq<Alignment>) -> Seq<
    Seq<SpanV>,
>
    decreases rows.len(),
{
    if rows.len() == 0 {
        seq![]
    } else {
        body_lines(rows.drop_last(), widths, aligns) + row_lines(
            row_cells(rows.last(), widths),
            widths,
            aligns,
        )
    }
}

/// The most cells any body row has.
pub open spec fn max_row_len(rows: Seq<Seq<Seq<SpanV>>>) -> int
    decreases rows.len(),
{
    if rows.len() == 0 {
        0
    } else {
        let m = max_row_len(rows.drop_last());
        if rows.last().len() > m {
            rows.last().len() as int
        } else {
            m
        }
    }
}

/// The number of columns: the most cells of the header or any row.
pub open spec fn column_count(head: Seq<Seq<SpanV>>, rows: Seq<Seq<Seq<SpanV>>>) -> int {
    if head.len() > max_row_len(rows) {
        head.len() as int
    } else {
        max_row_len(rows)
    }
}

/// The natural widths after the body rows, in order.
pub open spec fn measure_all_nat(rows: Seq<Seq<Seq<SpanV>>>, natural: Seq<int>) -> Seq<int>
    decreases rows.len(),
{
    if rows.len() == 0 {
        natural
    } else {
        measure_nat(rows.last(), measure_all_nat(rows.drop_last(), natural))
    }
}

/// The floors after the body rows, in order.
pub open spec fn measure_all_floor(rows: Seq<Seq<Seq<SpanV>>>, floor: Seq<int>) -> Seq<int>
    decreases rows.len(),
{
    if rows.len() == 0 {
        floor
    } else {
        measure_floor(rows.last(), measure_all_floor(rows.drop_last(), floor), floor.len() as int)
    }
}

/// Each column's natural width: the widest cell text on one line (0 for a
/// column without words).
pub open spec fn natural_widths(head: Seq<Seq<SpanV>>, rows: Seq<Seq<Seq<SpanV>>>) -> Seq<int> {
    measure_all_nat(rows, measure_nat(head, Seq::new(column_count(head, rows) as nat, |c: int| 0int)))
}

/// Each column's floor: its longest word, and at least 1.
pub open spec fn floor_widths(head: Seq<Seq<SpanV>>, rows: Seq<Seq<Seq<SpanV>>>) -> Seq<int> {
    measure_all_floor(
        rows,
        measure_floor(head, Seq::new(column_count(head, rows) as nat, |c: int| 1int), column_count(head, rows)),
    )
}

/// The cell space a table of `width` characters leaves: the width less the
/// borders and padding (three characters per column and one more).
pub open spec fn cell_space(head: Seq<Seq<SpanV>>, rows: Seq<Seq<Seq<SpanV>>>, width: int) -> int {
    let overhead = 3 * column_count(head, rows) + 1;
    if width > overhead {
        width - overhead
    } else {
        0
    }
}

/// The column widths of a table drawn `width` characters wide.
pub open spec fn table_widths(head: Seq<Seq<SpanV>>, rows: Seq<Seq<Seq<SpanV>>>, width: int) -> Seq<int> {
    fit_columns(natural_widths(head, rows), floor_widths(head, rows), cell_space(head, rows, width))
}

/// A border line.
pub open spec fn rule_line(widths: Seq<int>, left: char, mid: char, right: char) -> Seq<SpanV> {
    seq![(rule_text(widths, left, mid, right), Style::plain())]
}

/// The lines of a table: the top border, the header row, a separator, the
/// body rows and the bottom border; nothing for a table without columns.
pub open spec fn table_lines(
    aligns: Seq<Alignment>,
    head: Seq<Seq<SpanV>>,
    rows: Seq<Seq<Seq<SpanV>>>,
    width: int,
) -> Seq<Seq<SpanV>> {
    if column_count(head, rows) == 0 {
        seq![]
    } else {
        let w = table_widths(head, rows, width);
        seq![rule_line(w, '┌', '┬', '┐')] + row_lines(row_cells(head, w), w, aligns) + seq![
            rule_line(w, '├', '┼', '┤'),
        ] + body_lines(rows, w, aligns) + seq![rule_line(w, '└', '┴', '┘')]
    }
}

/// Every cell's text fits on one line of `usize` characters.
pub open spec fn row_measurable(row: Seq<Seq<SpanV>>) -> bool {
    forall|c: int| 0 <= c < row.len() ==> #[trigger] cell_full(row[c]) <= usize::MAX
}

/// Every cell of the table can be measured.
pub open spec fn table_measurable(head: Seq<Seq<SpanV>>, rows: Seq<Seq<Seq<SpanV>>>) -> bool {
    row_measurable(head) && forall|r: int| 0 <= r < rows.len() ==> row_measurable(#[trigger] rows[r])
}

/// Wraps each column's cell of a row to the column's width.
fn wrap_row(row: &[Vec<Span>], widths: &Vec<usize>) -> (r: Vec<Vec<Vec<(String, Style)>>>)
    ensures
        r.deep_view() == row_cells(row.deep_view(), ints(widths@)),
{
    let ghost rv = row.deep_view();
    let ghost want = row_cells(rv, ints(widths@));
    let mut out: Vec<Vec<Vec<(String, Style)>>> = Vec::new();
    let mut c: usize = 0;
    proof {
        reveal_strlit("");
    }
    while c < widths.len()
        invariant
            c <= widths.len(),
            rv == row.deep_view(),
            want == row_cells(rv, ints(widths@)),
            out.deep_view() =~= want.take(c as int),
        decreases widths.len() - c,
    {
        proof {
            reveal_strlit("");
        }
        let mut lines = if c < row.len() {
            wrap_spans(row[c].as_slice(), "", "", widths[c])
        } else {
            let empty: Vec<Span> = Vec::new();
            assert(empty.deep_view() =~= Seq::<SpanV>::empty());
            wrap_spans(empty.as_slice(), "", "", widths[c])
        };
        assert(""@ =~= Seq::<char>::empty());
        if lines.len() == 0 {
            let blank: Vec<(String, Style)> = Vec::new();
            assert(blank.deep_view() =~= Seq::<SpanV>::empty());
            lines.push(blank);
            assert(lines.deep_view() =~= seq![Seq::<SpanV>::empty()]);
        }
        assert(lines.deep_view() == want[c as int]);
        let ghost before = out.deep_view();
        let ghost lv = lines.deep_view();
        out.push(lines);
        assert(out.deep_view() =~= before.push(lv));
        assert(want.take(c + 1) =~= want.take(c as int).push(want[c as int]));
        c = c + 1;
    }
    assert(want.take(c as int) =~= want);
    out
}

/// Lays a table out to `width` characters (see `table_lines`): columns get
/// their natural widths where those fit, are shrunk toward their longest
/// words where not, and each cell wraps to its column's width.
pub fn layout_table(aligns: &[Alignment], head: &[Vec<Span>], rows: &[Vec<Vec<Span>>], width: usize) -> (r: Vec<
    Vec<(String, Style)>,
>)
    requires
        table_measurable(head.deep_view(), rows.deep_view()),
    ensures
        r.deep_view() == table_lines(aligns@, head.deep_view(), rows.deep_view(), width as int),
{
    let ghost hv = head.deep_view();
    let ghost rv = rows.deep_view();
    let mut ncols: usize = 0;
    let mut i: usize = 0;
    assert(rv.take(0) =~= Seq::<Seq<Seq<SpanV>>>::empty());
    while i < rows.len()
        invariant
            i <= rows.len(),
            rv == rows.deep_view(),
            ncols as int == max_row_len(rv.take(i as int)),
        decreases rows.len() - i,
    {
        assert(rv.take(i + 1).drop_last() =~= rv.take(i as int));
        if rows[i].len() > ncols {
            ncols = rows[i].len();
        }
        i = i + 1;
    }
    assert(rv.take(i as int) =~= rv);
    if head.len() > ncols {
        ncols = head.len();
    }
    if ncols == 0 {
        return Vec::new();
    }
    // pass 1: natural widths and floors
    let mut natural: Vec<usize> = Vec::new();
    let mut floor: Vec<usize> = Vec::new();
    let mut c: usize = 0;
    while c < ncols
        invariant
            c <= ncols,
            natural@.len() == c,
            floor@.len() == c,
            forall|k: int| 0 <= k < c ==> natural@[k] == 0,
            forall|k: int| 0 <= k < c ==> floor@[k] == 1,
        decreases ncols - c,
    {
        natural.push(0);
        floor.push(1);
        c = c + 1;
    }
    assert(ints(natural@) =~= Seq::new(ncols as nat, |k: int| 0int));
    assert(ints(floor@) =~= Seq::new(ncols as nat, |k: int| 1int));
    measure_row(head, &mut natural, &mut floor);
    i = 0;
    while i < rows.len()
        invariant
            i <= rows.len(),
            rv == rows.deep_view(),
            hv == head.deep_view(),
            table_measurable(hv, rv),
            natural@.len() == ncols,
            floor@.len() == ncols,
            ncols == column_count(hv, rv),
            ints(natural@) == measure_all_nat(
                rv.take(i as int),
                measure_nat(hv, Seq::new(ncols as nat, |k: int| 0int)),
            ),
            ints(floor@) == measure_all_floor(
                rv.take(i as int),
                measure_floor(hv, Seq::new(ncols as nat, |k: int| 1int), ncols as int),
            ),
        decreases rows.len() - i,
    {
        assert(rv.take(i + 1).drop_last() =~= rv.take(i as int));
        assert(row_measurable(rv[i as int]));
        measure_row(rows[i].as_slice(), &mut natural, &mut floor);
        i = i + 1;
    }
    assert(rv.take(i as int) =~= rv);
    // pass 2: fit to the width
    let overhead: u128 = 3 * (ncols as u128) + 1;
    let avail: usize = if (width as u128) > overhead {
        ((width as u128) - overhead) as usize
    } else {
        0
    };
    assert(avail as int == cell_space(hv, rv, width as int));
    let widths = fit_column_widths(&natural, &floor, avail);
    let ghost wv = ints(widths@);
    assert(wv == table_widths(hv, rv, width as int));
    // pass 3: wrap and draw
    let head_cells = wrap_row(head, &widths);
    assert(head_cells.deep_view().len() == widths@.len());
    let mut out: Vec<Vec<(String, Style)>> = Vec::new();
    let top = rule(&widths, '┌', '┬', '┐');
    let top_line = vec![(top, Style::default())];
    assert(top_line.deep_view() =~= rule_line(wv, '┌', '┬', '┐'));
    out.push(top_line);
    assert(out.deep_view() =~= seq![rule_line(wv, '┌', '┬', '┐')]);
    emit_row(&mut out, &head_cells, &widths, aligns);
    let sep = rule(&widths, '├', '┼', '┤');
    let sep_line = vec![(sep, Style::default())];
    assert(sep_line.deep_view() =~= rule_line(wv, '├', '┼', '┤'));
    out.push(sep_line);
    let ghost start = out.deep_view();
    assert(start =~= seq![rule_line(wv, '┌', '┬', '┐')] + row_lines(row_cells(hv, wv), wv, aligns@)
        + seq![rule_line(wv, '├', '┼', '┤')]);
    assert(body_lines(rv.take(0), wv, aligns@) =~= Seq::<Seq<SpanV>>::empty());
    i = 0;
    assert(rv.take(0) =~= Seq::<Seq<Seq<SpanV>>>::empty());
    while i < rows.len()
        invariant
            i <= rows.len(),
            rv == rows.deep_view(),
            wv == ints(widths@),
            widths@.len() == ncols,
            out.deep_view() =~= start + body_lines(rv.take(i as int), wv, aligns@),
        decreases rows.len() - i,
    {
        assert(rv.take(i + 1).drop_last() =~= rv.take(i as int));
        let cells = wrap_row(rows[i].as_slice(), &widths);
        assert(cells.deep_view().len() == ncols);
        emit_row(&mut out, &cells, &widths, aligns);
        i = i + 1;
    }
    assert(rv.take(i as int) =~= rv);
    let bottom = rule(&widths, '└', '┴', '┘');
    let bottom_line = vec![(bottom, Style::default())];
    assert(bottom_line.deep_view() =~= rule_line(wv, '└', '┴', '┘'));
    let ghost before_bottom = out.deep_view();
    out.push(bottom_line);
    assert(out.deep_view() =~= before_bottom.push(rule_line(wv, '└', '┴', '┘')));
    assert(out.deep_view() =~= table_lines(aligns@, hv, rv, width as int));
    out
}

// ---------------------------------------------------------------------------
// Laws of column fitting.
// ---------------------------------------------------------------------------

/// Sums add pointwise.
proof fn lemma_sum_ints_add3(a: Seq<int>, b: Seq<int>, c: Seq<int>, d: Seq<int>)
    requires
        a.len() == b.len(),
        a.len() == c.len(),
        a.len() == d.len(),
        forall|i: int| 0 <= i < a.len() ==> a[i] == b[i] + c[i] + d[i],
    ensures
        sum_ints(a) == sum_ints(b) + sum_ints(c) + sum_ints(d),
    decreases a.len(),
{
    if a.len() > 0 {
        lemma_sum_ints_add3(a.drop_last(), b.drop_last(), c.drop_last(), d.drop_last());
    }
}

/// Being served first is transitive.
proof fn lemma_served_transitive(extras: Seq<int>, budget: int, total: int, a: int, b: int, c: int)
    requires
        served_before(extras, budget, total, a, b),
        served_before(extras, budget, total, b, c),
    ensures
        served_before(extras, budget, total, a, c),
{
}

/// A column served before `c` is counted in `c`'s rank, after all that are
/// served before it.
proof fn lemma_rank_below_order(extras: Seq<int>, budget: int, total: int, d: int, c: int, m: int)
    requires
        served_before(extras, budget, total, d, c),
    ensures
        rank_below(extras, budget, total, c, m) >= rank_below(extras, budget, total, d, m) + if 0
            <= d < m {
            1int
        } else {
            0
        },
    decreases m,
{
    if m > 0 {
        lemma_rank_below_order(extras, budget, total, d, c, m - 1);
        let e = m - 1;
        if served_before(extras, budget, total, e, d) {
            lemma_served_transitive(extras, budget, total, e, d, c);
        }
    }
}

/// Columns that can take a leftover character have distinct ranks.
proof fn lemma_rank_distinct(extras: Seq<int>, budget: int, total: int, c: int, d: int, n: int)
    requires
        can_take(extras, budget, total, c),
        can_take(extras, budget, total, d),
        c != d,
        0 <= c < n,
        0 <= d < n,
    ensures
        rank_below(extras, budget, total, c, n) != rank_below(extras, budget, total, d, n),
{
    if served_before(extras, budget, total, d, c) {
        lemma_rank_below_order(extras, budget, total, d, c, n);
    } else {
        assert(served_before(extras, budget, total, c, d));
        lemma_rank_below_order(extras, budget, total, c, d, n);
    }
}

/// The columns that get a leftover character.
spec fn bonus_set(extras: Seq<int>, budget: int, total: int, leftover: int, n: int) -> Set<int> {
    Set::new(
        |c: int|
            0 <= c < n && can_take(extras, budget, total, c) && rank_below(extras, budget, total, c, n)
                < leftover,
    )
}

/// One for each of the first `m` columns that gets a leftover character.
spec fn bonus_count(extras: Seq<int>, budget: int, total: int, leftover: int, n: int, m: int) -> int
    decreases m,
{
    if m <= 0 {
        0
    } else {
        bonus_count(extras, budget, total, leftover, n, m - 1) + if can_take(extras, budget, total, m - 1)
            && rank_below(extras, budget, total, m - 1, n) < leftover {
            1int
        } else {
            0
        }
    }
}

proof fn lemma_bonus_count_set(extras: Seq<int>, budget: int, total: int, leftover: int, n: int, m: int)
    requires
        0 <= m <= n,
    ensures
        bonus_set(extras, budget, total, leftover, n).filter(|c: int| c < m).finite(),
        bonus_count(extras, budget, total, leftover, n, m) == bonus_set(
            extras,
            budget,
            total,
            leftover,
            n,
        ).filter(|c: int| c < m).len(),
    decreases m,
{
    let s = bonus_set(extras, budget, total, leftover, n);
    if m == 0 {
        assert(s.filter(|c: int| c < 0) =~= Set::<int>::empty());
    } else {
        lemma_bonus_count_set(extras, budget, total, leftover, n, m - 1);
        let prev = s.filter(|c: int| c < m - 1);
        let cur = s.filter(|c: int| c < m);
        if s.contains(m - 1) {
            assert(cur =~= prev.insert(m - 1));
        } else {
            assert(cur =~= prev);
        }
    }
}

/// At most `leftover` columns get a leftover character.
proof fn lemma_bonus_count_bound(extras: Seq<int>, budget: int, total: int, leftover: int, n: int)
    requires
        n >= 0,
        leftover >= 0,
    ensures
        bonus_count(extras, budget, total, leftover, n, n) <= leftover,
{
    let s = bonus_set(extras, budget, total, leftover, n);
    lemma_bonus_count_set(extras, budget, total, leftover, n, n);
    assert(s.filter(|c: int| c < n) =~= s);
    let f = |c: int| rank_below(extras, budget, total, c, n);
    assert(vstd::relations::injective_on(f, s)) by {
        assert forall|c: int, d: int| s.contains(c) && s.contains(d) && #[trigger] f(c) == #[trigger] f(d)
            implies c == d by {
            if c != d {
                lemma_rank_distinct(extras, budget, total, c, d, n);
            }
        }
    }
    vstd::set_lib::lemma_map_size(s, s.map(f), f);
    vstd::set_lib::lemma_int_range(0, leftover);
    assert(s.map(f).subset_of(vstd::set_lib::set_int_range(0, leftover))) by {
        assert forall|j: int| s.map(f).contains(j) implies vstd::set_lib::set_int_range(
            0,
            leftover,
        ).contains(j) by {
            let c = choose|c: int| s.contains(c) && f(c) == j;
            assert(rank_below(extras, budget, total, c, n) >= 0) by {
                lemma_rank_nonneg(extras, budget, total, c, n);
            }
        }
    }
    vstd::set_lib::lemma_len_subset(s.map(f), vstd::set_lib::set_int_range(0, leftover));
}

proof fn lemma_rank_nonneg(extras: Seq<int>, budget: int, total: int, c: int, m: int)
    ensures
        rank_below(extras, budget, total, c, m) >= 0,
    decreases m,
{
    if m > 0 {
        lemma_rank_nonneg(extras, budget, total, c, m - 1);
    }
}

/// Law: fitting columns into `avail` characters gives the natural widths
/// whenever they fit; otherwise no column is narrower than its floor (its
/// longest word) nor wider than the larger of its natural width and floor,
/// and when the floors leave room the columns together fit in `avail`.
pub proof fn law_fit_columns(natural: Seq<int>, floor: Seq<int>, avail: int)
    requires
        natural.len() == floor.len(),
        avail >= 0,
        forall|c: int| 0 <= c < natural.len() ==> natural[c] >= 0,
        forall|c: int| 0 <= c < floor.len() ==> floor[c] >= 0,
    ensures
        fit_columns(natural, floor, avail).len() == natural.len(),
        sum_ints(natural) <= avail ==> fit_columns(natural, floor, avail) == natural,
        sum_ints(natural) > avail ==> forall|c: int|
            0 <= c < natural.len() ==> floor[c] <= #[trigger] fit_columns(natural, floor, avail)[c]
                && fit_columns(natural, floor, avail)[c] <= if natural[c] > floor[c] {
                natural[c]
            } else {
                floor[c]
            },
        sum_ints(natural) > avail && sum_ints(floor) < avail ==> sum_ints(
            fit_columns(natural, floor, avail),
        ) <= avail,
{
    let n = natural.len() as int;
    if sum_ints(natural) > avail && sum_ints(floor) < avail && sum_ints(extras_of(natural, floor))
        != 0 {
        let ev = extras_of(natural, floor);
        let total = sum_ints(ev);
        let budget = avail - sum_ints(floor);
        assert forall|i: int| 0 <= i < ev.len() implies ev[i] >= 0 by {}
        lemma_sum_ints_bounds(ev);
        lemma_sum_ints_le(natural, floor, ev);
        let shares = Seq::new(n as nat, |c: int| base_share(ev, budget, total, c));
        lemma_shares_sum(ev, budget, total, n);
        assert(ev.take(n) =~= ev);
        let leftover = budget - sum_ints(shares);
        assert(sum_ints(shares) * total <= total * budget);
        assert(sum_ints(shares) <= budget) by (nonlinear_arith)
            requires
                sum_ints(shares) * total <= total * budget,
                total > 0,
        ;
        let bonus = Seq::new(
            n as nat,
            |c: int|
                if can_take(ev, budget, total, c) && rank_below(ev, budget, total, c, n) < leftover {
                    1int
                } else {
                    0
                },
        );
        let w = shared_widths(natural, floor, avail);
        assert forall|c: int| 0 <= c < n implies floor[c] <= #[trigger] w[c] && w[c] <= if natural[c]
            > floor[c] {
            natural[c]
        } else {
            floor[c]
        } by {
            let e = ev[c];
            let q = e * budget / total;
            assert(0 <= q) by (nonlinear_arith)
                requires
                    e >= 0,
                    budget >= 0,
                    total > 0,
                    q == e * budget / total,
            ;
            assert(q <= e) by (nonlinear_arith)
                requires
                    e >= 0,
                    budget <= total,
                    budget >= 0,
                    total > 0,
                    q == e * budget / total,
            ;
        }
        lemma_sum_ints_add3(w, floor, shares, bonus);
        lemma_bonus_count_bound(ev, budget, total, leftover, n);
        assert(sum_ints(bonus) == bonus_count(ev, budget, total, leftover, n, n)) by {
            lemma_bonus_sum(ev, budget, total, leftover, n, n);
        }
    }
}

proof fn lemma_bonus_sum(extras: Seq<int>, budget: int, total: int, leftover: int, n: int, m: int)
    requires
        0 <= m <= n,
    ensures
        sum_ints(
            Seq::new(
                m as nat,
                |c: int|
                    if can_take(extras, budget, total, c) && rank_below(extras, budget, total, c, n)
                        < leftover {
                        1int
                    } else {
                        0
                    },
            ),
        ) == bonus_count(extras, budget, total, leftover, n, m),
    decreases m,
{
    if m > 0 {
        lemma_bonus_sum(extras, budget, total, leftover, n, m - 1);
        let a = Seq::new(
            m as nat,
            |c: int|
                if can_take(extras, budget, total, c) && rank_below(extras, budget, total, c, n) < leftover {
                    1int
                } else {
                    0
                },
        );
        let b = Seq::new(
            (m - 1) as nat,
            |c: int|
                if can_take(extras, budget, total, c) && rank_below(extras, budget, total, c, n) < leftover {
                    1int
                } else {
                    0
                },
        );
        assert(a.drop_last() =~= b);
    }
}

/// Measuring keeps the number of columns and never lowers a width.
proof fn lemma_measure_all(rows: Seq<Seq<Seq<SpanV>>>, natural: Seq<int>, floor: Seq<int>)
    requires
        forall|c: int| 0 <= c < natural.len() ==> natural[c] >= 0,
        forall|c: int| 0 <= c < floor.len() ==> floor[c] >= 0,
    ensures
        measure_all_nat(rows, natural).len() == natural.len(),
        measure_all_floor(rows, floor).len() == floor.len(),
        forall|c: int| 0 <= c < natural.len() ==> #[trigger] measure_all_nat(rows, natural)[c] >= 0,
        forall|c: int| 0 <= c < floor.len() ==> #[trigger] measure_all_floor(rows, floor)[c] >= 0,
    decreases rows.len(),
{
    if rows.len() > 0 {
        lemma_measure_all(rows.drop_last(), natural, floor);
    }
}

/// Law: a table's columns take their natural widths when those fit the
/// terminal; otherwise every column is at least as wide as its longest
/// word (long words push the table past the edge rather than break), and
/// when the longest words leave room, the whole table, borders included,
/// is exactly `width` wide.
pub proof fn law_table_widths(head: Seq<Seq<SpanV>>, rows: Seq<Seq<Seq<SpanV>>>, width: int)
    requires
        width >= 0,
    ensures
        table_widths(head, rows, width).len() == column_count(head, rows),
        sum_ints(natural_widths(head, rows)) <= cell_space(head, rows, width) ==> table_widths(
            head,
            rows,
            width,
        ) == natural_widths(head, rows),
        sum_ints(natural_widths(head, rows)) > cell_space(head, rows, width) ==> forall|c: int|
            0 <= c < column_count(head, rows) ==> floor_widths(head, rows)[c] <= #[trigger] table_widths(
                head,
                rows,
                width,
            )[c],
        sum_ints(natural_widths(head, rows)) > cell_space(head, rows, width) && sum_ints(
            floor_widths(head, rows),
        ) < cell_space(head, rows, width) ==> sum_ints(table_widths(head, rows, width)) + 3
            * column_count(head, rows) + 1 == width,
{
    let n = column_count(head, rows);
    let z = Seq::new(n as nat, |c: int| 0int);
    let o = Seq::new(n as nat, |c: int| 1int);
    lemma_measure_all(rows, measure_nat(head, z), measure_floor(head, o, n));
    law_fit_columns(natural_widths(head, rows), floor_widths(head, rows), cell_space(head, rows, width));
    lemma_sum_ints_bounds(floor_widths(head, rows));
    if sum_ints(floor_widths(head, rows)) < cell_space(head, rows, width) {
        assert(cell_space(head, rows, width) == width - (3 * n + 1));
        if sum_ints(natural_widths(head, rows)) > cell_space(head, rows, width) {
            law_fit_columns_fill(
                natural_widths(head, rows),
                floor_widths(head, rows),
                cell_space(head, rows, width),
            );
        }
    }
}

/// One for each of the first `m` columns that can take a leftover character.
spec fn takers_count(extras: Seq<int>, budget: int, total: int, m: int) -> int
    decreases m,
{
    if m <= 0 {
        0
    } else {
        takers_count(extras, budget, total, m - 1) + if can_take(extras, budget, total, m - 1) {
            1int
        } else {
            0
        }
    }
}

/// The columns below `n` that can take a leftover character.
spec fn takers(extras: Seq<int>, budget: int, total: int, n: int) -> Set<int> {
    Set::new(|c: int| 0 <= c < n && can_take(extras, budget, total, c))
}

proof fn lemma_takers_count_set(extras: Seq<int>, budget: int, total: int, n: int, m: int)
    requires
        0 <= m <= n,
    ensures
        takers(extras, budget, total, n).filter(|c: int| c < m).finite(),
        takers_count(extras, budget, total, m) == takers(extras, budget, total, n).filter(
            |c: int| c < m,
        ).len(),
    decreases m,
{
    let s = takers(extras, budget, total, n);
    if m == 0 {
        assert(s.filter(|c: int| c < 0) =~= Set::<int>::empty());
    } else {
        lemma_takers_count_set(extras, budget, total, n, m - 1);
        let prev = s.filter(|c: int| c < m - 1);
        let cur = s.filter(|c: int| c < m);
        if s.contains(m - 1) {
            assert(cur =~= prev.insert(m - 1));
        } else {
            assert(cur =~= prev);
        }
    }
}

/// A column's rank counts only other columns that can take a character.
proof fn lemma_rank_below_takers(extras: Seq<int>, budget: int, total: int, c: int, m: int)
    ensures
        rank_below(extras, budget, total, c, m) + if 0 <= c < m && can_take(extras, budget, total, c) {
            1int
        } else {
            0
        } <= takers_count(extras, budget, total, m),
    decreases m,
{
    if m > 0 {
        lemma_rank_below_takers(extras, budget, total, c, m - 1);
    }
}

/// Shares and remainders add back up: each column's share times the total
/// plus its remainder is its part of the budget.
proof fn lemma_shares_rests(extras: Seq<int>, budget: int, total: int, k: int)
    requires
        0 <= k <= extras.len(),
        total > 0,
    ensures
        sum_ints(Seq::new(k as nat, |c: int| base_share(extras, budget, total, c))) * total + sum_ints(
            Seq::new(k as nat, |c: int| share_rest(extras, budget, total, c)),
        ) == sum_ints(extras.take(k)) * budget,
    decreases k,
{
    if k > 0 {
        lemma_shares_rests(extras, budget, total, k - 1);
        let g = Seq::new(k as nat, |c: int| base_share(extras, budget, total, c));
        let r = Seq::new(k as nat, |c: int| share_rest(extras, budget, total, c));
        let g1 = Seq::new((k - 1) as nat, |c: int| base_share(extras, budget, total, c));
        let r1 = Seq::new((k - 1) as nat, |c: int| share_rest(extras, budget, total, c));
        assert(g.drop_last() =~= g1);
        assert(r.drop_last() =~= r1);
        assert(extras.take(k).drop_last() =~= extras.take(k - 1));
        let x = extras[k - 1] * budget;
        vstd::arithmetic::div_mod::lemma_fundamental_div_mod(x, total);
        let gs = sum_ints(g1);
        let rs = sum_ints(r1);
        let es = sum_ints(extras.take(k - 1));
        let q = x / total;
        assert(g.last() == q);
        assert(r.last() == x % total);
        assert(sum_ints(g) == gs + q);
        assert(sum_ints(r) == rs + x % total);
        assert(extras.take(k).last() == extras[k - 1]);
        assert(sum_ints(extras.take(k)) == es + extras[k - 1]);
        assert((gs + q) * total + (rs + x % total) == (es + extras[k - 1]) * budget) by (nonlinear_arith)
            requires
                gs * total + rs == es * budget,
                x == total * q + x % total,
                x == extras[k - 1] * budget,
        ;
    } else {
        assert(extras.take(0) =~= Seq::<int>::empty());
        assert(Seq::new(0, |c: int| base_share(extras, budget, total, c)) =~= Seq::<int>::empty());
        assert(Seq::new(0, |c: int| share_rest(extras, budget, total, c)) =~= Seq::<int>::empty());
        assert(0 * total + 0 == 0 * budget) by (nonlinear_arith);
    }
}

/// The remainders are each below the total, and non-zero only for columns
/// that can take a character.
proof fn lemma_rests_bound(extras: Seq<int>, budget: int, total: int, k: int)
    requires
        0 <= k <= extras.len(),
        total > 0,
        0 <= budget <= total,
        forall|i: int| 0 <= i < extras.len() ==> extras[i] >= 0,
    ensures
        sum_ints(Seq::new(k as nat, |c: int| share_rest(extras, budget, total, c))) <= (total - 1)
            * takers_count(extras, budget, total, k),
    decreases k,
{
    if k > 0 {
        lemma_rests_bound(extras, budget, total, k - 1);
        let r = Seq::new(k as nat, |c: int| share_rest(extras, budget, total, c));
        let r1 = Seq::new((k - 1) as nat, |c: int| share_rest(extras, budget, total, c));
        assert(r.drop_last() =~= r1);
        let e = extras[k - 1];
        let x = e * budget;
        vstd::arithmetic::div_mod::lemma_fundamental_div_mod(x, total);
        vstd::arithmetic::div_mod::lemma_mod_bound(x, total);
        let q = x / total;
        let rr = x % total;
        if rr > 0 {
            assert(q < e) by (nonlinear_arith)
                requires
                    x == total * q + rr,
                    rr > 0,
                    x == e * budget,
                    budget <= total,
                    e >= 0,
                    total > 0,
            ;
        }
        let tc = takers_count(extras, budget, total, k - 1);
        assert(sum_ints(r1) + rr <= (total - 1) * takers_count(extras, budget, total, k)) by (nonlinear_arith)
            requires
                sum_ints(r1) <= (total - 1) * tc,
                0 <= rr < total,
                rr > 0 ==> takers_count(extras, budget, total, k) == tc + 1,
                takers_count(extras, budget, total, k) >= tc,
                total > 0,
        ;
    }
}

/// Law: when a table does not fit but its floors do, the fitted columns
/// fill the available space exactly: every character lost to rounding is
/// handed back.
pub proof fn law_fit_columns_fill(natural: Seq<int>, floor: Seq<int>, avail: int)
    requires
        natural.len() == floor.len(),
        avail >= 0,
        forall|c: int| 0 <= c < natural.len() ==> natural[c] >= 0,
        forall|c: int| 0 <= c < floor.len() ==> floor[c] >= 0,
        sum_ints(natural) > avail,
        sum_ints(floor) < avail,
    ensures
        sum_ints(fit_columns(natural, floor, avail)) == avail,
{
    let n = natural.len() as int;
    let ev = extras_of(natural, floor);
    assert forall|i: int| 0 <= i < ev.len() implies ev[i] >= 0 by {}
    lemma_sum_ints_bounds(ev);
    lemma_sum_ints_le(natural, floor, ev);
    let total = sum_ints(ev);
    assert(total > 0);
    let budget = avail - sum_ints(floor);
    let shares = Seq::new(n as nat, |c: int| base_share(ev, budget, total, c));
    let rests = Seq::new(n as nat, |c: int| share_rest(ev, budget, total, c));
    let leftover = budget - sum_ints(shares);
    lemma_shares_rests(ev, budget, total, n);
    lemma_rests_bound(ev, budget, total, n);
    assert(ev.take(n) =~= ev);
    let tk = takers_count(ev, budget, total, n);
    // the remainders add up to `leftover` totals
    assert(leftover * total == sum_ints(rests)) by (nonlinear_arith)
        requires
            sum_ints(shares) * total + sum_ints(rests) == total * budget,
            leftover == budget - sum_ints(shares),
    ;
    lemma_takers_count_set(ev, budget, total, n, n);
    assert(tk >= 0);
    assert(leftover <= tk) by (nonlinear_arith)
        requires
            leftover * total == sum_ints(rests),
            sum_ints(rests) <= (total - 1) * tk,
            total > 0,
            tk >= 0,
    ;
    lemma_shares_sum(ev, budget, total, n);
    assert(leftover >= 0) by (nonlinear_arith)
        requires
            sum_ints(shares) * total <= total * budget,
            total > 0,
            leftover == budget - sum_ints(shares),
    ;
    // ranks of the columns that can take a character are 0 .. tk - 1
    let tset = takers(ev, budget, total, n);
    assert(tset.filter(|c: int| c < n) =~= tset);
    let f = |c: int| rank_below(ev, budget, total, c, n);
    assert(vstd::relations::injective_on(f, tset)) by {
        assert forall|c: int, d: int| tset.contains(c) && tset.contains(d) && #[trigger] f(c) == #[trigger] f(d)
            implies c == d by {
            if c != d {
                lemma_rank_distinct(ev, budget, total, c, d, n);
            }
        }
    }
    vstd::set_lib::lemma_map_size(tset, tset.map(f), f);
    vstd::set_lib::lemma_int_range(0, tk);
    let range = vstd::set_lib::set_int_range(0, tk);
    assert(tset.map(f).subset_of(range)) by {
        assert forall|j: int| tset.map(f).contains(j) implies range.contains(j) by {
            let c = choose|c: int| tset.contains(c) && f(c) == j;
            lemma_rank_nonneg(ev, budget, total, c, n);
            lemma_rank_below_takers(ev, budget, total, c, n);
        }
    }
    vstd::set_lib::lemma_subset_equality(tset.map(f), range);
    // exactly `leftover` columns get a leftover character
    let bset = bonus_set(ev, budget, total, leftover, n);
    assert(bset.subset_of(tset));
    vstd::set_lib::lemma_len_subset(bset, tset);
    vstd::set_lib::lemma_int_range(0, leftover);
    let lrange = vstd::set_lib::set_int_range(0, leftover);
    assert(bset.map(f) =~= lrange) by {
        assert forall|j: int| bset.map(f).contains(j) implies lrange.contains(j) by {
            let c = choose|c: int| bset.contains(c) && f(c) == j;
            lemma_rank_nonneg(ev, budget, total, c, n);
        }
        assert forall|j: int| lrange.contains(j) implies bset.map(f).contains(j) by {
            assert(range.contains(j));
            assert(tset.map(f).contains(j));
            let c = choose|c: int| tset.contains(c) && f(c) == j;
            assert(bset.contains(c));
        }
    }
    assert(vstd::relations::injective_on(f, bset));
    vstd::set_lib::lemma_map_size(bset, bset.map(f), f);
    lemma_bonus_count_set(ev, budget, total, leftover, n, n);
    assert(bset.filter(|c: int| c < n) =~= bset);
    let bonus = Seq::new(
        n as nat,
        |c: int|
            if can_take(ev, budget, total, c) && rank_below(ev, budget, total, c, n) < leftover {
                1int
            } else {
                0
            },
    );
    lemma_bonus_sum(ev, budget, total, leftover, n, n);
    let w = shared_widths(natural, floor, avail);
    lemma_sum_ints_add3(w, floor, shares, bonus);
}

/// A cell whose text fits in `w` (or that has no words) takes one line.
proof fn lemma_cell_one_line(cell: Seq<SpanV>, w: int)
    requires
        words_of(cell).len() > 0 ==> cell_full(cell) <= w,
    ensures
        cell_lines(cell, w).len() == 1,
{
    let ws = words_of(cell);
    let e = Seq::<char>::empty();
    if ws.len() == 0 {
        assert(wrap_groups(ws, e, e, w).len() == 0);
        assert(render_groups(wrap_groups(ws, e, e, w)).len() == 0);
    } else {
        lemma_wrap_one_line(ws, e, e, w);
        let gs = wrap_groups(ws, e, e, w);
        assert(gs.len() == 1);
        assert(gs.drop_last().len() == 0);
        assert(render_groups(gs.drop_last()).len() == 0);
        assert(render_groups(gs).len() == 1);
    }
}

/// A row of one-line cells is one line tall.
proof fn lemma_max_lines_one(cells: Seq<Seq<Seq<SpanV>>>)
    requires
        cells.len() > 0,
        forall|i: int| 0 <= i < cells.len() ==> #[trigger] cells[i].len() == 1,
    ensures
        max_lines(cells) == 1,
    decreases cells.len(),
{
    if cells.len() > 1 {
        let d = cells.drop_last();
        assert forall|i: int| 0 <= i < d.len() implies #[trigger] d[i].len() == 1 by {
            assert(d[i] == cells[i]);
        }
        lemma_max_lines_one(d);
    } else {
        assert(max_lines(cells.drop_last()) == 0);
    }
    assert(cells.last().len() == 1);
}

/// The natural widths after the rows keep their number, never shrink, and
/// are at least the natural width of every cell with words in their column.
proof fn lemma_measure_all_nat_covers(rows: Seq<Seq<Seq<SpanV>>>, natural: Seq<int>)
    ensures
        measure_all_nat(rows, natural).len() == natural.len(),
        forall|c: int| 0 <= c < natural.len() ==> natural[c] <= #[trigger] measure_all_nat(rows, natural)[c],
        forall|r: int, c: int|
            0 <= r < rows.len() && 0 <= c < natural.len() && c < rows[r].len() && words_of(rows[r][c]).len() > 0
                ==> #[trigger] cell_full(rows[r][c]) <= measure_all_nat(rows, natural)[c],
    decreases rows.len(),
{
    if rows.len() > 0 {
        let d = rows.drop_last();
        lemma_measure_all_nat_covers(d, natural);
        let m = measure_all_nat(d, natural);
        let last = rows.last();
        law_measure_rows(last, last, m, m, 0);
        assert forall|r: int, c: int|
            0 <= r < rows.len() && 0 <= c < natural.len() && c < rows[r].len() && words_of(rows[r][c]).len() > 0
                implies #[trigger] cell_full(rows[r][c]) <= measure_all_nat(rows, natural)[c] by {
            if r < d.len() {
                assert(rows[r] == d[r]);
                assert(cell_full(d[r][c]) <= m[c]);
            }
        }
    }
}

/// No body row has more cells than the widest one.
proof fn lemma_max_row_len(rows: Seq<Seq<Seq<SpanV>>>)
    ensures
        forall|r: int| 0 <= r < rows.len() ==> #[trigger] rows[r].len() <= max_row_len(rows),
    decreases rows.len(),
{
    if rows.len() > 0 {
        lemma_max_row_len(rows.drop_last());
        assert forall|r: int| 0 <= r < rows.len() implies #[trigger] rows[r].len() <= max_row_len(rows) by {
            if r < rows.len() - 1 {
                assert(rows[r] == rows.drop_last()[r]);
            }
        }
    }
}

/// Each cell of a row takes one line at widths that hold its text.
proof fn lemma_row_one_line(row: Seq<Seq<SpanV>>, widths: Seq<int>)
    requires
        widths.len() > 0,
        forall|c: int|
            0 <= c < widths.len() && c < row.len() && words_of(row[c]).len() > 0 ==> #[trigger] cell_full(row[c])
                <= widths[c],
    ensures
        row_height(row_cells(row, widths)) == 1,
{
    let cells = row_cells(row, widths);
    assert forall|i: int| 0 <= i < cells.len() implies #[trigger] cells[i].len() == 1 by {
        if i < row.len() {
            assert(cell_at(row, i) == row[i]);
            lemma_cell_one_line(row[i], widths[i]);
        } else {
            assert(cell_at(row, i) == Seq::<SpanV>::empty());
            lemma_cell_one_line(cell_at(row, i), widths[i]);
        }
    }
    lemma_max_lines_one(cells);
}

/// Body rows one line tall each give one line each.
proof fn lemma_body_one_each(rows: Seq<Seq<Seq<SpanV>>>, widths: Seq<int>, aligns: Seq<Alignment>)
    requires
        forall|r: int| 0 <= r < rows.len() ==> row_height(row_cells(#[trigger] rows[r], widths)) == 1,
    ensures
        body_lines(rows, widths, aligns).len() == rows.len(),
        forall|r: int|
            0 <= r < rows.len() ==> #[trigger] body_lines(rows, widths, aligns)[r] == row_line(
                row_cells(rows[r], widths),
                widths,
                aligns,
                0,
            ),
    decreases rows.len(),
{
    if rows.len() > 0 {
        let d = rows.drop_last();
        assert forall|r: int| 0 <= r < d.len() implies row_height(row_cells(#[trigger] d[r], widths)) == 1 by {
            assert(d[r] == rows[r]);
        }
        lemma_body_one_each(d, widths, aligns);
        let last = rows.last();
        assert(row_height(row_cells(rows[rows.len() - 1], widths)) == 1);
        let rl = row_lines(row_cells(last, widths), widths, aligns);
        assert(rl.len() == 1);
        assert forall|r: int| 0 <= r < rows.len() implies #[trigger] body_lines(rows, widths, aligns)[r]
            == row_line(row_cells(rows[r], widths), widths, aligns, 0) by {
            if r < d.len() {
                assert(rows[r] == d[r]);
            }
        }
    }
}

/// Law: when the table fits the terminal at its natural widths, every cell
/// stays on one line: the table is its top border, the header line, the
/// separator, one line per body row and the bottom border.
pub proof fn law_table_fits(
    aligns: Seq<Alignment>,
    head: Seq<Seq<SpanV>>,
    rows: Seq<Seq<Seq<SpanV>>>,
    width: int,
)
    requires
        column_count(head, rows) > 0,
        sum_ints(natural_widths(head, rows)) <= cell_space(head, rows, width),
    ensures
        table_widths(head, rows, width) == natural_widths(head, rows),
        table_lines(aligns, head, rows, width).len() == rows.len() + 4,
        table_lines(aligns, head, rows, width)[0] == rule_line(natural_widths(head, rows), '┌', '┬', '┐'),
        table_lines(aligns, head, rows, width)[1] == row_line(
            row_cells(head, natural_widths(head, rows)),
            natural_widths(head, rows),
            aligns,
            0,
        ),
        table_lines(aligns, head, rows, width)[2] == rule_line(natural_widths(head, rows), '├', '┼', '┤'),
        forall|r: int|
            0 <= r < rows.len() ==> #[trigger] table_lines(aligns, head, rows, width)[r + 3] == row_line(
                row_cells(rows[r], natural_widths(head, rows)),
                natural_widths(head, rows),
                aligns,
                0,
            ),
        table_lines(aligns, head, rows, width)[rows.len() + 3int] == rule_line(
            natural_widths(head, rows),
            '└',
            '┴',
            '┘',
        ),
{
    let n = column_count(head, rows);
    let z = Seq::new(n as nat, |c: int| 0int);
    let h0 = measure_nat(head, z);
    let w = natural_widths(head, rows);
    law_measure_rows(head, head, z, z, 0);
    lemma_measure_all_nat_covers(rows, h0);
    lemma_max_row_len(rows);
    assert(w.len() == n);
    assert forall|c: int|
        0 <= c < w.len() && c < head.len() && words_of(head[c]).len() > 0 implies #[trigger] cell_full(head[c])
            <= w[c] by {
        assert(cell_full(head[c]) <= h0[c]);
    }
    lemma_row_one_line(head, w);
    assert forall|r: int| 0 <= r < rows.len() implies row_height(row_cells(#[trigger] rows[r], w)) == 1 by {
        assert forall|c: int|
            0 <= c < w.len() && c < rows[r].len() && words_of(rows[r][c]).len() > 0 implies #[trigger] cell_full(
            rows[r][c],
        ) <= w[c] by {}
        lemma_row_one_line(rows[r], w);
    }
    lemma_body_one_each(rows, w, aligns);
    let hl = row_lines(row_cells(head, w), w, aligns);
    assert(hl.len() == 1);
    let t = table_lines(aligns, head, rows, width);
    assert forall|r: int| 0 <= r < rows.len() implies #[trigger] t[r + 3] == row_line(
        row_cells(rows[r], w),
        w,
        aligns,
        0,
    ) by {
        assert(t[r + 3] == body_lines(rows, w, aligns)[r]);
    }
}

// ---------------------------------------------------------------------------
// Every line of a table is equally wide.
// ---------------------------------------------------------------------------

proof fn lemma_sum_lens_concat(a: Seq<SpanV>, b: Seq<SpanV>)
    ensures
        sum_lens(a + b) == sum_lens(a) + sum_lens(b),
    decreases b.len(),
{
    if b.len() > 0 {
        lemma_sum_lens_concat(a, b.drop_last());
        assert((a + b).drop_last() =~= a + b.drop_last());
    } else {
        assert(a + b =~= a);
    }
}

proof fn lemma_sum_lens_one(x: SpanV)
    ensures
        sum_lens(seq![x]) == x.0.len(),
{
    assert(seq![x].drop_last() =~= Seq::<SpanV>::empty());
    assert(sum_lens(Seq::<SpanV>::empty()) == 0);
}

proof fn lemma_sum_lens_two(x: SpanV, y: SpanV)
    ensures
        sum_lens(seq![x, y]) == x.0.len() + y.0.len(),
{
    assert(seq![x, y].drop_last() =~= seq![x]);
    lemma_sum_lens_one(x);
}

proof fn lemma_interleave_width(ws: Seq<SpanV>)
    ensures
        sum_lens(interleave(ws)) == sum_lens(ws) + if ws.len() > 0 {
            ws.len() - 1
        } else {
            0
        },
    decreases ws.len(),
{
    if ws.len() == 1 {
        lemma_sum_lens_one(ws[0]);
        assert(ws =~= seq![ws[0]]);
    } else if ws.len() > 1 {
        let d = ws.drop_last();
        lemma_interleave_width(d);
        let tail = seq![(seq![' '], ws.last().1), ws.last()];
        lemma_sum_lens_concat(interleave(d), tail);
        lemma_sum_lens_two((seq![' '], ws.last().1), ws.last());
        assert(sum_lens(ws) == sum_lens(d) + ws.last().0.len());
    }
}

/// A drawn line is as wide as its prefix, its words and the spaces between.
proof fn lemma_render_line_width(prefix: Seq<char>, ws: Seq<SpanV>)
    ensures
        sum_lens(render_line(prefix, ws)) == line_width(prefix, ws),
{
    lemma_interleave_width(ws);
    let h = seq![(prefix, Style::plain())];
    lemma_sum_lens_concat(h, interleave(ws));
    lemma_sum_lens_one((prefix, Style::plain()));
}

proof fn lemma_max_word_ge(ws: Seq<SpanV>)
    ensures
        forall|k: int| 0 <= k < ws.len() ==> #[trigger] ws[k].0.len() <= max_word(ws),
        max_word(ws) >= 0,
        max_word(ws) <= sum_lens(ws),
    decreases ws.len(),
{
    if ws.len() > 0 {
        lemma_max_word_ge(ws.drop_last());
        assert forall|k: int| 0 <= k < ws.len() implies #[trigger] ws[k].0.len() <= max_word(ws) by {
            if k < ws.len() - 1 {
                assert(ws[k] == ws.drop_last()[k]);
            }
        }
    }
}

proof fn lemma_max_word_concat(a: Seq<SpanV>, b: Seq<SpanV>)
    ensures
        max_word(a) <= max_word(a + b),
    decreases b.len(),
{
    if b.len() > 0 {
        lemma_max_word_concat(a, b.drop_last());
        assert((a + b).drop_last() =~= a + b.drop_last());
    } else {
        assert(a + b =~= a);
    }
}

/// Each word of each line is a word of the whole, so no longer than the
/// longest one.
proof fn lemma_group_words_bounded(gs: Seq<(Seq<char>, Seq<SpanV>)>)
    ensures
        forall|i: int, j: int|
            0 <= i < gs.len() && 0 <= j < gs[i].1.len() ==> #[trigger] gs[i].1[j].0.len() <= max_word(
                concat_groups(gs),
            ),
    decreases gs.len(),
{
    if gs.len() > 0 {
        let d = gs.drop_last();
        lemma_group_words_bounded(d);
        let a = concat_groups(d);
        let b = gs.last().1;
        lemma_max_word_concat(a, b);
        lemma_max_word_ge(a + b);
        assert forall|i: int, j: int| 0 <= i < gs.len() && 0 <= j < gs[i].1.len() implies #[trigger] gs[i].1[j].0.len()
            <= max_word(concat_groups(gs)) by {
            if i < d.len() {
                assert(gs[i] == d[i]);
            } else {
                assert((a + b)[a.len() + j] == b[j]);
            }
        }
    }
}

/// Every wrapped line of a cell is at most `w` wide when no word is wider.
proof fn lemma_cell_lines_fit(cell: Seq<SpanV>, w: int)
    requires
        w >= 0,
        max_word(words_of(cell)) <= w,
    ensures
        forall|i: int| 0 <= i < cell_lines(cell, w).len() ==> sum_lens(#[trigger] cell_lines(cell, w)[i]) <= w,
{
    let ws = words_of(cell);
    let e = Seq::<char>::empty();
    let gs = wrap_groups(ws, e, e, w);
    law_wrap(ws, e, e, w);
    lemma_render_groups_index(gs);
    lemma_group_words_bounded(gs);
    let ls = wrap_lines(ws, e, e, w);
    if ls.len() == 0 {
        assert(cell_lines(cell, w) == seq![Seq::<SpanV>::empty()]);
        assert(sum_lens(Seq::<SpanV>::empty()) == 0);
    } else {
        assert forall|i: int| 0 <= i < ls.len() implies sum_lens(#[trigger] ls[i]) <= w by {
            lemma_render_line_width(gs[i].0, gs[i].1);
            assert(gs[i].0 == e);
            if gs[i].1.len() == 1 {
                let x = gs[i].1[0];
                assert(gs[i].1 =~= seq![x]);
                lemma_sum_lens_one(x);
                assert(x.0.len() <= max_word(concat_groups(gs)));
            } else if gs[i].1.len() == 0 {
                assert(gs[i].1 =~= Seq::<SpanV>::empty());
                assert(sum_lens(Seq::<SpanV>::empty()) == 0);
            }
        }
    }
}

proof fn lemma_repeat_len(s: Seq<char>, n: nat)
    requires
        s.len() == 1,
    ensures
        repeat_seq(s, n).len() == n,
    decreases n,
{
    if n > 0 {
        lemma_repeat_len(s, (n - 1) as nat);
    }
}

proof fn lemma_pad_piece(n: int)
    ensures
        sum_lens(
            if n > 0 {
                seq![(spaces(n), Style::plain())]
            } else {
                Seq::<SpanV>::empty()
            },
        ) == if n > 0 {
            n
        } else {
            0
        },
{
    if n > 0 {
        lemma_sum_lens_one((spaces(n), Style::plain()));
        lemma_repeat_len(seq![' '], n as nat);
    } else {
        assert(sum_lens(Seq::<SpanV>::empty()) == 0);
    }
}

/// A padded cell line is exactly as wide as its column.
proof fn lemma_padded_width(content: Seq<SpanV>, w: int, align: Option<Alignment>)
    requires
        sum_lens(content) <= w,
    ensures
        sum_lens(padded(content, w, align)) == w,
{
    let extra = w - sum_lens(content);
    let lr = pad_split(extra, align);
    lemma_sum_lens_bounds(content);
    lemma_pad_piece(lr.0);
    lemma_pad_piece(lr.1);
    let l = if lr.0 > 0 {
        seq![(spaces(lr.0), Style::plain())]
    } else {
        Seq::<SpanV>::empty()
    };
    let r = if lr.1 > 0 {
        seq![(spaces(lr.1), Style::plain())]
    } else {
        Seq::<SpanV>::empty()
    };
    lemma_sum_lens_concat(l, content);
    lemma_sum_lens_concat(l + content, r);
    assert(padded(content, w, align) == l + content + r);
}

proof fn lemma_sum_lens_bounds(ws: Seq<SpanV>)
    ensures
        sum_lens(ws) >= 0,
    decreases ws.len(),
{
    if ws.len() > 0 {
        lemma_sum_lens_bounds(ws.drop_last());
    }
}

/// The cells and separators of a row line take the columns' widths and three
/// characters between each two columns.
proof fn lemma_row_body_width(
    cells: Seq<Seq<Seq<SpanV>>>,
    widths: Seq<int>,
    aligns: Seq<Alignment>,
    i: int,
    k: int,
)
    requires
        0 <= k <= cells.len(),
        cells.len() == widths.len(),
        forall|c: int| 0 <= c < cells.len() ==> sum_lens(#[trigger] line_at(cells[c], i)) <= widths[c],
    ensures
        sum_lens(row_body(cells, widths, aligns, i, k)) == sum_ints(widths.take(k)) + if k > 0 {
            3 * (k - 1)
        } else {
            0
        },
    decreases k,
{
    reveal_strlit(" │ ");
    if k == 0 {
        assert(widths.take(0) =~= Seq::<int>::empty());
        assert(sum_lens(Seq::<SpanV>::empty()) == 0);
    } else {
        lemma_row_body_width(cells, widths, aligns, i, k - 1);
        let prev = row_body(cells, widths, aligns, i, k - 1);
        let sep = if k > 1 {
            seq![(" │ "@, Style::plain())]
        } else {
            Seq::<SpanV>::empty()
        };
        let cell = padded(line_at(cells[k - 1], i), widths[k - 1], align_at(aligns, k - 1));
        lemma_padded_width(line_at(cells[k - 1], i), widths[k - 1], align_at(aligns, k - 1));
        if k > 1 {
            lemma_sum_lens_one((" │ "@, Style::plain()));
        } else {
            assert(sum_lens(Seq::<SpanV>::empty()) == 0);
        }
        lemma_sum_lens_concat(prev, sep);
        lemma_sum_lens_concat(prev + sep, cell);
        assert(widths.take(k).drop_last() =~= widths.take(k - 1));
    }
}

/// A border line's text: the columns' widths plus two padding characters
/// each, a junction between each two columns, and two corners.
proof fn lemma_rule_inner_len(widths: Seq<int>, mid: char)
    requires
        forall|c: int| 0 <= c < widths.len() ==> #[trigger] widths[c] >= 0,
    ensures
        rule_inner(widths, mid).len() == sum_ints(widths) + 3 * widths.len() - if widths.len() > 0 {
            1int
        } else {
            0
        },
    decreases widths.len(),
{
    if widths.len() > 0 {
        let d = widths.drop_last();
        assert forall|c: int| 0 <= c < d.len() implies #[trigger] d[c] >= 0 by {
            assert(d[c] == widths[c]);
        }
        lemma_rule_inner_len(d, mid);
        assert(widths.last() >= 0);
        lemma_repeat_len(seq!['─'], (widths.last() + 2) as nat);
    }
}

/// The floors after the rows keep their number, never shrink, and are at
/// least the longest word of every cell in their column.
proof fn lemma_measure_all_floor_covers(rows: Seq<Seq<Seq<SpanV>>>, floor: Seq<int>)
    ensures
        measure_all_floor(rows, floor).len() == floor.len(),
        forall|c: int| 0 <= c < floor.len() ==> floor[c] <= #[trigger] measure_all_floor(rows, floor)[c],
        forall|r: int, c: int|
            0 <= r < rows.len() && 0 <= c < floor.len() && c < rows[r].len() && words_of(rows[r][c]).len() > 0
                ==> #[trigger] max_word(words_of(rows[r][c])) <= measure_all_floor(rows, floor)[c],
    decreases rows.len(),
{
    if rows.len() > 0 {
        let d = rows.drop_last();
        lemma_measure_all_floor_covers(d, floor);
        let m = measure_all_floor(d, floor);
        let last = rows.last();
        let n = floor.len() as int;
        law_measure_rows(last, last, m, m, n);
        assert forall|r: int, c: int|
            0 <= r < rows.len() && 0 <= c < floor.len() && c < rows[r].len() && words_of(rows[r][c]).len() > 0
                implies #[trigger] max_word(words_of(rows[r][c])) <= measure_all_floor(rows, floor)[c] by {
            if r < d.len() {
                assert(rows[r] == d[r]);
                assert(max_word(words_of(d[r][c])) <= m[c]);
            }
        }
    }
}

/// No word of the row's cell in column `c` is wider than `widths[c]`.
pub open spec fn row_fits_widths(row: Seq<Seq<SpanV>>, widths: Seq<int>) -> bool {
    forall|c: int| 0 <= c < widths.len() ==> max_word(words_of(#[trigger] cell_at(row, c))) <= widths[c]
}

/// Every line of a row whose words fit its columns is as wide as the table.
proof fn lemma_row_lines_width(row: Seq<Seq<SpanV>>, widths: Seq<int>, aligns: Seq<Alignment>)
    requires
        widths.len() > 0,
        forall|c: int| 0 <= c < widths.len() ==> #[trigger] widths[c] >= 0,
        row_fits_widths(row, widths),
    ensures
        forall|i: int|
            0 <= i < row_lines(row_cells(row, widths), widths, aligns).len() ==> sum_lens(
                #[trigger] row_lines(row_cells(row, widths), widths, aligns)[i],
            ) == sum_ints(widths) + 3 * widths.len() + 1,
{
    let cells = row_cells(row, widths);
    let n = widths.len() as int;
    assert forall|i: int| 0 <= i < row_lines(cells, widths, aligns).len() implies sum_lens(
        #[trigger] row_lines(cells, widths, aligns)[i],
    ) == sum_ints(widths) + 3 * widths.len() + 1 by {
        assert forall|c: int| 0 <= c < cells.len() implies sum_lens(#[trigger] line_at(cells[c], i))
            <= widths[c] by {
            assert(max_word(words_of(cell_at(row, c))) <= widths[c]);
            lemma_cell_lines_fit(cell_at(row, c), widths[c]);
            if 0 <= i < cells[c].len() {
                assert(line_at(cells[c], i) == cells[c][i]);
            } else {
                assert(sum_lens(Seq::<SpanV>::empty()) == 0);
            }
        }
        lemma_row_body_width(cells, widths, aligns, i, n);
        assert(widths.take(n) =~= widths);
        reveal_strlit("│ ");
        reveal_strlit(" │");
        let l = seq![("│ "@, Style::plain())];
        let body = row_body(cells, widths, aligns, i, n);
        let r = seq![(" │"@, Style::plain())];
        lemma_sum_lens_one(("│ "@, Style::plain()));
        lemma_sum_lens_one((" │"@, Style::plain()));
        lemma_sum_lens_concat(l, body);
        lemma_sum_lens_concat(l + body, r);
        assert(row_lines(cells, widths, aligns)[i] == l + body + r);
    }
}

/// Every line of body rows whose words fit their columns is as wide as the
/// table.
proof fn lemma_body_lines_width(rows: Seq<Seq<Seq<SpanV>>>, widths: Seq<int>, aligns: Seq<Alignment>)
    requires
        widths.len() > 0,
        forall|c: int| 0 <= c < widths.len() ==> #[trigger] widths[c] >= 0,
        forall|r: int| 0 <= r < rows.len() ==> row_fits_widths(#[trigger] rows[r], widths),
    ensures
        forall|k: int|
            0 <= k < body_lines(rows, widths, aligns).len() ==> sum_lens(
                #[trigger] body_lines(rows, widths, aligns)[k],
            ) == sum_ints(widths) + 3 * widths.len() + 1,
    decreases rows.len(),
{
    if rows.len() > 0 {
        let d = rows.drop_last();
        assert forall|r: int| 0 <= r < d.len() implies row_fits_widths(#[trigger] d[r], widths) by {
            assert(d[r] == rows[r]);
        }
        lemma_body_lines_width(d, widths, aligns);
        assert(row_fits_widths(rows[rows.len() - 1], widths));
        lemma_row_lines_width(rows.last(), widths, aligns);
        let a = body_lines(d, widths, aligns);
        let b = row_lines(row_cells(rows.last(), widths), widths, aligns);
        assert forall|k: int| 0 <= k < (a + b).len() implies sum_lens(#[trigger] (a + b)[k]) == sum_ints(
            widths,
        ) + 3 * widths.len() + 1 by {
            if k < a.len() {
                assert((a + b)[k] == a[k]);
            } else {
                assert((a + b)[k] == b[k - a.len()]);
            }
        }
    }
}

/// The table's column widths hold every word of every cell in their column,
/// and are not negative.
proof fn lemma_table_widths_hold_words(head: Seq<Seq<SpanV>>, rows: Seq<Seq<Seq<SpanV>>>, width: int)
    requires
        width >= 0,
    ensures
        forall|c: int| 0 <= c < column_count(head, rows) ==> #[trigger] table_widths(head, rows, width)[c] >= 0,
        row_fits_widths(head, table_widths(head, rows, width)),
        forall|r: int| 0 <= r < rows.len() ==> row_fits_widths(#[trigger] rows[r], table_widths(head, rows, width)),
{
    let n = column_count(head, rows);
    let tw = table_widths(head, rows, width);
    let nat_w = natural_widths(head, rows);
    let fl = floor_widths(head, rows);
    let z = Seq::new(n as nat, |c: int| 0int);
    let o = Seq::new(n as nat, |c: int| 1int);
    let h0 = measure_nat(head, z);
    let f0 = measure_floor(head, o, n);
    law_measure_rows(head, head, z, o, n);
    lemma_measure_all_nat_covers(rows, h0);
    lemma_measure_all_floor_covers(rows, f0);
    law_table_widths(head, rows, width);
    let fits = sum_ints(nat_w) <= cell_space(head, rows, width);
    assert(max_word(Seq::<SpanV>::empty()) == 0);
    assert(words_of(Seq::<SpanV>::empty()) == Seq::<SpanV>::empty());
    assert forall|c: int| 0 <= c < n implies #[trigger] tw[c] >= 0 by {
        assert(nat_w[c] >= h0[c] && h0[c] >= z[c]);
        assert(fl[c] >= f0[c] && f0[c] >= o[c]);
    }
    // One cell of column `c`: its longest word fits the column.
    assert forall|row: Seq<Seq<SpanV>>, c: int|
        0 <= c < n && row.len() <= n && (c < row.len() && words_of(row[c]).len() > 0 ==> cell_full(row[c])
            <= nat_w[c] && max_word(words_of(row[c])) <= fl[c]) implies max_word(
        words_of(#[trigger] cell_at(row, c)),
    ) <= tw[c] by {
        if c < row.len() && words_of(row[c]).len() > 0 {
            let ws = words_of(row[c]);
            lemma_max_word_ge(ws);
            assert(cell_at(row, c) == row[c]);
            if !fits {
                assert(fl[c] <= tw[c]);
            }
        } else if c < row.len() {
            assert(cell_at(row, c) == row[c]);
            assert(words_of(row[c]) =~= Seq::<SpanV>::empty());
        }
    }
    assert(head.len() <= n);
    assert forall|c: int| 0 <= c < tw.len() implies max_word(words_of(#[trigger] cell_at(head, c))) <= tw[c] by {
        if c < head.len() && words_of(head[c]).len() > 0 {
            assert(cell_full(head[c]) <= h0[c]);
            assert(max_word(words_of(head[c])) <= f0[c]);
        }
    }
    lemma_max_row_len(rows);
    assert forall|r: int| 0 <= r < rows.len() implies row_fits_widths(#[trigger] rows[r], tw) by {
        assert(rows[r].len() <= n);
        assert forall|c: int| 0 <= c < tw.len() implies max_word(words_of(#[trigger] cell_at(rows[r], c)))
            <= tw[c] by {
            if c < rows[r].len() && words_of(rows[r][c]).len() > 0 {
                assert(cell_full(rows[r][c]) <= nat_w[c]);
                assert(max_word(words_of(rows[r][c])) <= fl[c]);
            }
        }
    }
}

/// Law: every line of a laid-out table, borders and wrapped cell lines
/// alike, is exactly as wide: the columns' widths plus three characters per
/// column and one more. Cells are padded to their column, and no word is
/// ever wider than its column.
pub proof fn law_table_lines_equal_width(
    aligns: Seq<Alignment>,
    head: Seq<Seq<SpanV>>,
    rows: Seq<Seq<Seq<SpanV>>>,
    width: int,
)
    requires
        width >= 0,
    ensures
        forall|i: int|
            0 <= i < table_lines(aligns, head, rows, width).len() ==> sum_lens(
                #[trigger] table_lines(aligns, head, rows, width)[i],
            ) == sum_ints(table_widths(head, rows, width)) + 3 * column_count(head, rows) + 1,
{
    let n = column_count(head, rows);
    if n > 0 {
        let w = table_widths(head, rows, width);
        law_table_widths(head, rows, width);
        lemma_table_widths_hold_words(head, rows, width);
        lemma_row_lines_width(head, w, aligns);
        lemma_body_lines_width(rows, w, aligns);
        lemma_rule_inner_len(w, '┬');
        lemma_rule_inner_len(w, '┼');
        lemma_rule_inner_len(w, '┴');
        let target = sum_ints(w) + 3 * n + 1;
        assert forall|left: char, mid: char, right: char|
            rule_inner(w, mid).len() == sum_ints(w) + 3 * n - 1 implies #[trigger] sum_lens(
            rule_line(w, left, mid, right),
        ) == target by {
            lemma_sum_lens_one((rule_text(w, left, mid, right), Style::plain()));
        }
        let top = seq![rule_line(w, '┌', '┬', '┐')];
        let hl = row_lines(row_cells(head, w), w, aligns);
        let sep = seq![rule_line(w, '├', '┼', '┤')];
        let bl = body_lines(rows, w, aligns);
        let bot = seq![rule_line(w, '└', '┴', '┘')];
        let t = table_lines(aligns, head, rows, width);
        assert(t == top + hl + sep + bl + bot);
        assert forall|i: int| 0 <= i < t.len() implies sum_lens(#[trigger] t[i]) == target by {
            if i == 0 {
                assert(t[i] == rule_line(w, '┌', '┬', '┐'));
            } else if i < 1 + hl.len() {
                assert(t[i] == hl[i - 1]);
            } else if i == 1 + hl.len() {
                assert(t[i] == rule_line(w, '├', '┼', '┤'));
            } else if i < 2 + hl.len() + bl.len() {
                assert(t[i] == bl[i - 2 - hl.len()]);
            } else {
                assert(t[i] == rule_line(w, '└', '┴', '┘'));
            }
        }
    }
}

/// Law: a table cell keeps its words whole and in order: its lines are the
/// cell's words wrapped to the column's width (each line a run of whole
/// words, the runs one after another giving back every word), and a cell
/// without words is one empty line.
pub proof fn law_table_cells_keep_words(row: Seq<Seq<SpanV>>, widths: Seq<int>, c: int)
    requires
        0 <= c < widths.len(),
    ensures
        concat_groups(
            wrap_groups(words_of(cell_at(row, c)), Seq::<char>::empty(), Seq::<char>::empty(), widths[c]),
        ) == words_of(cell_at(row, c)),
        words_of(cell_at(row, c)).len() > 0 ==> row_cells(row, widths)[c] == render_groups(
            wrap_groups(words_of(cell_at(row, c)), Seq::<char>::empty(), Seq::<char>::empty(), widths[c]),
        ),
        words_of(cell_at(row, c)).len() == 0 ==> row_cells(row, widths)[c] == seq![Seq::<SpanV>::empty()],
{
    let ws = words_of(cell_at(row, c));
    let e = Seq::<char>::empty();
    law_wrap(ws, e, e, widths[c]);
    let gs = wrap_groups(ws, e, e, widths[c]);
    lemma_render_groups_index(gs);
    if ws.len() > 0 {
        assert(gs.len() > 0) by {
            if gs.len() == 0 {
                assert(concat_groups(gs) == Seq::<SpanV>::empty());
            }
        }
    } else {
        assert(gs.len() == 0);
    }
}

// ---------------------------------------------------------------------------
// What the measured widths are.
// ---------------------------------------------------------------------------

proof fn lemma_max_word_attained(ws: Seq<SpanV>)
    requires
        ws.len() > 0,
    ensures
        exists|k: int| 0 <= k < ws.len() && max_word(ws) == #[trigger] ws[k].0.len(),
    decreases ws.len(),
{
    let d = ws.drop_last();
    if d.len() > 0 {
        lemma_max_word_attained(d);
        let k = choose|k: int| 0 <= k < d.len() && max_word(d) == #[trigger] d[k].0.len();
        assert(ws[k] == d[k]);
        if ws.last().0.len() > max_word(d) {
            assert(max_word(ws) == ws[ws.len() - 1].0.len());
        } else {
            assert(max_word(ws) == ws[k].0.len());
        }
    } else {
        assert(max_word(d) == 0);
        assert(max_word(ws) == ws[0].0.len());
    }
}

proof fn lemma_measure_all_nat_attained(rows: Seq<Seq<Seq<SpanV>>>, natural: Seq<int>, c: int)
    requires
        0 <= c < natural.len(),
    ensures
        measure_all_nat(rows, natural)[c] == natural[c] || exists|r: int|
            0 <= r < rows.len() && c < rows[r].len() && words_of(rows[r][c]).len() > 0 && measure_all_nat(
                rows,
                natural,
            )[c] == cell_full(#[trigger] rows[r][c]),
    decreases rows.len(),
{
    if rows.len() > 0 {
        let d = rows.drop_last();
        lemma_measure_all_nat_attained(d, natural, c);
        lemma_measure_all_nat_covers(d, natural);
        let m = measure_all_nat(d, natural);
        let last = rows.last();
        if c < last.len() && words_of(last[c]).len() > 0 && cell_full(last[c]) > m[c] {
            assert(rows[rows.len() - 1] == last);
        } else if m[c] != natural[c] {
            let r = choose|r: int|
                0 <= r < d.len() && c < d[r].len() && words_of(d[r][c]).len() > 0 && m[c] == cell_full(
                    #[trigger] d[r][c],
                );
            assert(rows[r] == d[r]);
        }
    }
}

proof fn lemma_measure_all_floor_attained(rows: Seq<Seq<Seq<SpanV>>>, floor: Seq<int>, c: int)
    requires
        0 <= c < floor.len(),
    ensures
        measure_all_floor(rows, floor)[c] == floor[c] || exists|r: int|
            0 <= r < rows.len() && c < rows[r].len() && words_of(rows[r][c]).len() > 0 && measure_all_floor(
                rows,
                floor,
            )[c] == max_word(words_of(#[trigger] rows[r][c])),
    decreases rows.len(),
{
    if rows.len() > 0 {
        let d = rows.drop_last();
        lemma_measure_all_floor_attained(d, floor, c);
        lemma_measure_all_floor_covers(d, floor);
        let m = measure_all_floor(d, floor);
        let last = rows.last();
        if c < last.len() && words_of(last[c]).len() > 0 && max_word(words_of(last[c])) > m[c] {
            assert(rows[rows.len() - 1] == last);
        } else if m[c] != floor[c] {
            let r = choose|r: int|
                0 <= r < d.len() && c < d[r].len() && words_of(d[r][c]).len() > 0 && m[c] == max_word(
                    words_of(#[trigger] d[r][c]),
                );
            assert(rows[r] == d[r]);
        }
    }
}

/// The width of a cell's text drawn on one line.
pub open spec fn one_line_width(cell: Seq<SpanV>) -> int {
    sum_lens(render_line(Seq::<char>::empty(), words_of(cell)))
}

/// Law: a column's natural width is the width of its widest cell drawn on
/// one line: no cell with words in the column (header or body) is wider,
/// and unless the column has no words at all (width 0), one of them is
/// exactly that wide.
pub proof fn law_natural_widths(head: Seq<Seq<SpanV>>, rows: Seq<Seq<Seq<SpanV>>>, c: int)
    requires
        0 <= c < column_count(head, rows),
    ensures
        natural_widths(head, rows).len() == column_count(head, rows),
        c < head.len() && words_of(head[c]).len() > 0 ==> one_line_width(head[c]) <= natural_widths(
            head,
            rows,
        )[c],
        forall|r: int|
            0 <= r < rows.len() && c < rows[r].len() && words_of(rows[r][c]).len() > 0 ==> one_line_width(
                #[trigger] rows[r][c],
            ) <= natural_widths(head, rows)[c],
        natural_widths(head, rows)[c] == 0 || (c < head.len() && words_of(head[c]).len() > 0
            && natural_widths(head, rows)[c] == one_line_width(head[c])) || exists|r: int|
            0 <= r < rows.len() && c < rows[r].len() && words_of(rows[r][c]).len() > 0 && natural_widths(
                head,
                rows,
            )[c] == one_line_width(#[trigger] rows[r][c]),
{
    let n = column_count(head, rows);
    let z = Seq::new(n as nat, |k: int| 0int);
    let h0 = measure_nat(head, z);
    law_measure_rows(head, head, z, z, 0);
    lemma_measure_all_nat_covers(rows, h0);
    lemma_measure_all_nat_attained(rows, h0, c);
    let e = Seq::<char>::empty();
    if c < head.len() && words_of(head[c]).len() > 0 {
        lemma_render_line_width(e, words_of(head[c]));
    }
    assert forall|r: int|
        0 <= r < rows.len() && c < rows[r].len() && words_of(rows[r][c]).len() > 0 implies one_line_width(
        #[trigger] rows[r][c],
    ) <= natural_widths(head, rows)[c] by {
        lemma_render_line_width(e, words_of(rows[r][c]));
        assert(cell_full(rows[r][c]) <= measure_all_nat(rows, h0)[c]);
        assert(cell_full(rows[r][c]) == line_width(e, words_of(rows[r][c])));
    }
    let w = natural_widths(head, rows);
    if w[c] != h0[c] {
        let r = choose|r: int|
            0 <= r < rows.len() && c < rows[r].len() && words_of(rows[r][c]).len() > 0 && w[c] == cell_full(
                #[trigger] rows[r][c],
            );
        lemma_render_line_width(e, words_of(rows[r][c]));
    }
}

/// Law: a column's floor is the length of its longest word, and at least 1:
/// no word of any cell in the column (header or body) is longer, and unless
/// the floor is 1, some word is exactly that long.
pub proof fn law_floor_widths(head: Seq<Seq<SpanV>>, rows: Seq<Seq<Seq<SpanV>>>, c: int)
    requires
        0 <= c < column_count(head, rows),
    ensures
        floor_widths(head, rows).len() == column_count(head, rows),
        floor_widths(head, rows)[c] >= 1,
        c < head.len() ==> forall|k: int|
            0 <= k < words_of(head[c]).len() ==> #[trigger] words_of(head[c])[k].0.len() <= floor_widths(
                head,
                rows,
            )[c],
        forall|r: int, k: int|
            0 <= r < rows.len() && c < rows[r].len() && 0 <= k < words_of(rows[r][c]).len() ==> #[trigger] words_of(
                rows[r][c],
            )[k].0.len() <= floor_widths(head, rows)[c],
        floor_widths(head, rows)[c] == 1 || (c < head.len() && exists|k: int|
            0 <= k < words_of(head[c]).len() && floor_widths(head, rows)[c] == #[trigger] words_of(head[c])[k].0.len())
            || exists|r: int, k: int|
            0 <= r < rows.len() && c < rows[r].len() && 0 <= k < words_of(rows[r][c]).len() && floor_widths(
                head,
                rows,
            )[c] == #[trigger] words_of(rows[r][c])[k].0.len(),
{
    let n = column_count(head, rows);
    let o = Seq::new(n as nat, |k: int| 1int);
    let f0 = measure_floor(head, o, n);
    law_measure_rows(head, head, o, o, n);
    lemma_measure_all_floor_covers(rows, f0);
    lemma_measure_all_floor_attained(rows, f0, c);
    let f = floor_widths(head, rows);
    if c < head.len() {
        lemma_max_word_ge(words_of(head[c]));
    }
    assert forall|r: int, k: int|
        0 <= r < rows.len() && c < rows[r].len() && 0 <= k < words_of(rows[r][c]).len() implies #[trigger] words_of(
        rows[r][c],
    )[k].0.len() <= f[c] by {
        lemma_max_word_ge(words_of(rows[r][c]));
    }
    if f[c] != f0[c] {
        let r = choose|r: int|
            0 <= r < rows.len() && c < rows[r].len() && words_of(rows[r][c]).len() > 0 && f[c] == max_word(
                words_of(#[trigger] rows[r][c]),
            );
        lemma_max_word_attained(words_of(rows[r][c]));
        let k = choose|k: int|
            0 <= k < words_of(rows[r][c]).len() && max_word(words_of(rows[r][c])) == #[trigger] words_of(
                rows[r][c],
            )[k].0.len();
        assert(f[c] == words_of(rows[r][c])[k].0.len());
    } else if f0[c] != 1 {
        assert(c < head.len() && words_of(head[c]).len() > 0);
        lemma_max_word_attained(words_of(head[c]));
    }
}

/// Law: when a table does not fit but its floors do, each column gets its
/// floor plus its share of the room left, in proportion to what it can give
/// up, rounded down, and at most one character more, never beyond its
/// natural width; the characters lost to rounding go to the columns that
/// lost the largest remainders, the leftmost first among equal ones: a
/// column that gets one has a larger remainder than any column that could
/// take one but does not, or the same remainder and stands further left.
pub proof fn law_largest_remainder(natural: Seq<int>, floor: Seq<int>, avail: int)
    requires
        natural.len() == floor.len(),
        avail >= 0,
        forall|c: int| 0 <= c < natural.len() ==> natural[c] >= 0,
        forall|c: int| 0 <= c < floor.len() ==> floor[c] >= 0,
        sum_ints(natural) > avail,
        sum_ints(floor) < avail,
        sum_ints(extras_of(natural, floor)) > 0,
    ensures
        ({
            let e = extras_of(natural, floor);
            let t = sum_ints(e);
            let b = avail - sum_ints(floor);
            let w = fit_columns(natural, floor, avail);
            &&& w.len() == natural.len()
            &&& forall|c: int|
                0 <= c < w.len() ==> #[trigger] w[c] == floor[c] + e[c] * b / t || (w[c] == floor[c] + e[c]
                    * b / t + 1 && e[c] * b / t < e[c])
            &&& forall|c: int, d: int|
                0 <= c < w.len() && 0 <= d < w.len() && c != d && #[trigger] w[c] == floor[c] + e[c] * b / t + 1
                    && #[trigger] w[d] == floor[d] + e[d] * b / t && e[d] * b / t < e[d] ==> (e[c] * b) % t > (
                e[d] * b) % t || ((e[c] * b) % t == (e[d] * b) % t && c < d)
        }),
{
    let e = extras_of(natural, floor);
    let t = sum_ints(e);
    let b = avail - sum_ints(floor);
    let w = fit_columns(natural, floor, avail);
    let n = natural.len() as int;
    let base = Seq::new(n as nat, |c: int| base_share(e, b, t, c));
    let leftover = b - sum_ints(base);
    assert(w == shared_widths(natural, floor, avail));
    assert forall|c: int, d: int|
        0 <= c < w.len() && 0 <= d < w.len() && c != d && #[trigger] w[c] == floor[c] + e[c] * b / t + 1
            && #[trigger] w[d] == floor[d] + e[d] * b / t && e[d] * b / t < e[d] implies (e[c] * b) % t > (e[d]
        * b) % t || ((e[c] * b) % t == (e[d] * b) % t && c < d) by {
        assert(can_take(e, b, t, c) && rank_below(e, b, t, c, n) < leftover);
        assert(can_take(e, b, t, d));
        assert(!(rank_below(e, b, t, d, n) < leftover));
        if served_before(e, b, t, d, c) {
            lemma_rank_below_order(e, b, t, d, c, n);
        }
    }
}

proof fn lemma_concat_texts_concat(a: Seq<SpanV>, b: Seq<SpanV>)
    ensures
        concat_texts(a + b) == concat_texts(a) + concat_texts(b),
    decreases b.len(),
{
    if b.len() > 0 {
        lemma_concat_texts_concat(a, b.drop_last());
        assert((a + b).drop_last() =~= a + b.drop_last());
        assert(concat_texts(a + b) =~= concat_texts(a) + concat_texts(b));
    } else {
        assert(a + b =~= a);
        assert(concat_texts(a) + concat_texts(b) =~= concat_texts(a));
    }
}

proof fn lemma_pad_piece_text(n: int)
    ensures
        concat_texts(
            if n > 0 {
                seq![(spaces(n), Style::plain())]
            } else {
                Seq::<SpanV>::empty()
            },
        ) == spaces(if n > 0 {
            n
        } else {
            0
        }),
{
    if n > 0 {
        let x = (spaces(n), Style::plain());
        assert(seq![x].drop_last() =~= Seq::<SpanV>::empty());
        assert(concat_texts(Seq::<SpanV>::empty()) =~= Seq::<char>::empty());
        assert(concat_texts(seq![x]) == concat_texts(Seq::<SpanV>::empty()) + x.0);
        assert(concat_texts(seq![x]) =~= spaces(n));
    } else {
        assert(spaces(0) =~= Seq::<char>::empty());
        assert(concat_texts(Seq::<SpanV>::empty()) =~= Seq::<char>::empty());
    }
}

/// Law: a padded cell line reads as its text with spaces around it, as
/// many as fill the column: right-aligned text has all of them on its
/// left, centred text half (rounded down) on its left and the rest on its
/// right, any other text all of them on its right.
pub proof fn law_padded(content: Seq<SpanV>, w: int, align: Option<Alignment>)
    requires
        sum_lens(content) <= w,
    ensures
        ({
            let extra = w - sum_lens(content);
            let left = match align {
                Some(Alignment::Right) => extra,
                Some(Alignment::Center) => extra / 2,
                _ => 0,
            };
            concat_texts(padded(content, w, align)) == spaces(left) + concat_texts(content) + spaces(
                extra - left,
            )
        }),
{
    let extra = w - sum_lens(content);
    lemma_sum_lens_bounds(content);
    let lr = pad_split(extra, align);
    let l = if lr.0 > 0 {
        seq![(spaces(lr.0), Style::plain())]
    } else {
        Seq::<SpanV>::empty()
    };
    let r = if lr.1 > 0 {
        seq![(spaces(lr.1), Style::plain())]
    } else {
        Seq::<SpanV>::empty()
    };
    assert(padded(content, w, align) == l + content + r);
    lemma_concat_texts_concat(l, content);
    lemma_concat_texts_concat(l + content, r);
    lemma_pad_piece_text(lr.0);
    lemma_pad_piece_text(lr.1);
    assert(spaces(0) =~= Seq::<char>::empty());
}

} // verus!
