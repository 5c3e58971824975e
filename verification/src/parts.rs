//! How a run of lines is dealt out to numbered parts of a fixed number of
//! lines. Parts are numbered from one; lines are counted from zero.

use vstd::prelude::*;
use vstd::arithmetic::div_mod::{lemma_fundamental_div_mod, lemma_fundamental_div_mod_converse};
use crate::lines::{join_lines, lemma_join_concat};

verus! {

/// Number of parts that `total` lines fill at `quota` lines to a part:
/// `total / quota`, rounded up.
pub open spec fn part_count(total: nat, quota: nat) -> nat {
    if quota == 0 {
        0
    } else if total % quota == 0 {
        total / quota
    } else {
        total / quota + 1
    }
}

/// Index of the part that receives line number `line`.
pub open spec fn part_of_line(line: nat, quota: nat) -> nat {
    line / quota + 1
}

/// Number of the first line of part `index`.
pub open spec fn part_start(index: nat, quota: nat) -> int {
    (index - 1) * quota
}

/// Number of the line after the last line of part `index`, where there are
/// `total` lines.
pub open spec fn part_end(index: nat, quota: nat, total: nat) -> int {
    if index * quota <= total {
        (index * quota) as int
    } else {
        total as int
    }
}

/// The lines of part `index`.
pub open spec fn part_lines(lines: Seq<Seq<u8>>, quota: nat, index: nat) -> Seq<Seq<u8>> {
    lines.subrange(part_start(index, quota), part_end(index, quota, lines.len()))
}

/// The bytes of part `index`: its lines, each followed by a newline.
pub open spec fn part_content(lines: Seq<Seq<u8>>, quota: nat, index: nat) -> Seq<u8> {
    join_lines(part_lines(lines, quota, index))
}

/// The bytes of every part, in index order.
pub open spec fn part_contents(lines: Seq<Seq<u8>>, quota: nat) -> Seq<Seq<u8>> {
    Seq::new(part_count(lines.len(), quota), |k: int| part_content(lines, quota, (k + 1) as nat))
}

/// `total` is the quotient times `quota` plus the remainder.
pub proof fn lemma_quota_div_mod(total: nat, quota: nat)
    requires
        quota >= 1,
    ensures
        total == (total / quota) * quota + total % quota,
        0 <= total % quota < quota,
        0 <= total / quota <= total,
{
    lemma_fundamental_div_mod(total as int, quota as int);
    let q = total as int / quota as int;
    assert(quota * q == q * quota) by (nonlinear_arith);
    assert(0 <= q <= total) by (nonlinear_arith)
        requires
            total == q * quota + total % quota,
            0 <= total % quota < quota,
            quota >= 1,
            total >= 0,
    ;
}

/// No lines fill no part, and any line at all fills at least one.
pub proof fn lemma_part_count_zero(total: nat, quota: nat)
    requires
        quota >= 1,
    ensures
        part_count(total, quota) == 0 <==> total == 0,
        part_count(total, quota) <= total,
{
    lemma_quota_div_mod(total, quota);
    let q = total / quota;
    if total % quota != 0 {
        assert(q + 1 <= total) by (nonlinear_arith)
            requires
                total == q * quota + total % quota,
                0 < total % quota < quota,
                q >= 0,
        ;
    } else if total > 0 {
        assert(q > 0) by (nonlinear_arith)
            requires
                total == q * quota,
                total > 0,
                q >= 0,
        ;
    }
}

/// The part count is the least number of parts that has room for every
/// line.
pub proof fn lemma_part_count_is_ceiling(total: nat, quota: nat)
    requires
        quota >= 1,
    ensures
        total <= part_count(total, quota) * quota,
        total > 0 ==> (part_count(total, quota) - 1) * quota < total,
        part_count(total, quota) == (total + quota - 1) / (quota as int),
{
    lemma_quota_div_mod(total, quota);
    let q = total as int / quota as int;
    let r = total as int % quota as int;
    assert((q + 1) * quota == q * quota + quota) by (nonlinear_arith);
    assert((q - 1) * quota == q * quota - quota) by (nonlinear_arith);
    if r == 0 {
        lemma_fundamental_div_mod_converse(total + quota - 1, quota as int, q, quota - 1);
    } else {
        lemma_fundamental_div_mod_converse(total + quota - 1, quota as int, q + 1, r - 1);
    }
}

/// One more line opens a new part exactly where the lines so far fill their
/// parts to the brim; it lands in the last part either way.
pub proof fn lemma_part_count_step(total: nat, quota: nat)
    requires
        quota >= 1,
    ensures
        part_count(total + 1, quota) == part_of_line(total, quota),
        total % quota == 0 ==> part_count(total + 1, quota) == part_count(total, quota) + 1,
        total % quota != 0 ==> part_count(total + 1, quota) == part_count(total, quota),
{
    lemma_quota_div_mod(total, quota);
    let q = total as int / quota as int;
    let r = total as int % quota as int;
    if r + 1 < quota {
        lemma_fundamental_div_mod_converse((total + 1) as int, quota as int, q, r + 1);
    } else {
        assert(total + 1 == (q + 1) * quota + 0) by (nonlinear_arith)
            requires
                total == q * quota + r,
                r + 1 == quota,
        ;
        lemma_fundamental_div_mod_converse((total + 1) as int, quota as int, q + 1, 0);
    }
}

/// The bounds of a part: it starts where the part before it ends, and the
/// last part ends with the last line.
pub proof fn lemma_part_bounds(total: nat, quota: nat, index: nat)
    requires
        quota >= 1,
        1 <= index <= part_count(total, quota),
    ensures
        0 <= part_start(index, quota) < part_end(index, quota, total) <= total,
        index > 1 ==> part_start(index, quota) == part_end((index - 1) as nat, quota, total),
        index == 1 ==> part_start(index, quota) == 0,
        index == part_count(total, quota) ==> part_end(index, quota, total) == total,
        index < part_count(total, quota) ==> part_end(index, quota, total) == index * quota,
{
    lemma_quota_div_mod(total, quota);
    let q = total as int / quota as int;
    let r = total as int % quota as int;
    let count = part_count(total, quota) as int;
    assert((index - 1) * quota == index * quota - quota) by (nonlinear_arith);
    assert((index - 1) * quota >= 0) by (nonlinear_arith)
        requires
            index >= 1,
            quota >= 1,
    ;
    assert((index - 1) * quota <= (count - 1) * quota) by (nonlinear_arith)
        requires
            index <= count,
            quota >= 1,
    ;
    assert((count - 1) * quota < total) by (nonlinear_arith)
        requires
            total == q * quota + r,
            0 <= r < quota,
            count == if r == 0 { q } else { q + 1 },
    ;
    if index == 1 {
        assert((index - 1) * quota == 0) by (nonlinear_arith)
            requires
                index == 1,
        ;
    }
    if index < count {
        assert(index * quota <= q * quota) by (nonlinear_arith)
            requires
                index <= q,
                quota >= 1,
        ;
    } else {
        assert(index * quota >= total) by (nonlinear_arith)
            requires
                total == q * quota + r,
                0 <= r < quota,
                index == if r == 0 { q } else { q + 1 },
        ;
    }
}

/// Every part but the last holds exactly `quota` lines. The last holds what
/// remains: `total % quota` lines, or `quota` where that remainder is zero.
pub proof fn lemma_part_sizes(lines: Seq<Seq<u8>>, quota: nat, index: nat)
    requires
        quota >= 1,
        1 <= index <= part_count(lines.len(), quota),
    ensures
        index < part_count(lines.len(), quota) ==> part_lines(lines, quota, index).len() == quota,
        index == part_count(lines.len(), quota) ==> part_lines(lines, quota, index).len() == (if lines.len()
            % quota == 0 {
            quota
        } else {
            lines.len() % quota
        }),
{
    let total = lines.len();
    lemma_part_bounds(total, quota, index);
    lemma_quota_div_mod(total, quota);
    let q = total as int / quota as int;
    let r = total as int % quota as int;
    assert((index - 1) * quota == index * quota - quota) by (nonlinear_arith);
    if index == part_count(total, quota) {
        if r == 0 {
            assert(index * quota == total);
        } else {
            assert((index - 1) * quota == total - r);
        }
    }
}

/// Line number `line` stands in the part that `part_of_line` names, at the
/// place `line % quota` of it.
pub proof fn lemma_line_in_part(lines: Seq<Seq<u8>>, quota: nat, line: nat)
    requires
        quota >= 1,
        line < lines.len(),
    ensures
        1 <= part_of_line(line, quota) <= part_count(lines.len(), quota),
        line % quota < part_lines(lines, quota, part_of_line(line, quota)).len(),
        part_lines(lines, quota, part_of_line(line, quota))[(line % quota) as int] == lines[line as int],
{
    let total = lines.len();
    let index = part_of_line(line, quota);
    lemma_quota_div_mod(line, quota);
    lemma_quota_div_mod(total, quota);
    let lq = line as int / quota as int;
    let lr = line as int % quota as int;
    let q = total as int / quota as int;
    let r = total as int % quota as int;
    assert(lq <= q && (lq == q ==> lr < r)) by (nonlinear_arith)
        requires
            line == lq * quota + lr,
            total == q * quota + r,
            0 <= lr < quota,
            0 <= r < quota,
            line < total,
    ;
    lemma_part_bounds(total, quota, index);
    assert((lq + 1) * quota == lq * quota + quota) by (nonlinear_arith);
    assert(part_start(index, quota) == lq * quota);
    assert(part_start(index, quota) + lr == line);
    assert(line < part_end(index, quota, total));
}

/// The parts up to `upto`, written one after another, hold the lines up to
/// the end of part `upto`.
proof fn lemma_parts_prefix(lines: Seq<Seq<u8>>, quota: nat, upto: nat)
    requires
        quota >= 1,
        upto <= part_count(lines.len(), quota),
    ensures
        part_contents(lines, quota).take(upto as int).flatten() == join_lines(
            lines.take(if upto == 0 { 0 } else { part_end(upto, quota, lines.len()) }),
        ),
    decreases upto,
{
    let all = part_contents(lines, quota);
    if upto == 0 {
        assert(all.take(0) =~= Seq::<Seq<u8>>::empty());
        assert(lines.take(0) =~= Seq::<Seq<u8>>::empty());
    } else {
        let before = (upto - 1) as nat;
        lemma_parts_prefix(lines, quota, before);
        lemma_part_bounds(lines.len(), quota, upto);
        let start = part_start(upto, quota);
        let end = part_end(upto, quota, lines.len());
        assert(all.take(upto as int) =~= all.take(before as int).push(all[before as int]));
        all.take(before as int).lemma_flatten_push(all[before as int]);
        assert(all[before as int] == part_content(lines, quota, upto));
        assert(lines.take(end) =~= lines.take(start) + lines.subrange(start, end));
        lemma_join_concat(lines.take(start), lines.subrange(start, end));
    }
}

/// The parts, written one after another in index order, hold every line once
/// and in its place, each followed by one newline.
pub proof fn lemma_parts_cover(lines: Seq<Seq<u8>>, quota: nat)
    requires
        quota >= 1,
    ensures
        part_contents(lines, quota).flatten() == join_lines(lines),
{
    let count = part_count(lines.len(), quota);
    let all = part_contents(lines, quota);
    lemma_parts_prefix(lines, quota, count);
    lemma_part_count_zero(lines.len(), quota);
    assert(all.take(count as int) =~= all);
    if count == 0 {
        assert(lines.take(0) =~= lines);
    } else {
        lemma_part_bounds(lines.len(), quota, count);
        assert(lines.take(lines.len() as int) =~= lines);
    }
}

} // verus!
