//! CPU counts from the contents of `cpuset.cpus.effective` and `cpu.max`.
use vstd::prelude::*;
use vstd::math::abs;
use vstd::slice::slice_subrange;

use crate::errno::Errno;
use crate::text::{
    chars_of, decimal, int_text, is_digit, lemma_decimal, lemma_int_text, lemma_split_join, lemma_split_len,
    lemma_split_whole, lemma_trim_unchanged, lemma_trimmed_ends, parse_i32, parse_i32_chars,
    split, split_chars, trim, trim_bounds, views, words, words_of, Separator,
};

verus! {

/// How many CPUs one interval of a CPU list names: `a-b` with `a <= b` names `b - a + 1`,
/// a single index names one. A reversed range, any other shape, or a token that is no
/// `i32`, names none.
pub open spec fn interval_size(tok: Seq<char>) -> Option<int> {
    let parts = split(tok, Separator::Char('-'));
    if parts.len() == 2 {
        match (parse_i32(parts[0]), parse_i32(parts[1])) {
            (Some(a), Some(b)) => if a <= b {
                Some(b - a + 1)
            } else {
                None
            },
            _ => None,
        }
    } else if parts.len() == 1 {
        match parse_i32(parts[0]) {
            Some(_) => Some(1),
            None => None,
        }
    } else {
        None
    }
}

/// The sum of the sizes of the intervals, if each of them is well formed.
pub open spec fn sum_sizes(toks: Seq<Seq<char>>) -> Option<int>
    decreases toks.len(),
{
    if toks.len() == 0 {
        Some(0)
    } else {
        match (sum_sizes(toks.drop_last()), interval_size(toks.last())) {
            (Some(x), Some(y)) => Some(x + y),
            _ => None,
        }
    }
}

/// The number of CPUs that a CPU list names: the trimmed text split at commas.
pub open spec fn cpuset_total(s: Seq<char>) -> Option<int> {
    sum_sizes(split(trim(s), Separator::Char(',')))
}

/// The outcome of reading a CPU list: its count where that fits in an `i32`.
pub open spec fn effective_cpus(s: Seq<char>) -> Result<i32, Errno> {
    match cpuset_total(s) {
        Some(t) => if t <= i32::MAX {
            Ok(t as i32)
        } else {
            Err(Errno::spec_invalid())
        },
        None => Err(Errno::spec_invalid()),
    }
}

fn interval_size_of(tok: &[char]) -> (r: Option<i64>)
    ensures
        match r {
            Some(v) => interval_size(tok@) == Some(v as int),
            None => interval_size(tok@) is None,
        },
{
    let parts = split_chars(tok, Separator::Char('-'));
    proof {
        assert(views(parts@).len() == parts@.len());
    }
    if parts.len() == 2 {
        assert(views(parts@)[0] == parts@[0]@);
        assert(views(parts@)[1] == parts@[1]@);
        match (parse_i32_chars(parts[0].as_slice()), parse_i32_chars(parts[1].as_slice())) {
            (Some(a), Some(b)) => if a <= b {
                Some(b as i64 - a as i64 + 1)
            } else {
                None
            },
            _ => None,
        }
    } else if parts.len() == 1 {
        assert(views(parts@)[0] == parts@[0]@);
        match parse_i32_chars(parts[0].as_slice()) {
            Some(_) => Some(1),
            None => None,
        }
    } else {
        None
    }
}

/// Counts the CPUs of a CPU list such as `0-3,7,9-11`.
/// Fails with an invalid-argument error on a malformed or reversed interval, a token that
/// is no `i32`, or a count that does not fit in an `i32`.
pub fn parse_effective_cpus(raw_cpus: &str) -> (r: Result<i32, Errno>)
    ensures
        r == effective_cpus(raw_cpus@),
        r is Ok ==> r->Ok_0 >= 1,
{
    let chars = chars_of(raw_cpus);
    let (a, b) = trim_bounds(chars.as_slice());
    let trimmed = slice_subrange(chars.as_slice(), a, b);
    let intervals = split_chars(trimmed, Separator::Char(','));
    let ghost toks = views(intervals@);
    let n = intervals.len();
    let mut total: i128 = 0;
    let mut i: usize = 0;
    while i < n
        invariant
            n == intervals@.len(),
            toks == views(intervals@),
            toks == split(trim(raw_cpus@), Separator::Char(',')),
            i <= n,
            sum_sizes(toks.take(i as int)) == Some(total as int),
            i <= total <= (i as int) * 0x1_0000_0000,
        decreases n - i,
    {
        proof {
            assert(toks.take(i + 1).drop_last() =~= toks.take(i as int));
            assert(toks[i as int] == intervals@[i as int]@);
        }
        match interval_size_of(intervals[i].as_slice()) {
            Some(size) => {
                assert(1 <= size <= 0x1_0000_0000);
                total = total + size as i128;
            },
            None => {
                proof {
                    lemma_sum_none_extends(toks, i + 1);
                }
                return Err(Errno::invalid());
            },
        }
        i = i + 1;
    }
    assert(toks.take(n as int) =~= toks);
    proof {
        lemma_split_len(trim(raw_cpus@), Separator::Char(','));
    }
    if total > i32::MAX as i128 {
        Err(Errno::invalid())
    } else {
        Ok(total as i32)
    }
}

/// A failed prefix fails the whole list.
proof fn lemma_sum_none_extends(toks: Seq<Seq<char>>, k: int)
    requires
        0 <= k <= toks.len(),
        sum_sizes(toks.take(k)) is None,
    ensures
        sum_sizes(toks) is None,
    decreases toks.len() - k,
{
    if k < toks.len() {
        assert(toks.take(k + 1).drop_last() =~= toks.take(k));
        lemma_sum_none_extends(toks, k + 1);
    } else {
        assert(toks.take(k) =~= toks);
    }
}


/// Integer division that truncates toward zero, as Rust's `/` does.
pub open spec fn trunc_div(a: int, b: int) -> int {
    let q: int = abs(a) as int / abs(b) as int;
    if (a < 0) == (b < 0) {
        q
    } else {
        -q
    }
}

/// `max(1, a / b)`, with `/` rounding down.
pub open spec fn clamped_quotient(a: int, b: int) -> int {
    if a / b < 1 {
        1
    } else {
        a / b
    }
}

/// The CPU budget of a quota and a period: whole periods of run time, at least one.
pub open spec fn quota_budget(quota: int, period: int) -> Result<i32, Errno> {
    if period == 0 {
        Err(Errno::spec_invalid())
    } else {
        let c = if trunc_div(quota, period) < 1 {
            1
        } else {
            trunc_div(quota, period)
        };
        if c <= i32::MAX {
            Ok(c as i32)
        } else {
            Err(Errno::spec_invalid())
        }
    }
}

/// The outcome of reading a `cpu.max` line: two words, a quota and a period.
pub open spec fn cfs_quota_cpus(s: Seq<char>) -> Result<i32, Errno> {
    let w = words(s, Separator::WhiteSpace);
    if w.len() != 2 {
        Err(Errno::spec_invalid())
    } else {
        match (parse_i32(w[0]), parse_i32(w[1])) {
            (Some(q), Some(p)) => quota_budget(q as int, p as int),
            _ => Err(Errno::spec_invalid()),
        }
    }
}

/// The magnitude of an `i32`.
fn magnitude(x: i32) -> (r: u64)
    ensures
        r == abs(x as int),
{
    if x < 0 {
        (0 - x as i64) as u64
    } else {
        x as u64
    }
}

/// Turns a CFS quota and period into a number of CPUs: one CPU for each whole period
/// of run time, and never fewer than one. A zero period is an invalid argument, as is a
/// budget that does not fit in an `i32`.
pub fn cpus_from_quota(quota: i32, period: i32) -> (r: Result<i32, Errno>)
    ensures
        r == quota_budget(quota as int, period as int),
        period > 0 ==> r is Ok && r->Ok_0 as int == clamped_quotient(quota as int, period as int),
{
    if period == 0 {
        return Err(Errno::invalid());
    }
    proof {
        if period > 0 {
            lemma_positive_period(quota as int, period as int);
        }
    }
    let q = magnitude(quota) / magnitude(period);
    let c: i64 = if (quota < 0) == (period < 0) { q as i64 } else { 0 - q as i64 };
    if c < 1 {
        Ok(1)
    } else if c <= i32::MAX as i64 {
        Ok(c as i32)
    } else {
        Err(Errno::invalid())
    }
}

/// With a positive period, the clamped budget is the clamped floor of the quotient.
proof fn lemma_positive_period(quota: int, period: int)
    requires
        period > 0,
        i32::MIN <= quota <= i32::MAX,
        period <= i32::MAX,
    ensures
        quota_budget(quota, period) is Ok,
        quota_budget(quota, period)->Ok_0 as int == clamped_quotient(quota, period),
{
    if quota >= 0 {
        assert(trunc_div(quota, period) == quota / period);
        assert(quota / period <= quota) by (nonlinear_arith)
            requires
                quota >= 0,
                period > 0,
        ;
    } else {
        assert(quota / period < 0) by (nonlinear_arith)
            requires
                quota < 0,
                period > 0,
        ;
        assert(trunc_div(quota, period) <= 0);
    }
}

/// Reads a `cpu.max` line, `<quota> <period>`, as a number of CPUs.
/// An unlimited quota (`max`), a malformed line or a zero period is an invalid argument.
pub fn parse_cfs_quota_as_cpus(cpus_max: &str) -> (r: Result<i32, Errno>)
    ensures
        r == cfs_quota_cpus(cpus_max@),
{
    let chars = chars_of(cpus_max);
    let parts = words_of(chars.as_slice(), Separator::WhiteSpace);
    assert(views(parts@).len() == parts@.len());
    if parts.len() != 2 {
        return Err(Errno::invalid());
    }
    assert(views(parts@)[0] == parts@[0]@);
    assert(views(parts@)[1] == parts@[1]@);
    let quota = match parse_i32_chars(parts[0].as_slice()) {
        Some(v) => v,
        None => return Err(Errno::invalid()),
    };
    let period = match parse_i32_chars(parts[1].as_slice()) {
        Some(v) => v,
        None => return Err(Errno::invalid()),
    };
    cpus_from_quota(quota, period)
}

/// The number of worker threads to run: the quota's budget where it succeeded and is
/// below the CPU count, the CPU count otherwise.
pub open spec fn spec_recommended(cpus: i32, quota_cpus: Result<i32, Errno>) -> i32 {
    match quota_cpus {
        Ok(q) => if q < cpus {
            q
        } else {
            cpus
        },
        Err(_) => cpus,
    }
}

/// Combines the effective CPU count with the outcome of the quota computation. A failed
/// quota computation leaves the CPU count as it is.
pub fn recommended_thread_count(cpus: i32, quota_cpus: Result<i32, Errno>) -> (r: i32)
    ensures
        r == spec_recommended(cpus, quota_cpus),
        quota_cpus is Err ==> r == cpus,
        r <= cpus,
{
    match quota_cpus {
        Ok(q) => if q < cpus {
            q
        } else {
            cpus
        },
        Err(_) => cpus,
    }
}


/// Sizes add up over two lists of intervals.
proof fn lemma_sum_concat(a: Seq<Seq<char>>, b: Seq<Seq<char>>)
    requires
        sum_sizes(a) is Some,
        sum_sizes(b) is Some,
    ensures
        sum_sizes(a + b) == Some(sum_sizes(a)->Some_0 + sum_sizes(b)->Some_0),
    decreases b.len(),
{
    if b.len() == 0 {
        assert(a + b =~= a);
    } else {
        assert((a + b).drop_last() =~= a + b.drop_last());
        assert((a + b).last() == b.last());
        lemma_sum_concat(a, b.drop_last());
    }
}

/// A list that counts is not empty.
proof fn lemma_counted_not_empty(s: Seq<char>)
    requires
        cpuset_total(s) is Some,
    ensures
        s.len() > 0,
{
    if s.len() == 0 {
        let e = Seq::<char>::empty();
        assert(trim(s) == e);
        lemma_split_whole(e, Separator::Char(','));
        lemma_split_whole(e, Separator::Char('-'));
        assert(seq![e].drop_last() =~= Seq::<Seq<char>>::empty());
        assert(parse_i32(e) is None);
    }
}

proof fn lemma_range_text(a: nat, b: nat)
    requires
        a <= b <= i32::MAX,
    ensures
        cpuset_total(decimal(a) + seq!['-'] + decimal(b)) == Some(b - a + 1),
        trim(decimal(a) + seq!['-'] + decimal(b)) == decimal(a) + seq!['-'] + decimal(b),
{
    let s = decimal(a) + seq!['-'] + decimal(b);
    lemma_int_text(a as i32);
    lemma_int_text(b as i32);
    lemma_decimal(a);
    lemma_decimal(b);
    assert(int_text(a as int) == decimal(a));
    assert(int_text(b as int) == decimal(b));
    assert forall|i: int| 0 <= i < s.len() implies s[i] == '-' || ('0' <= #[trigger] s[i]
        <= '9') by {
        if i < decimal(a).len() {
            assert(s[i] == decimal(a)[i]);
        } else if i > decimal(a).len() {
            assert(s[i] == decimal(b)[i - decimal(a).len() - 1]);
        }
    }
    assert(s[0] == decimal(a)[0]);
    assert(s.last() == decimal(b).last());
    lemma_trim_unchanged(s);
    lemma_split_whole(s, Separator::Char(','));
    lemma_split_join(decimal(a), '-', decimal(b), Separator::Char('-'));
    lemma_split_whole(decimal(a), Separator::Char('-'));
    lemma_split_whole(decimal(b), Separator::Char('-'));
    assert(seq![decimal(a)] + seq![decimal(b)] =~= seq![decimal(a), decimal(b)]);
    assert(parse_i32(decimal(a)) == Some(a as i32));
    assert(parse_i32(decimal(b)) == Some(b as i32));
    assert(interval_size(s) == Some(b - a + 1));
    assert(seq![s].drop_last() =~= Seq::<Seq<char>>::empty());
    assert(sum_sizes(Seq::<Seq<char>>::empty()) == Some(0int));
    assert(sum_sizes(seq![s]) == Some(b - a + 1));
}

proof fn lemma_single_text(a: nat)
    requires
        a <= i32::MAX,
    ensures
        cpuset_total(decimal(a)) == Some(1int),
        trim(decimal(a)) == decimal(a),
{
    let s = decimal(a);
    lemma_int_text(a as i32);
    lemma_decimal(a);
    assert(int_text(a as int) == s);
    assert(is_digit(s[0]) && is_digit(s.last()));
    lemma_trim_unchanged(s);
    assert forall|i: int| 0 <= i < s.len() implies #[trigger] s[i] != ',' && s[i] != '-' by {
        assert(is_digit(s[i]));
    }
    lemma_split_whole(s, Separator::Char(','));
    lemma_split_whole(s, Separator::Char('-'));
    assert(parse_i32(s) == Some(a as i32));
    assert(interval_size(s) == Some(1int));
    assert(seq![s].drop_last() =~= Seq::<Seq<char>>::empty());
    assert(sum_sizes(Seq::<Seq<char>>::empty()) == Some(0int));
    assert(sum_sizes(seq![s]) == Some(1int));
}

/// A list whose trimmed text is the range `a-b`, with `a <= b`, names `b - a + 1` CPUs,
/// and reads as that count where it fits in an `i32`.
pub proof fn law_range_count(s: Seq<char>, a: nat, b: nat)
    requires
        a <= b <= i32::MAX,
        trim(s) == decimal(a) + seq!['-'] + decimal(b),
    ensures
        cpuset_total(s) == Some(b - a + 1),
        b - a + 1 <= i32::MAX ==> effective_cpus(s) == Ok::<i32, Errno>((b - a + 1) as i32),
{
    lemma_range_text(a, b);
}

/// A list whose trimmed text is a single index names one CPU.
pub proof fn law_single_count(s: Seq<char>, a: nat)
    requires
        a <= i32::MAX,
        trim(s) == decimal(a),
    ensures
        cpuset_total(s) == Some(1int),
        effective_cpus(s) == Ok::<i32, Errno>(1),
{
    lemma_single_text(a);
}

/// Lists joined by a comma name as many CPUs as the two of them together.
pub proof fn law_list_count(s1: Seq<char>, s2: Seq<char>)
    requires
        trim(s1) == s1,
        trim(s2) == s2,
        cpuset_total(s1) is Some,
        cpuset_total(s2) is Some,
    ensures
        cpuset_total(s1 + seq![','] + s2) == Some(
            cpuset_total(s1)->Some_0 + cpuset_total(s2)->Some_0,
        ),
{
    let s = s1 + seq![','] + s2;
    lemma_counted_not_empty(s1);
    lemma_counted_not_empty(s2);
    lemma_trimmed_ends(s1);
    lemma_trimmed_ends(s2);
    assert(s[0] == s1[0]);
    assert(s.last() == s2.last());
    lemma_trim_unchanged(s);
    lemma_split_join(s1, ',', s2, Separator::Char(','));
    lemma_sum_concat(split(s1, Separator::Char(',')), split(s2, Separator::Char(',')));
}


/// A quota and a positive period, written as a `cpu.max` line, give the whole periods of
/// the quota (the quotient truncated toward zero), and at least one CPU.
pub proof fn law_quota_budget(quota: i32, period: i32)
    requires
        period > 0,
    ensures
        cfs_quota_cpus(int_text(quota as int) + seq![' '] + int_text(period as int)) == Ok::<
            i32,
            Errno,
        >(
            if trunc_div(quota as int, period as int) < 1 {
                1i32
            } else {
                trunc_div(quota as int, period as int) as i32
            },
        ),
{
    let q = int_text(quota as int);
    let p = int_text(period as int);
    let ws = Separator::WhiteSpace;
    lemma_int_text(quota);
    lemma_int_text(period);
    assert forall|i: int| 0 <= i < q.len() implies !ws.spec_matches(#[trigger] q[i]) by {
        assert(q[i] == '-' || is_digit(q[i]));
    }
    assert forall|i: int| 0 <= i < p.len() implies !ws.spec_matches(#[trigger] p[i]) by {
        assert(p[i] == '-' || is_digit(p[i]));
    }
    lemma_split_join(q, ' ', p, ws);
    lemma_split_whole(q, ws);
    lemma_split_whole(p, ws);
    assert(seq![q] + seq![p] =~= seq![q, p]);
    reveal_with_fuel(Seq::filter, 3);
    assert(seq![q, p].drop_last() =~= seq![q]);
    assert(seq![q].drop_last() =~= Seq::<Seq<char>>::empty());
    assert(words(q + seq![' '] + p, ws) =~= seq![q, p]);
    lemma_positive_period(quota as int, period as int);
    assert(trunc_div(quota as int, period as int) <= i32::MAX) by {
        assert(abs(quota as int) as int / abs(period as int) as int <= abs(quota as int)) by (
        nonlinear_arith)
            requires
                abs(period as int) >= 1,
        ;
        if trunc_div(quota as int, period as int) > i32::MAX {
            assert(quota >= 0);
        }
    }
}

/// A `cpu.max` line whose period is zero is an invalid argument: nothing is divided.
pub proof fn law_zero_period(s: Seq<char>)
    requires
        words(s, Separator::WhiteSpace).len() == 2,
        parse_i32(words(s, Separator::WhiteSpace)[1]) == Some(0i32),
    ensures
        cfs_quota_cpus(s) == Err::<i32, Errno>(Errno::spec_invalid()),
{
}

} // verus!
