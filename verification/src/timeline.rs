//! Expansion of cron fields into the values they match, and the timeline
//! of upcoming runs.

use vstd::prelude::*;
use vstd::string::StringSliceAdditionalSpecFns;
use vstd::utf8::encode_utf8;
use crate::clock::{
    calendar_day, calendar_has_neighbours, day_info, local_at_timestamp, local_now, resolve_local,
    stamp_on_its_day, stamp_valid, timestamp_on_calendar, utc_day, DayInfo, LocalStamp,
};
use crate::cron::{CronJob, CronJobView};
use crate::text::{decimal, pad2, push_decimal, push_pad2, split_whitespace, words,
    parse_u32, parse_u32_str, split_char, split_on_char, starts_with, str_contains_char,
    str_starts_with, strip_prefix, strip_prefix_str,
};

verus! {

/// `lo, lo+1, ..., hi` (empty when `lo > hi`).
pub open spec fn range_seq(lo: int, hi: int) -> Seq<u32>
    decreases hi - lo + 1,
{
    if lo > hi {
        Seq::empty()
    } else {
        seq![lo as u32] + range_seq(lo + 1, hi)
    }
}

/// `v, v+s, v+2s, ...` up to `hi`.
pub open spec fn step_seq(v: int, hi: int, s: int) -> Seq<u32>
    decreases hi - v + s,
{
    if v > hi || s <= 0 {
        Seq::empty()
    } else {
        seq![v as u32] + step_seq(v + s, hi, s)
    }
}

/// Whether stepping from `lo` by `s` up to `hi` stays within `u32`.
pub open spec fn step_fits(lo: int, hi: int, s: int) -> bool {
    s > 0 && forall|k: nat| #![trigger lo + k * s] lo + k * s <= hi ==> lo + k * s + s <= u32::MAX
}

/// Appends `lo..=hi` to `v`.
fn push_range(v: &mut Vec<u32>, lo: u32, hi: u32)
    ensures
        final(v)@ == old(v)@ + range_seq(lo as int, hi as int),
{
    if lo > hi {
        assert(old(v)@ + range_seq(lo as int, hi as int) =~= old(v)@);
        return;
    }
    let mut x = lo;
    let ghost base = v@;
    assert(range_seq(lo as int, lo - 1) =~= Seq::<u32>::empty());
    assert(base =~= base + Seq::<u32>::empty());
    loop
        invariant
            lo <= x <= hi,
            base == old(v)@,
            v@ + range_seq(x as int, hi as int) == base + range_seq(lo as int, hi as int),
        decreases hi - x,
    {
        let ghost before = v@;
        v.push(x);
        assert(before + range_seq(x as int, hi as int) =~= v@ + range_seq(x + 1, hi as int));
        if x == hi {
            assert(range_seq(x + 1, hi as int) =~= Seq::<u32>::empty());
            assert(v@ =~= v@ + Seq::<u32>::empty());
            return;
        }
        x = x + 1;
    }
}

/// Appends `lo, lo+s, ...` up to `hi` to `v`.
fn push_steps(v: &mut Vec<u32>, lo: u32, hi: u32, s: u32)
    requires
        step_fits(lo as int, hi as int, s as int),
    ensures
        final(v)@ == old(v)@ + step_seq(lo as int, hi as int, s as int),
{
    let mut x = lo;
    let ghost mut k: nat = 0;
    assert(old(v)@ =~= old(v)@ + Seq::<u32>::empty());
    while x <= hi
        invariant
            step_fits(lo as int, hi as int, s as int),
            x == lo + k * s,
            v@ + step_seq(x as int, hi as int, s as int) == old(v)@ + step_seq(
                lo as int,
                hi as int,
                s as int,
            ),
        decreases hi + s - x,
    {
        let ghost before = v@;
        assert(lo + k * s + s <= u32::MAX);
        v.push(x);
        assert(before + step_seq(x as int, hi as int, s as int) =~= v@ + step_seq(
            x + s,
            hi as int,
            s as int,
        ));
        x = x + s;
        proof {
            assert(lo + (k + 1) * s == lo + k * s + s) by (nonlinear_arith);
            k = k + 1;
        }
    }
    assert(step_seq(x as int, hi as int, s as int) =~= Seq::<u32>::empty());
    assert(v@ =~= v@ + Seq::<u32>::empty());
}

/// `s` equals the lower-case ASCII word `w`, ignoring ASCII case.
pub open spec fn eq_ignore_case(s: Seq<char>, w: Seq<char>) -> bool {
    s.len() == w.len() && forall|i: int|
        0 <= i < s.len() ==> (#[trigger] s[i] == w[i] || (s[i] as u32) + 32 == (w[i] as u32))
}

/// The number of a month abbreviation, in any letter case.
pub open spec fn month_number_spec(s: Seq<char>) -> Option<u32> {
    if eq_ignore_case(s, "jan"@) {
        Some(1)
    } else if eq_ignore_case(s, "feb"@) {
        Some(2)
    } else if eq_ignore_case(s, "mar"@) {
        Some(3)
    } else if eq_ignore_case(s, "apr"@) {
        Some(4)
    } else if eq_ignore_case(s, "may"@) {
        Some(5)
    } else if eq_ignore_case(s, "jun"@) {
        Some(6)
    } else if eq_ignore_case(s, "jul"@) {
        Some(7)
    } else if eq_ignore_case(s, "aug"@) {
        Some(8)
    } else if eq_ignore_case(s, "sep"@) {
        Some(9)
    } else if eq_ignore_case(s, "oct"@) {
        Some(10)
    } else if eq_ignore_case(s, "nov"@) {
        Some(11)
    } else if eq_ignore_case(s, "dec"@) {
        Some(12)
    } else {
        None
    }
}

/// The number of a day-of-week abbreviation (Sunday is 0) in any letter
/// case, else the value read as a number.
pub open spec fn dow_value_spec(s: Seq<char>) -> Option<u32> {
    if eq_ignore_case(s, "sun"@) {
        Some(0)
    } else if eq_ignore_case(s, "mon"@) {
        Some(1)
    } else if eq_ignore_case(s, "tue"@) {
        Some(2)
    } else if eq_ignore_case(s, "wed"@) {
        Some(3)
    } else if eq_ignore_case(s, "thu"@) {
        Some(4)
    } else if eq_ignore_case(s, "fri"@) {
        Some(5)
    } else if eq_ignore_case(s, "sat"@) {
        Some(6)
    } else {
        parse_u32(s)
    }
}

/// Compares `s` with a lower-case ASCII word, ignoring ASCII case.
fn is_word_ci(s: &str, w: &str) -> (r: bool)
    requires
        forall|i: int| 0 <= i < w@.len() ==> 97 <= (#[trigger] w@[i] as u32) <= 122,
    ensures
        r == eq_ignore_case(s@, w@),
{
    let n = w.unicode_len();
    if s.unicode_len() != n {
        return false;
    }
    let mut i: usize = 0;
    while i < n
        invariant
            n == w@.len(),
            n == s@.len(),
            i <= n,
            forall|j: int|
                0 <= j < i ==> (#[trigger] s@[j] == w@[j] || (s@[j] as u32) + 32 == (
                w@[j] as u32)),
        decreases n - i,
    {
        let a = s.get_char(i);
        let b = w.get_char(i);
        if !(a == b || (a as u32) + 32 == (b as u32)) {
            return false;
        }
        i = i + 1;
    }
    true
}

/// The number of a month abbreviation, in any letter case.
pub fn parse_month_name(s: &str) -> (r: Option<u32>)
    ensures
        r == month_number_spec(s@),
{
    proof {
        reveal_strlit("jan");
        reveal_strlit("feb");
        reveal_strlit("mar");
        reveal_strlit("apr");
        reveal_strlit("may");
        reveal_strlit("jun");
        reveal_strlit("jul");
        reveal_strlit("aug");
        reveal_strlit("sep");
        reveal_strlit("oct");
        reveal_strlit("nov");
        reveal_strlit("dec");
    }
    if is_word_ci(s, "jan") {
        Some(1)
    } else if is_word_ci(s, "feb") {
        Some(2)
    } else if is_word_ci(s, "mar") {
        Some(3)
    } else if is_word_ci(s, "apr") {
        Some(4)
    } else if is_word_ci(s, "may") {
        Some(5)
    } else if is_word_ci(s, "jun") {
        Some(6)
    } else if is_word_ci(s, "jul") {
        Some(7)
    } else if is_word_ci(s, "aug") {
        Some(8)
    } else if is_word_ci(s, "sep") {
        Some(9)
    } else if is_word_ci(s, "oct") {
        Some(10)
    } else if is_word_ci(s, "nov") {
        Some(11)
    } else if is_word_ci(s, "dec") {
        Some(12)
    } else {
        None
    }
}

/// The number of a day-of-week value: an abbreviation in any letter case
/// (Sunday is 0) or a number.
pub fn parse_dow_value(s: &str) -> (r: Option<u32>)
    ensures
        r == dow_value_spec(s@),
{
    proof {
        reveal_strlit("sun");
        reveal_strlit("mon");
        reveal_strlit("tue");
        reveal_strlit("wed");
        reveal_strlit("thu");
        reveal_strlit("fri");
        reveal_strlit("sat");
    }
    if is_word_ci(s, "sun") {
        Some(0)
    } else if is_word_ci(s, "mon") {
        Some(1)
    } else if is_word_ci(s, "tue") {
        Some(2)
    } else if is_word_ci(s, "wed") {
        Some(3)
    } else if is_word_ci(s, "thu") {
        Some(4)
    } else if is_word_ci(s, "fri") {
        Some(5)
    } else if is_word_ci(s, "sat") {
        Some(6)
    } else {
        parse_u32_str(s)
    }
}


/// The values one comma-separated piece of a field matches: a step `*/s`,
/// a range `a-b`, a number, or a month abbreviation.
pub open spec fn part_values(p: Seq<char>, lo: u32, hi: u32) -> Seq<u32> {
    match strip_prefix(p, "*/"@) {
        Some(step) => match parse_u32(step) {
            Some(s) => step_seq(lo as int, hi as int, s as int),
            None => Seq::empty(),
        },
        None => if p.contains('-') {
            let r = split_char(p, '-');
            if r.len() == 2 {
                match (parse_u32(r[0]), parse_u32(r[1])) {
                    (Some(a), Some(b)) => range_seq(a as int, b as int),
                    _ => Seq::empty(),
                }
            } else {
                Seq::empty()
            }
        } else {
            match parse_u32(p) {
                Some(v) => seq![v],
                None => match month_number_spec(p) {
                    Some(v) => seq![v],
                    None => Seq::empty(),
                },
            }
        },
    }
}

/// The values one piece of a day-of-week field matches: a step from 0 to
/// 6, a range whose ends default to 0 and 6, or a single day.
pub open spec fn dow_part_values(p: Seq<char>) -> Seq<u32> {
    match strip_prefix(p, "*/"@) {
        Some(step) => match parse_u32(step) {
            Some(s) => step_seq(0, 6, s as int),
            None => Seq::empty(),
        },
        None => if p.contains('-') {
            let r = split_char(p, '-');
            if r.len() == 2 {
                let a = match dow_value_spec(r[0]) {
                    Some(x) => x,
                    None => 0,
                };
                let b = match dow_value_spec(r[1]) {
                    Some(x) => x,
                    None => 6,
                };
                range_seq(a as int, b as int)
            } else {
                Seq::empty()
            }
        } else {
            match dow_value_spec(p) {
                Some(v) => seq![v],
                None => Seq::empty(),
            }
        },
    }
}

/// A step piece `*/s` with a number `s` steps forward without overflow.
pub open spec fn part_ok(p: Seq<char>, lo: u32, hi: u32) -> bool {
    match strip_prefix(p, "*/"@) {
        Some(step) => match parse_u32(step) {
            Some(s) => step_fits(lo as int, hi as int, s as int),
            None => true,
        },
        None => true,
    }
}

/// The values of the pieces, in order.
pub open spec fn concat_values(parts: Seq<Seq<char>>, lo: u32, hi: u32) -> Seq<u32>
    decreases parts.len(),
{
    if parts.len() == 0 {
        Seq::empty()
    } else {
        concat_values(parts.drop_last(), lo, hi) + part_values(parts.last(), lo, hi)
    }
}

/// The values of the day-of-week pieces, in order.
pub open spec fn concat_dow_values(parts: Seq<Seq<char>>) -> Seq<u32>
    decreases parts.len(),
{
    if parts.len() == 0 {
        Seq::empty()
    } else {
        concat_dow_values(parts.drop_last()) + dow_part_values(parts.last())
    }
}

/// `s` with each value kept at its first place only.
pub open spec fn distinct(s: Seq<u32>) -> Seq<u32>
    decreases s.len(),
{
    if s.len() == 0 {
        s
    } else {
        let r = distinct(s.drop_last());
        if r.contains(s.last()) {
            r
        } else {
            r.push(s.last())
        }
    }
}

/// The set of values a field matches between `lo` and `hi`: all of them
/// when a piece is `*`, else the values of the pieces in order of first
/// appearance, each once.
pub open spec fn expand_spec(field: Seq<char>, lo: u32, hi: u32) -> Seq<u32> {
    let parts = split_char(field, ',');
    if parts.contains("*"@) {
        range_seq(lo as int, hi as int)
    } else {
        distinct(concat_values(parts, lo, hi))
    }
}

/// Every step piece before the first `*` can be stepped (a step of 0 never
/// ends, one that passes `u32::MAX` overflows).
pub open spec fn expand_ok(field: Seq<char>, lo: u32, hi: u32) -> bool {
    let parts = split_char(field, ',');
    forall|i: int|
        0 <= i < parts.len() && !parts.take(i).contains("*"@) ==> part_ok(
            #[trigger] parts[i],
            lo,
            hi,
        )
}

/// Every day-of-week step piece before the first `*` can be stepped.
pub open spec fn expand_dow_ok(field: Seq<char>) -> bool {
    expand_ok(field, 0, 6)
}

/// The day-of-week values a field matches, before Sunday's two numbers are
/// reconciled.
pub open spec fn dow_inner_spec(field: Seq<char>) -> Seq<u32> {
    let parts = split_char(field, ',');
    if parts.contains("*"@) {
        range_seq(0, 6)
    } else {
        distinct(concat_dow_values(parts))
    }
}

/// The day-of-week values a field matches, with 0 added when only 7
/// (Sunday's other number) is present.
pub open spec fn expand_dow_spec(field: Seq<char>) -> Seq<u32> {
    let v = dow_inner_spec(field);
    if v.contains(7) && !v.contains(0) {
        v.push(0)
    } else {
        v
    }
}

fn push_part_values(v: &mut Vec<u32>, p: &str, lo: u32, hi: u32)
    requires
        part_ok(p@, lo, hi),
    ensures
        final(v)@ == old(v)@ + part_values(p@, lo, hi),
{
    match strip_prefix_str(p, "*/") {
        Some(step) => {
            match parse_u32_str(step) {
                Some(s) => push_steps(v, lo, hi, s),
                None => {
                    assert(old(v)@ =~= old(v)@ + Seq::<u32>::empty());
                },
            }
        },
        None => {
            if str_contains_char(p, '-') {
                let r = split_on_char(p, '-');
                assert(r.deep_view().len() == r@.len());
                if r.len() == 2 {
                    match (parse_u32_str(r[0]), parse_u32_str(r[1])) {
                        (Some(a), Some(b)) => push_range(v, a, b),
                        _ => {
                            assert(old(v)@ =~= old(v)@ + Seq::<u32>::empty());
                        },
                    }
                } else {
                    assert(old(v)@ =~= old(v)@ + Seq::<u32>::empty());
                }
            } else {
                match parse_u32_str(p) {
                    Some(x) => {
                        v.push(x);
                        assert(v@ =~= old(v)@ + seq![x]);
                    },
                    None => match parse_month_name(p) {
                        Some(x) => {
                            v.push(x);
                            assert(v@ =~= old(v)@ + seq![x]);
                        },
                        None => {
                            assert(old(v)@ =~= old(v)@ + Seq::<u32>::empty());
                        },
                    },
                }
            }
        },
    }
}

fn push_dow_part_values(v: &mut Vec<u32>, p: &str)
    requires
        part_ok(p@, 0, 6),
    ensures
        final(v)@ == old(v)@ + dow_part_values(p@),
{
    match strip_prefix_str(p, "*/") {
        Some(step) => {
            match parse_u32_str(step) {
                Some(s) => push_steps(v, 0, 6, s),
                None => {
                    assert(old(v)@ =~= old(v)@ + Seq::<u32>::empty());
                },
            }
        },
        None => {
            if str_contains_char(p, '-') {
                let r = split_on_char(p, '-');
                assert(r.deep_view().len() == r@.len());
                if r.len() == 2 {
                    let a = match parse_dow_value(r[0]) {
                        Some(x) => x,
                        None => 0,
                    };
                    let b = match parse_dow_value(r[1]) {
                        Some(x) => x,
                        None => 6,
                    };
                    push_range(v, a, b);
                } else {
                    assert(old(v)@ =~= old(v)@ + Seq::<u32>::empty());
                }
            } else {
                match parse_dow_value(p) {
                    Some(x) => {
                        v.push(x);
                        assert(v@ =~= old(v)@ + seq![x]);
                    },
                    None => {
                        assert(old(v)@ =~= old(v)@ + Seq::<u32>::empty());
                    },
                }
            }
        },
    }
}

proof fn lemma_distinct(s: Seq<u32>)
    ensures
        forall|x: u32| #[trigger] distinct(s).contains(x) <==> s.contains(x),
        distinct(s).no_duplicates(),
    decreases s.len(),
{
    if s.len() > 0 {
        let t = s.drop_last();
        lemma_distinct(t);
        assert(s =~= t.push(s.last()));
        let r = distinct(t);
        assert forall|x: u32| #[trigger] distinct(s).contains(x) <==> s.contains(x) by {
            if s.contains(x) && x != s.last() {
                let k = choose|k: int| 0 <= k < s.len() && s[k] == x;
                assert(t[k] == x);
            }
            if t.contains(x) {
                let k = choose|k: int| 0 <= k < t.len() && t[k] == x;
                assert(s[k] == x);
            }
            if !r.contains(s.last()) {
                assert(r.push(s.last())[r.len() as int] == s.last());
                if r.contains(x) {
                    let k = choose|k: int| 0 <= k < r.len() && r[k] == x;
                    assert(r.push(s.last())[k] == x);
                }
                if r.push(s.last()).contains(x) && x != s.last() {
                    let k = choose|k: int| 0 <= k < r.len() + 1 && r.push(s.last())[k] == x;
                    assert(r[k] == x);
                }
            }
        }
    }
}

/// `v` with each value kept at its first place only.
fn dedup(v: &Vec<u32>) -> (r: Vec<u32>)
    ensures
        r@ == distinct(v@),
{
    let mut r: Vec<u32> = Vec::new();
    let mut i: usize = 0;
    assert(v@.take(0) =~= Seq::<u32>::empty());
    while i < v.len()
        invariant
            i <= v@.len(),
            r@ == distinct(v@.take(i as int)),
        decreases v@.len() - i,
    {
        assert(v@.take(i + 1).drop_last() =~= v@.take(i as int));
        assert(v@.take(i + 1).last() == v@[i as int]);
        if !vec_contains(&r, v[i]) {
            r.push(v[i]);
        }
        i = i + 1;
    }
    assert(v@.take(i as int) =~= v@);
    r
}

fn is_star(p: &str) -> (r: bool)
    ensures
        r == (p@ == "*"@),
{
    crate::text::str_eq(p, "*")
}

/// Expands a cron field into the set of values it matches between `lo`
/// and `hi`, each once.
pub fn expand_field(field: &str, lo: u32, hi: u32) -> (v: Vec<u32>)
    requires
        expand_ok(field@, lo, hi),
    ensures
        v@ == expand_spec(field@, lo, hi),
{
    let parts = split_on_char(field, ',');
    let ghost pv = parts.deep_view();
    let mut v: Vec<u32> = Vec::new();
    let mut i: usize = 0;
    assert(pv.take(0) =~= Seq::<Seq<char>>::empty());
    while i < parts.len()
        invariant
            pv == parts.deep_view(),
            pv == split_char(field@, ','),
            expand_ok(field@, lo, hi),
            i <= parts@.len(),
            !pv.take(i as int).contains("*"@),
            v@ == concat_values(pv.take(i as int), lo, hi),
        decreases parts@.len() - i,
    {
        if is_star(parts[i]) {
            assert(pv.contains("*"@)) by {
                assert(pv[i as int] == "*"@);
            }
            let mut all: Vec<u32> = Vec::new();
            push_range(&mut all, lo, hi);
            assert(all@ =~= range_seq(lo as int, hi as int));
            return all;
        }
        assert(part_ok(pv[i as int], lo, hi));
        push_part_values(&mut v, parts[i], lo, hi);
        assert(pv.take(i + 1).drop_last() =~= pv.take(i as int));
        assert(!pv.take(i + 1).contains("*"@)) by {
            if pv.take(i + 1).contains("*"@) {
                let k = choose|k: int| 0 <= k < i + 1 && #[trigger] pv.take(i + 1)[k] == "*"@;
                if k < i {
                    assert(pv.take(i as int)[k] == "*"@);
                }
            }
        }
        i = i + 1;
    }
    assert(pv.take(i as int) =~= pv);
    dedup(&v)
}

/// Expands a day-of-week field without reconciling Sunday's numbers.
pub fn expand_field_dow_inner(field: &str) -> (v: Vec<u32>)
    requires
        expand_dow_ok(field@),
    ensures
        v@ == dow_inner_spec(field@),
{
    let parts = split_on_char(field, ',');
    let ghost pv = parts.deep_view();
    let mut v: Vec<u32> = Vec::new();
    let mut i: usize = 0;
    assert(pv.take(0) =~= Seq::<Seq<char>>::empty());
    while i < parts.len()
        invariant
            pv == parts.deep_view(),
            pv == split_char(field@, ','),
            expand_ok(field@, 0, 6),
            i <= parts@.len(),
            !pv.take(i as int).contains("*"@),
            v@ == concat_dow_values(pv.take(i as int)),
        decreases parts@.len() - i,
    {
        if is_star(parts[i]) {
            assert(pv.contains("*"@)) by {
                assert(pv[i as int] == "*"@);
            }
            let mut all: Vec<u32> = Vec::new();
            push_range(&mut all, 0, 6);
            assert(all@ =~= range_seq(0, 6));
            return all;
        }
        assert(part_ok(pv[i as int], 0, 6));
        push_dow_part_values(&mut v, parts[i]);
        assert(pv.take(i + 1).drop_last() =~= pv.take(i as int));
        assert(!pv.take(i + 1).contains("*"@)) by {
            if pv.take(i + 1).contains("*"@) {
                let k = choose|k: int| 0 <= k < i + 1 && #[trigger] pv.take(i + 1)[k] == "*"@;
                if k < i {
                    assert(pv.take(i as int)[k] == "*"@);
                }
            }
        }
        i = i + 1;
    }
    assert(pv.take(i as int) =~= pv);
    dedup(&v)
}

fn vec_contains(v: &Vec<u32>, x: u32) -> (r: bool)
    ensures
        r == v@.contains(x),
{
    let mut i: usize = 0;
    while i < v.len()
        invariant
            i <= v@.len(),
            forall|j: int| 0 <= j < i ==> v@[j] != x,
        decreases v@.len() - i,
    {
        if v[i] == x {
            assert(v@[i as int] == x);
            return true;
        }
        i = i + 1;
    }
    false
}

/// Expands a day-of-week field, counting 7 as Sunday (0) as well.
pub fn expand_dow_field(field: &str) -> (v: Vec<u32>)
    requires
        expand_dow_ok(field@),
    ensures
        v@ == expand_dow_spec(field@),
{
    let mut v = expand_field_dow_inner(field);
    if vec_contains(&v, 7) && !vec_contains(&v, 0) {
        v.push(0);
    }
    v
}


/// `{:04}` of a number: at least four digits, zero-padded.
pub open spec fn pad4(n: nat) -> Seq<char> {
    if n < 10 {
        "000"@ + decimal(n)
    } else if n < 100 {
        "00"@ + decimal(n)
    } else if n < 1000 {
        "0"@ + decimal(n)
    } else {
        decimal(n)
    }
}

/// A year as `%Y` writes it: four digits for 0 to 9999, else signed.
pub open spec fn year_text(y: int) -> Seq<char> {
    if 0 <= y <= 9999 {
        pad4(y as nat)
    } else if y > 9999 {
        "+"@ + decimal(y as nat)
    } else {
        "-"@ + pad4((-y) as nat)
    }
}

/// A local moment as `%Y-%m-%dT%H:%M`.
pub open spec fn minute_text(s: LocalStamp) -> Seq<char> {
    year_text(s.year as int) + "-"@ + pad2(s.month as nat) + "-"@ + pad2(s.day as nat) + "T"@
        + pad2(s.hour as nat) + ":"@ + pad2(s.minute as nat)
}

fn push_pad4(out: &mut String, n: u64)
    ensures
        final(out)@ == old(out)@ + pad4(n as nat),
{
    proof {
        reveal_strlit("000");
        reveal_strlit("00");
        reveal_strlit("0");
    }
    if n < 10 {
        out.append("000");
    } else if n < 100 {
        out.append("00");
    } else if n < 1000 {
        out.append("0");
    }
    let ghost mid = out@;
    push_decimal(out, n);
    assert(out@ =~= old(out)@ + pad4(n as nat));
}

/// Formats a local moment as `%Y-%m-%dT%H:%M`.
pub fn format_minute(s: &LocalStamp) -> (r: String)
    ensures
        r@ == minute_text(*s),
{
    let mut r = String::new();
    let y = s.year;
    if y >= 0 && y <= 9999 {
        push_pad4(&mut r, y as u64);
    } else if y > 9999 {
        r.append("+");
        push_decimal(&mut r, y as u64);
    } else {
        r.append("-");
        let a: i64 = -(y as i64);
        push_pad4(&mut r, a as u64);
    }
    assert(r@ =~= year_text(s.year as int));
    r.append("-");
    push_pad2(&mut r, s.month as u64);
    r.append("-");
    push_pad2(&mut r, s.day as u64);
    r.append("T");
    push_pad2(&mut r, s.hour as u64);
    r.append(":");
    push_pad2(&mut r, s.minute as u64);
    r
}


/// One upcoming run of a job.
#[derive(Debug, Clone, PartialEq, Eq)]
pub struct TimelineEvent {
    pub time: String,
    pub user: String,
    pub command: String,
    pub schedule: String,
}

/// The mathematical value of a [`TimelineEvent`].
pub struct EventView {
    pub time: Seq<char>,
    pub user: Seq<char>,
    pub command: Seq<char>,
    pub schedule: Seq<char>,
}

impl View for TimelineEvent {
    type V = EventView;

    open spec fn view(&self) -> EventView {
        EventView {
            time: self.time@,
            user: self.user@,
            command: self.command@,
            schedule: self.schedule@,
        }
    }
}

impl DeepView for TimelineEvent {
    type V = EventView;

    open spec fn deep_view(&self) -> EventView {
        self@
    }
}

impl TimelineEvent {
    /// A copy of this event.
    pub fn duplicate(&self) -> (r: TimelineEvent)
        ensures
            r@ == self@,
    {
        TimelineEvent {
            time: self.time.clone(),
            user: self.user.clone(),
            command: self.command.clone(),
            schedule: self.schedule.clone(),
        }
    }
}

/// The runs of jobs between two moments.
#[derive(Debug, Clone, PartialEq, Eq)]
pub struct Timeline {
    pub start: String,
    pub end: String,
    pub hours: u32,
    pub events: Vec<TimelineEvent>,
}

/// The mathematical value of a [`Timeline`].
pub struct TimelineView {
    pub start: Seq<char>,
    pub end: Seq<char>,
    pub hours: u32,
    pub events: Seq<EventView>,
}

impl View for Timeline {
    type V = TimelineView;

    open spec fn view(&self) -> TimelineView {
        TimelineView {
            start: self.start@,
            end: self.end@,
            hours: self.hours,
            events: self.events.deep_view(),
        }
    }
}

/// Byte-wise lexicographic order, as `str` is ordered.
pub open spec fn bytes_lt(a: Seq<u8>, b: Seq<u8>) -> bool
    decreases a.len(),
{
    if b.len() == 0 {
        false
    } else if a.len() == 0 {
        true
    } else if a[0] < b[0] {
        true
    } else if a[0] > b[0] {
        false
    } else {
        bytes_lt(a.drop_first(), b.drop_first())
    }
}

/// The key events are ordered by: the bytes of their time text.
pub open spec fn time_key(e: EventView) -> Seq<u8> {
    encode_utf8(e.time)
}

/// `x` inserted into `s` after every element it does not come before.
pub open spec fn insert_sorted(s: Seq<EventView>, x: EventView) -> Seq<EventView>
    decreases s.len(),
{
    if s.len() == 0 {
        seq![x]
    } else if bytes_lt(time_key(x), time_key(s.last())) {
        insert_sorted(s.drop_last(), x).push(s.last())
    } else {
        s.push(x)
    }
}

/// The stable sort of events by time text (`sort_by` on `time.cmp`).
pub open spec fn sort_by_time(s: Seq<EventView>) -> Seq<EventView>
    decreases s.len(),
{
    if s.len() == 0 {
        Seq::empty()
    } else {
        insert_sorted(sort_by_time(s.drop_last()), s.last())
    }
}

fn bytes_less(a: &[u8], b: &[u8]) -> (r: bool)
    ensures
        r == bytes_lt(a@, b@),
{
    let mut i: usize = 0;
    assert(a@.skip(0) =~= a@);
    assert(b@.skip(0) =~= b@);
    while i < a.len() && i < b.len() && a[i] == b[i]
        invariant
            i <= a@.len(),
            i <= b@.len(),
            bytes_lt(a@, b@) == bytes_lt(a@.skip(i as int), b@.skip(i as int)),
        decreases a@.len() - i,
    {
        assert(a@.skip(i as int).drop_first() =~= a@.skip(i + 1));
        assert(b@.skip(i as int).drop_first() =~= b@.skip(i + 1));
        i = i + 1;
    }
    if i == b.len() {
        false
    } else if i == a.len() {
        true
    } else {
        a[i] < b[i]
    }
}

/// Whether event time `a` sorts before `b`.
fn time_less(a: &String, b: &String) -> (r: bool)
    ensures
        r == bytes_lt(encode_utf8(a@), encode_utf8(b@)),
{
    bytes_less(a.as_str().as_bytes(), b.as_str().as_bytes())
}

proof fn lemma_insert_at(s: Seq<EventView>, x: EventView, p: int)
    requires
        0 <= p <= s.len(),
        p == 0 || !bytes_lt(time_key(x), time_key(s[p - 1])),
        forall|j: int| p <= j < s.len() ==> bytes_lt(time_key(x), #[trigger] time_key(s[j])),
    ensures
        insert_sorted(s, x) == s.take(p).push(x) + s.skip(p),
    decreases s.len(),
{
    if s.len() == p {
        assert(s.take(p).push(x) + s.skip(p) =~= s.push(x));
    } else {
        assert(bytes_lt(time_key(x), time_key(s[s.len() - 1])));
        lemma_insert_at(s.drop_last(), x, p);
        assert(s.drop_last().take(p).push(x) + s.drop_last().skip(p) + seq![s.last()]
            =~= s.take(p).push(x) + s.skip(p));
    }
}

/// Inserts an event after every event it does not come before.
fn insert_event(out: &mut Vec<TimelineEvent>, x: TimelineEvent)
    ensures
        final(out).deep_view() == insert_sorted(old(out).deep_view(), x@),
{
    let ghost s = out.deep_view();
    let mut p = out.len();
    while p > 0 && time_less(&x.time, &out[p - 1].time)
        invariant
            s == out.deep_view(),
            s.len() == out@.len(),
            p <= out@.len(),
            forall|j: int| p <= j < s.len() ==> bytes_lt(time_key(x@), #[trigger] time_key(s[j])),
        decreases p,
    {
        p = p - 1;
    }
    proof {
        lemma_insert_at(s, x@, p as int);
    }
    let ghost xv = x@;
    out.insert(p, x);
    assert(out.deep_view() =~= s.take(p as int).push(xv) + s.skip(p as int));
}

/// Sorts events by time, keeping the order of events at the same time.
pub fn sort_events(events: Vec<TimelineEvent>) -> (r: Vec<TimelineEvent>)
    ensures
        r.deep_view() == sort_by_time(events.deep_view()),
{
    let ghost ev = events.deep_view();
    let mut out: Vec<TimelineEvent> = Vec::new();
    let rest = events;
    let mut i: usize = 0;
    let n = rest.len();
    assert(ev.take(0) =~= Seq::<EventView>::empty());
    while i < n
        invariant
            n == ev.len(),
            rest.deep_view() == ev,
            i <= n,
            out.deep_view() == sort_by_time(ev.take(i as int)),
        decreases n - i,
    {
        assert(ev.take(i + 1).drop_last() =~= ev.take(i as int));
        let x = rest[i].duplicate();
        insert_event(&mut out, x);
        i = i + 1;
    }
    assert(ev.take(n as int) =~= ev);
    out
}


/// The values each field of a schedule matches.
pub struct Expansion {
    pub minutes: Vec<u32>,
    pub hours: Vec<u32>,
    pub doms: Vec<u32>,
    pub months: Vec<u32>,
    pub dows: Vec<u32>,
}

/// The mathematical value of an [`Expansion`].
pub struct ExpansionView {
    pub minutes: Seq<u32>,
    pub hours: Seq<u32>,
    pub doms: Seq<u32>,
    pub months: Seq<u32>,
    pub dows: Seq<u32>,
}

impl View for Expansion {
    type V = ExpansionView;

    open spec fn view(&self) -> ExpansionView {
        ExpansionView {
            minutes: self.minutes@,
            hours: self.hours@,
            doms: self.doms@,
            months: self.months@,
            dows: self.dows@,
        }
    }
}

/// What a five-field schedule matches: minutes 0-59, hours 0-23, days of
/// month 1-31, months 1-12 and days of week.
pub open spec fn expansion_spec(schedule: Seq<char>) -> Option<ExpansionView> {
    let w = words(schedule);
    if w.len() != 5 {
        None
    } else {
        Some(
            ExpansionView {
                minutes: expand_spec(w[0], 0, 59),
                hours: expand_spec(w[1], 0, 23),
                doms: expand_spec(w[2], 1, 31),
                months: expand_spec(w[3], 1, 12),
                dows: expand_dow_spec(w[4]),
            },
        )
    }
}

/// Every field of a five-field schedule can be expanded (see [`expand_ok`]).
pub open spec fn schedule_expandable(schedule: Seq<char>) -> bool {
    let w = words(schedule);
    w.len() == 5 ==> {
        &&& expand_ok(w[0], 0, 59)
        &&& expand_ok(w[1], 0, 23)
        &&& expand_ok(w[2], 1, 31)
        &&& expand_ok(w[3], 1, 12)
        &&& expand_dow_ok(w[4])
    }
}

/// Expands each field of a five-field schedule.
pub fn expand_schedule(schedule: &str) -> (r: Option<Expansion>)
    requires
        schedule_expandable(schedule@),
    ensures
        match r {
            Some(x) => expansion_spec(schedule@) == Some(x@),
            None => expansion_spec(schedule@) is None,
        },
{
    let w = split_whitespace(schedule);
    assert(w.deep_view().len() == w@.len());
    if w.len() != 5 {
        return None;
    }
    Some(
        Expansion {
            minutes: expand_field(w[0], 0, 59),
            hours: expand_field(w[1], 0, 23),
            doms: expand_field(w[2], 1, 31),
            months: expand_field(w[3], 1, 12),
            dows: expand_dow_field(w[4]),
        },
    )
}

/// The local times of the minutes of one day: `grid[h][m]` for `h:m`.
pub struct DayTable {
    pub day_number: i32,
    pub grid: Vec<Vec<Option<LocalStamp>>>,
}

/// Index of the first table for day `d`.
pub open spec fn table_index(tables: Seq<DayTable>, d: int) -> Option<int>
    decreases tables.len(),
{
    if tables.len() == 0 {
        None
    } else if tables[0].day_number == d {
        Some(0)
    } else {
        match table_index(tables.drop_first(), d) {
            Some(i) => Some(i + 1),
            None => None,
        }
    }
}

proof fn lemma_table_index_is(tables: Seq<DayTable>, d: int, p: int)
    requires
        0 <= p <= tables.len(),
        forall|j: int| 0 <= j < p ==> (#[trigger] tables[j]).day_number != d,
    ensures
        p < tables.len() && tables[p].day_number == d ==> table_index(tables, d) == Some(p),
        p == tables.len() ==> table_index(tables, d) is None,
    decreases p,
{
    if p > 0 {
        assert forall|j: int| 0 <= j < p - 1 implies (#[trigger] tables.drop_first()[j]).day_number
            != d by {
            assert(tables.drop_first()[j] == tables[j + 1]);
        }
        lemma_table_index_is(tables.drop_first(), d, p - 1);
    }
}

/// The minutes of hour `h` in a day's table.
pub open spec fn row_of(t: DayTable, h: u32) -> Seq<Option<LocalStamp>> {
    t.grid@[h as int]@
}

/// The local moment of `h:m` on day `d` that the tables record.
pub open spec fn resolved(tables: Seq<DayTable>, d: int, h: u32, m: u32) -> Option<LocalStamp> {
    match table_index(tables, d) {
        Some(k) => if 0 <= k < tables.len() && h < tables[k].grid@.len() && m < row_of(
            tables[k],
            h,
        ).len() {
            row_of(tables[k], h)[m as int]
        } else {
            None
        },
        None => None,
    }
}

/// Every recorded moment is the wall-clock time it is filed under, on its
/// day, with no fraction of a second: what `resolve_local` promises.
pub open spec fn tables_consistent(tables: Seq<DayTable>) -> bool {
    forall|d: int, h: u32, m: u32| stamp_fits(#[trigger] resolved(tables, d, h, m), d, h, m)
}

/// A recorded moment, if any, is the wall-clock time `h:m` on day `d`.
pub open spec fn stamp_fits(o: Option<LocalStamp>, d: int, h: u32, m: u32) -> bool {
    match o {
        Some(s) => stamp_valid(s) && stamp_on_its_day(s) && s.day_number == d && s.hour == h
            && s.minute == m && s.nanos == 0,
        None => true,
    }
}

/// `a` is no later than `b`.
pub open spec fn instant_le(a: LocalStamp, b: LocalStamp) -> bool {
    a.timestamp < b.timestamp || (a.timestamp == b.timestamp && a.nanos <= b.nanos)
}

/// `a` is earlier than `b`.
pub open spec fn instant_lt(a: LocalStamp, b: LocalStamp) -> bool {
    a.timestamp < b.timestamp || (a.timestamp == b.timestamp && a.nanos < b.nanos)
}

/// A moment from `now` (inclusive) to `end` (exclusive).
pub open spec fn in_window(t: LocalStamp, now: LocalStamp, end: LocalStamp) -> bool {
    instant_le(now, t) && instant_lt(t, end)
}

/// The run of `job` at moment `t`.
pub open spec fn event_of(job: CronJobView, t: LocalStamp) -> EventView {
    EventView { time: minute_text(t), user: job.user, command: job.command, schedule: job.schedule }
}

/// The runs at hour `h` on day `d` for the first `k` minutes of `mins`.
pub open spec fn minute_events(
    job: CronJobView,
    tables: Seq<DayTable>,
    d: int,
    h: u32,
    mins: Seq<u32>,
    k: int,
    now: LocalStamp,
    end: LocalStamp,
) -> Seq<EventView>
    decreases k,
{
    if k <= 0 || k > mins.len() {
        Seq::empty()
    } else {
        let m = mins[k - 1];
        minute_events(job, tables, d, h, mins, k - 1, now, end) + if h < 24 && m < 60 {
            match resolved(tables, d, h, m) {
                Some(t) => if in_window(t, now, end) {
                    seq![event_of(job, t)]
                } else {
                    Seq::empty()
                },
                None => Seq::empty(),
            }
        } else {
            Seq::empty()
        }
    }
}

/// The runs on day `d` for the first `k` hours of the expansion.
pub open spec fn hour_events(
    job: CronJobView,
    tables: Seq<DayTable>,
    x: ExpansionView,
    d: int,
    k: int,
    now: LocalStamp,
    end: LocalStamp,
) -> Seq<EventView>
    decreases k,
{
    if k <= 0 || k > x.hours.len() {
        Seq::empty()
    } else {
        hour_events(job, tables, x, d, k - 1, now, end) + minute_events(
            job,
            tables,
            d,
            x.hours[k - 1],
            x.minutes,
            x.minutes.len() as int,
            now,
            end,
        )
    }
}

/// The month, day of month and weekday of a day are all matched.
pub open spec fn day_matches(x: ExpansionView, c: DayInfo) -> bool {
    x.months.contains(c.month) && x.doms.contains(c.day) && x.dows.contains(c.weekday)
}

/// The runs of a job on day `d`.
pub open spec fn day_events(
    job: CronJobView,
    tables: Seq<DayTable>,
    x: ExpansionView,
    d: int,
    now: LocalStamp,
    end: LocalStamp,
) -> Seq<EventView> {
    match calendar_day(d as i32) {
        Some(c) => if day_matches(x, c) {
            hour_events(job, tables, x, d, x.hours.len() as int, now, end)
        } else {
            Seq::empty()
        },
        None => Seq::empty(),
    }
}

/// The runs of a job on the first `k` days from day `first`.
pub open spec fn days_events(
    job: CronJobView,
    tables: Seq<DayTable>,
    x: ExpansionView,
    first: int,
    k: int,
    now: LocalStamp,
    end: LocalStamp,
) -> Seq<EventView>
    decreases k,
{
    if k <= 0 {
        Seq::empty()
    } else {
        days_events(job, tables, x, first, k - 1, now, end) + day_events(
            job,
            tables,
            x,
            first + k - 1,
            now,
            end,
        )
    }
}

/// The runs of a job from the day of `now` to the day of `end`, in the
/// order days, then its hours, then its minutes.
pub open spec fn job_events(
    job: CronJobView,
    tables: Seq<DayTable>,
    now: LocalStamp,
    end: LocalStamp,
) -> Seq<EventView> {
    match expansion_spec(job.schedule) {
        Some(x) => days_events(
            job,
            tables,
            x,
            now.day_number as int,
            end.day_number - now.day_number + 1,
            now,
            end,
        ),
        None => Seq::empty(),
    }
}

/// The runs of the first `k` jobs, job after job.
pub open spec fn jobs_events(
    jobs: Seq<CronJobView>,
    tables: Seq<DayTable>,
    k: int,
    now: LocalStamp,
    end: LocalStamp,
) -> Seq<EventView>
    decreases k,
{
    if k <= 0 || k > jobs.len() {
        Seq::empty()
    } else {
        jobs_events(jobs, tables, k - 1, now, end) + job_events(jobs[k - 1], tables, now, end)
    }
}

fn vec_has(v: &Vec<u32>, x: u32) -> (r: bool)
    ensures
        r == v@.contains(x),
{
    vec_contains(v, x)
}

/// The position of the table for day `d`.
fn table_position(tables: &Vec<DayTable>, d: i32) -> (r: Option<usize>)
    ensures
        r matches Some(k) ==> k < tables@.len() && table_index(tables@, d as int) == Some(k as int),
        r is None ==> table_index(tables@, d as int) is None,
{
    let mut j: usize = 0;
    while j < tables.len()
        invariant
            j <= tables@.len(),
            forall|i: int| 0 <= i < j ==> (#[trigger] tables@[i]).day_number != d,
        decreases tables@.len() - j,
    {
        if tables[j].day_number == d {
            proof {
                lemma_table_index_is(tables@, d as int, j as int);
            }
            return Some(j);
        }
        j = j + 1;
    }
    proof {
        lemma_table_index_is(tables@, d as int, j as int);
    }
    None
}

fn push_event(out: &mut Vec<TimelineEvent>, e: TimelineEvent)
    ensures
        final(out).deep_view() == old(out).deep_view().push(e@),
{
    let ghost old_dv = out.deep_view();
    out.push(e);
    assert(out.deep_view() =~= old_dv.push(e@));
}

fn make_event(job: &CronJob, t: &LocalStamp) -> (e: TimelineEvent)
    ensures
        e@ == event_of(job@, *t),
{
    TimelineEvent {
        time: format_minute(t),
        user: job.user.clone(),
        command: job.command.clone(),
        schedule: job.schedule.clone(),
    }
}

fn is_in_window(t: &LocalStamp, now: &LocalStamp, end: &LocalStamp) -> (r: bool)
    ensures
        r == in_window(*t, *now, *end),
{
    let le = now.timestamp < t.timestamp || (now.timestamp == t.timestamp && now.nanos <= t.nanos);
    let lt = t.timestamp < end.timestamp || (t.timestamp == end.timestamp && t.nanos < end.nanos);
    le && lt
}

/// Appends the runs of `job` at hour `h` of day `d`.
fn push_minute_events(
    out: &mut Vec<TimelineEvent>,
    job: &CronJob,
    tables: &Vec<DayTable>,
    pos: Option<usize>,
    d: i32,
    h: u32,
    mins: &Vec<u32>,
    now: &LocalStamp,
    end: &LocalStamp,
)
    requires
        pos matches Some(k) ==> k < tables@.len() && table_index(tables@, d as int) == Some(
            k as int,
        ),
        pos is None ==> table_index(tables@, d as int) is None,
    ensures
        final(out).deep_view() == old(out).deep_view() + minute_events(
            job@,
            tables@,
            d as int,
            h,
            mins@,
            mins@.len() as int,
            *now,
            *end,
        ),
{
    let ghost base = out.deep_view();
    let mut k: usize = 0;
    assert(base =~= base + Seq::<EventView>::empty());
    while k < mins.len()
        invariant
            k <= mins@.len(),
            pos matches Some(p) ==> p < tables@.len() && table_index(tables@, d as int) == Some(
                p as int,
            ),
            pos is None ==> table_index(tables@, d as int) is None,
            out.deep_view() == base + minute_events(
                job@,
                tables@,
                d as int,
                h,
                mins@,
                k as int,
                *now,
                *end,
            ),
        decreases mins@.len() - k,
    {
        let m = mins[k];
        let ghost before = out.deep_view();
        if h < 24 && m < 60 {
            let found: Option<LocalStamp> = match pos {
                Some(p) => {
                    let grid = &tables[p].grid;
                    if (h as usize) < grid.len() && (m as usize) < grid[h as usize].len() {
                        grid[h as usize][m as usize]
                    } else {
                        None
                    }
                },
                None => None,
            };
            assert(found == resolved(tables@, d as int, h, m));
            match found {
                Some(t) => {
                    if is_in_window(&t, now, end) {
                        push_event(out, make_event(job, &t));
                    }
                },
                None => {},
            }
        }
        assert(out.deep_view() =~= base + minute_events(
            job@,
            tables@,
            d as int,
            h,
            mins@,
            k + 1,
            *now,
            *end,
        ));
        k = k + 1;
    }
}

/// Appends the runs of `job` on day `d`.
fn push_day_events(
    out: &mut Vec<TimelineEvent>,
    job: &CronJob,
    tables: &Vec<DayTable>,
    x: &Expansion,
    d: i32,
    now: &LocalStamp,
    end: &LocalStamp,
)
    ensures
        final(out).deep_view() == old(out).deep_view() + day_events(
            job@,
            tables@,
            x@,
            d as int,
            *now,
            *end,
        ),
{
    let ghost base = out.deep_view();
    match day_info(d) {
        None => {
            assert(base =~= base + Seq::<EventView>::empty());
        },
        Some(c) => {
            if !vec_has(&x.months, c.month) || !vec_has(&x.doms, c.day) || !vec_has(
                &x.dows,
                c.weekday,
            ) {
                assert(base =~= base + Seq::<EventView>::empty());
                return;
            }
            let pos = table_position(tables, d);
            let mut k: usize = 0;
            assert(base =~= base + Seq::<EventView>::empty());
            while k < x.hours.len()
                invariant
                    k <= x.hours@.len(),
                    pos matches Some(p) ==> p < tables@.len() && table_index(tables@, d as int)
                        == Some(p as int),
                    pos is None ==> table_index(tables@, d as int) is None,
                    out.deep_view() == base + hour_events(
                        job@,
                        tables@,
                        x@,
                        d as int,
                        k as int,
                        *now,
                        *end,
                    ),
                decreases x.hours@.len() - k,
            {
                let ghost before = out.deep_view();
                push_minute_events(out, job, tables, pos, d, x.hours[k], &x.minutes, now, end);
                assert(out.deep_view() =~= base + hour_events(
                    job@,
                    tables@,
                    x@,
                    d as int,
                    k + 1,
                    *now,
                    *end,
                ));
                k = k + 1;
            }
        },
    }
}

/// Appends the runs of one job.
fn push_job_events(
    out: &mut Vec<TimelineEvent>,
    job: &CronJob,
    tables: &Vec<DayTable>,
    now: &LocalStamp,
    end: &LocalStamp,
)
    requires
        schedule_expandable(job.schedule@),
    ensures
        final(out).deep_view() == old(out).deep_view() + job_events(job@, tables@, *now, *end),
{
    let ghost before = out.deep_view();
    match expand_schedule(job.schedule.as_str()) {
        None => {
            assert(before =~= before + Seq::<EventView>::empty());
        },
        Some(x) => {
            let first: i64 = now.day_number as i64;
            let last: i64 = end.day_number as i64;
            let mut d: i64 = first;
            assert(before =~= before + Seq::<EventView>::empty());
            while d <= last
                invariant
                    first == now.day_number,
                    last == end.day_number,
                    first <= d,
                    d <= last + 1 || d == first,
                    out.deep_view() == before + days_events(
                        job@,
                        tables@,
                        x@,
                        first as int,
                        d - first,
                        *now,
                        *end,
                    ),
                decreases last + 1 - d,
            {
                push_day_events(out, job, tables, &x, d as i32, now, end);
                assert(out.deep_view() =~= before + days_events(
                    job@,
                    tables@,
                    x@,
                    first as int,
                    d + 1 - first,
                    *now,
                    *end,
                ));
                d = d + 1;
            }
            assert(days_events(job@, tables@, x@, first as int, d - first, *now, *end)
                == days_events(
                job@,
                tables@,
                x@,
                now.day_number as int,
                end.day_number - now.day_number + 1,
                *now,
                *end,
            ));
        },
    }
}

/// The runs of the jobs between `now` and `end`, job after job; each
/// job's runs day by day, hour by hour, minute by minute in the order of
/// its fields; the local times of minutes read from `tables`.
pub fn timeline_events(
    jobs: &Vec<CronJob>,
    tables: &Vec<DayTable>,
    now: &LocalStamp,
    end: &LocalStamp,
) -> (r: Vec<TimelineEvent>)
    requires
        forall|j: int| 0 <= j < jobs@.len() ==> schedule_expandable(#[trigger] jobs@[j].schedule@),
    ensures
        r.deep_view() == jobs_events(jobs.deep_view(), tables@, jobs@.len() as int, *now, *end),
{
    let ghost jv = jobs.deep_view();
    let mut out: Vec<TimelineEvent> = Vec::new();
    let mut j: usize = 0;
    assert(out.deep_view() =~= Seq::<EventView>::empty());
    while j < jobs.len()
        invariant
            jv == jobs.deep_view(),
            j <= jobs@.len(),
            forall|i: int| 0 <= i < jobs@.len() ==> schedule_expandable(#[trigger] jobs@[i].schedule@),
            out.deep_view() == jobs_events(jv, tables@, j as int, *now, *end),
        decreases jobs@.len() - j,
    {
        assert(jv[j as int] == jobs@[j as int]@);
        push_job_events(&mut out, &jobs[j], tables, now, end);
        assert(out.deep_view() =~= jobs_events(jv, tables@, j + 1, *now, *end));
        j = j + 1;
    }
    out
}

/// The timeline between `now` and `end` with the local times of `tables`:
/// both ends as text, and every run sorted by time.
pub open spec fn timeline_spec(
    jobs: Seq<CronJobView>,
    hours: u32,
    now: LocalStamp,
    end: LocalStamp,
    tables: Seq<DayTable>,
) -> TimelineView {
    TimelineView {
        start: minute_text(now),
        end: minute_text(end),
        hours,
        events: sort_by_time(jobs_events(jobs, tables, jobs.len() as int, now, end)),
    }
}

/// The timeline of `jobs` from `now` to `end`, reading local times from
/// `tables`.
pub fn timeline_at(
    jobs: &Vec<CronJob>,
    hours: u32,
    now: &LocalStamp,
    end: &LocalStamp,
    tables: &Vec<DayTable>,
) -> (t: Timeline)
    requires
        forall|j: int| 0 <= j < jobs@.len() ==> schedule_expandable(#[trigger] jobs@[j].schedule@),
    ensures
        t@ == timeline_spec(jobs.deep_view(), hours, *now, *end, tables@),
{
    let raw = timeline_events(jobs, tables, now, end);
    let events = sort_events(raw);
    Timeline { start: format_minute(now), end: format_minute(end), hours, events }
}

/// Every moment in a day's table is the wall-clock time it is filed under
/// on that day.
pub open spec fn grid_consistent(t: DayTable) -> bool {
    forall|h: u32, m: u32|
        h < t.grid@.len() && m < row_of(t, h).len() ==> stamp_fits(
            #[trigger] row_of(t, h)[m as int],
            t.day_number as int,
            h,
            m,
        )
}

proof fn lemma_table_index_bound(tables: Seq<DayTable>, d: int)
    ensures
        table_index(tables, d) matches Some(k) ==> 0 <= k < tables.len() && tables[k].day_number
            == d,
    decreases tables.len(),
{
    if tables.len() > 0 && tables[0].day_number != d {
        lemma_table_index_bound(tables.drop_first(), d);
    }
}

proof fn lemma_tables_consistent(tables: Seq<DayTable>)
    requires
        forall|k: int| 0 <= k < tables.len() ==> grid_consistent(#[trigger] tables[k]),
    ensures
        tables_consistent(tables),
{
    assert forall|d: int, h: u32, m: u32| stamp_fits(#[trigger] resolved(tables, d, h, m), d, h, m) by {
        lemma_table_index_bound(tables, d);
        if let Some(k) = table_index(tables, d) {
            assert(grid_consistent(tables[k]));
        }
    }
}

/// A table has a row for each of the 24 hours, of 60 minutes each.
pub open spec fn grid_complete(t: DayTable) -> bool {
    &&& t.grid@.len() == 24
    &&& forall|h: u32| h < 24 ==> (#[trigger] row_of(t, h)).len() == 60
}

/// The local moments of every minute of day `d`.
fn day_grid(d: i32) -> (t: DayTable)
    ensures
        t.day_number == d,
        grid_consistent(t),
        grid_complete(t),
{
    let mut grid: Vec<Vec<Option<LocalStamp>>> = Vec::new();
    let mut h: u32 = 0;
    while h < 24
        invariant
            h <= 24,
            grid@.len() == h,
            forall|hh: int| 0 <= hh < grid@.len() ==> (#[trigger] grid@[hh])@.len() == 60,
            forall|hh: u32, m: u32|
                hh < grid@.len() && m < grid@[hh as int]@.len() ==> stamp_fits(
                    #[trigger] grid@[hh as int]@[m as int],
                    d as int,
                    hh,
                    m,
                ),
        decreases 24 - h,
    {
        let mut row: Vec<Option<LocalStamp>> = Vec::new();
        let mut m: u32 = 0;
        while m < 60
            invariant
                h < 24,
                m <= 60,
                row@.len() == m,
                forall|mm: u32| mm < row@.len() ==> stamp_fits(#[trigger] row@[mm as int], d as int, h, mm),
            decreases 60 - m,
        {
            row.push(resolve_local(d, h, m));
            m = m + 1;
        }
        let ghost old_grid = grid@;
        grid.push(row);
        assert forall|hh: u32, mm: u32|
            hh < grid@.len() && mm < grid@[hh as int]@.len() implies stamp_fits(
                #[trigger] grid@[hh as int]@[mm as int],
                d as int,
                hh,
                mm,
            ) by {
            if hh < h {
                assert(grid@[hh as int] == old_grid[hh as int]);
            }
        }
        assert forall|hh: int| 0 <= hh < grid@.len() implies (#[trigger] grid@[hh])@.len() == 60 by {
            if hh < h {
                assert(grid@[hh] == old_grid[hh]);
            }
        }
        h = h + 1;
    }
    let t = DayTable { day_number: d, grid };
    assert forall|hh: u32, m: u32|
        hh < t.grid@.len() && m < row_of(t, hh).len() implies stamp_fits(
            #[trigger] row_of(t, hh)[m as int],
            t.day_number as int,
            hh,
            m,
        ) by {
        assert(row_of(t, hh)[m as int] == t.grid@[hh as int]@[m as int]);
    }
    assert forall|hh: u32| hh < 24 implies (#[trigger] row_of(t, hh)).len() == 60 by {
        assert(row_of(t, hh) == t.grid@[hh as int]@);
    }
    t
}

/// Whether some expansion matches a calendar day.
pub open spec fn some_matches(exps: Seq<Option<ExpansionView>>, c: DayInfo) -> bool {
    exists|j: int| 0 <= j < exps.len() && matches_day(#[trigger] exps[j], c)
}

/// An expansion, if any, matches a calendar day.
pub open spec fn matches_day(e: Option<ExpansionView>, c: DayInfo) -> bool {
    match e {
        Some(x) => day_matches(x, c),
        None => false,
    }
}

/// The value of an expansion, if any.
pub open spec fn view_of(e: Option<Expansion>) -> Option<ExpansionView> {
    match e {
        Some(x) => Some(x@),
        None => None,
    }
}

/// The values of a list of expansions.
pub open spec fn exp_views(exps: Seq<Option<Expansion>>) -> Seq<Option<ExpansionView>> {
    Seq::new(exps.len(), |i: int| view_of(exps[i]))
}

/// What the schedule of each job expands to.
pub open spec fn job_expansions(jobs: Seq<CronJobView>) -> Seq<Option<ExpansionView>> {
    Seq::new(jobs.len(), |i: int| expansion_spec(jobs[i].schedule))
}

/// Whether some job's schedule matches a calendar day.
fn some_job_matches(exps: &Vec<Option<Expansion>>, c: &DayInfo) -> (r: bool)
    ensures
        r == some_matches(exp_views(exps@), *c),
{
    let ghost ev = exp_views(exps@);
    let mut j: usize = 0;
    while j < exps.len()
        invariant
            j <= exps@.len(),
            ev == exp_views(exps@),
            forall|i: int| 0 <= i < j ==> !matches_day(#[trigger] ev[i], *c),
        decreases exps@.len() - j,
    {
        assert(ev[j as int] == view_of(exps@[j as int]));
        match &exps[j] {
            Some(x) => {
                if vec_has(&x.months, c.month) && vec_has(&x.doms, c.day) && vec_has(
                    &x.dows,
                    c.weekday,
                ) {
                    assert(matches_day(ev[j as int], *c));
                    return true;
                }
            },
            None => {},
        }
        j = j + 1;
    }
    false
}

/// Tables of local moments for the days from `first` to `last` on which
/// some job may run: one table per such day, in order, each with a row of
/// 60 minutes for each of the 24 hours.
fn day_tables(exps: &Vec<Option<Expansion>>, first: i32, last: i32) -> (t: Vec<DayTable>)
    ensures
        t@.len() == wanted_days(exp_views(exps@), first as int, last - first + 1).len(),
        forall|k: int|
            0 <= k < t@.len() ==> (#[trigger] t@[k]).day_number == wanted_days(
                exp_views(exps@),
                first as int,
                last - first + 1,
            )[k],
        forall|k: int| 0 <= k < t@.len() ==> grid_consistent(#[trigger] t@[k]),
        forall|k: int| 0 <= k < t@.len() ==> grid_complete(#[trigger] t@[k]),
{
    let mut tables: Vec<DayTable> = Vec::new();
    let mut d: i64 = first as i64;
    proof {
        if last < first {
            assert(wanted_days(exp_views(exps@), first as int, last - first + 1) =~= Seq::<int>::empty());
        }
    }
    while d <= last as i64
        invariant
            first as i64 <= d,
            d <= last as i64 + 1 || d == first as i64,
            tables@.len() == wanted_days(exp_views(exps@), first as int, d - first).len(),
            forall|k: int|
                0 <= k < tables@.len() ==> (#[trigger] tables@[k]).day_number == wanted_days(
                    exp_views(exps@),
                    first as int,
                    d - first,
                )[k],
            forall|k: int| 0 <= k < tables@.len() ==> grid_consistent(#[trigger] tables@[k]),
            forall|k: int| 0 <= k < tables@.len() ==> grid_complete(#[trigger] tables@[k]),
        decreases last as i64 + 1 - d,
    {
        let ghost old_t = tables@;
        let ghost wd = wanted_days(exp_views(exps@), first as int, d - first);
        match day_info(d as i32) {
            Some(c) => {
                if some_job_matches(exps, &c) {
                    let t = day_grid(d as i32);
                    tables.push(t);
                    assert(wanted_days(exp_views(exps@), first as int, d + 1 - first) == wd.push(d as int)) by {
                        assert(wd + seq![d as int] =~= wd.push(d as int));
                    }
                    assert forall|k: int| 0 <= k < tables@.len() implies grid_consistent(
                        #[trigger] tables@[k],
                    ) && grid_complete(tables@[k]) by {
                        if k < old_t.len() {
                            assert(tables@[k] == old_t[k]);
                        }
                    }
                    assert forall|k: int| 0 <= k < tables@.len() implies (
                    #[trigger] tables@[k]).day_number == wd.push(d as int)[k] by {
                        if k < old_t.len() {
                            assert(tables@[k] == old_t[k]);
                        }
                    }
                } else {
                    assert(wanted_days(exp_views(exps@), first as int, d + 1 - first) =~= wd);
                }
            },
            None => {
                assert(wanted_days(exp_views(exps@), first as int, d + 1 - first) =~= wd);
            },
        }
        d = d + 1;
    }
    tables
}

/// What holds of the end of a span of `hours` hours from `now`: it is the
/// local time `hours` hours later, to the nanosecond.
pub open spec fn end_basis(now: LocalStamp, end: LocalStamp, hours: u32) -> bool {
    &&& stamp_valid(end)
    &&& stamp_on_its_day(end)
    &&& end.timestamp == now.timestamp + 3600 * hours
    &&& end.nanos == now.nanos
}

/// What holds of the moments a timeline was built from: `now` and `end`
/// are `hours` apart, and the tables hold what the local clock gave.
pub open spec fn timeline_basis(
    now: LocalStamp,
    end: LocalStamp,
    tables: Seq<DayTable>,
    hours: u32,
) -> bool {
    &&& stamp_valid(now)
    &&& stamp_on_its_day(now)
    &&& end_basis(now, end, hours)
    &&& tables_consistent(tables)
}

/// Whether the end of a span of `hours` hours from `now` can be
/// represented: it is `now` itself, or its timestamp fits an `i64` and
/// names a calendar moment.
pub open spec fn end_reachable(now: LocalStamp, hours: u32) -> bool {
    ||| hours == 0
    ||| {
        &&& now.timestamp + 3600 * hours <= i64::MAX
        &&& timestamp_on_calendar(now.timestamp + 3600 * hours, now.nanos)
    }
}

/// Whether the end of a span of `hours` hours from `now` lies inside the
/// calendar, with calendar days on both sides of its UTC day, so that any
/// zone's offset leaves its local date on the calendar.
pub open spec fn end_inside(now: LocalStamp, hours: u32) -> bool {
    ||| hours == 0
    ||| {
        &&& now.timestamp + 3600 * hours <= i64::MAX
        &&& timestamp_on_calendar(now.timestamp + 3600 * hours, now.nanos)
        &&& calendar_has_neighbours(utc_day(now.timestamp + 3600 * hours))
    }
}

/// What `local_now` promises of a reading of the clock.
pub open spec fn clock_reading(now: LocalStamp) -> bool {
    &&& stamp_valid(now)
    &&& stamp_on_its_day(now)
    &&& timestamp_on_calendar(now.timestamp as int, now.nanos)
    &&& now.timestamp >= 0
    &&& now.nanos < 1_000_000_000
}

/// The tables cover the days from `first` to `last` on which some job may
/// run: one table for each such day, in order, with every minute of its 24
/// hours.
pub open spec fn tables_cover(tables: Seq<DayTable>, jobs: Seq<CronJobView>, first: int, last: int) -> bool {
    let w = wanted_days(job_expansions(jobs), first, last - first + 1);
    &&& tables.len() == w.len()
    &&& forall|k: int| 0 <= k < tables.len() ==> (#[trigger] tables[k]).day_number == w[k]
    &&& forall|k: int| 0 <= k < tables.len() ==> grid_complete(#[trigger] tables[k])
}

/// The days from `first` on, among the first `k`, on which the calendar
/// has a day that some expansion matches, in order.
pub open spec fn wanted_days(exps: Seq<Option<ExpansionView>>, first: int, k: int) -> Seq<int>
    decreases k,
{
    if k <= 0 {
        Seq::empty()
    } else {
        let d = first + k - 1;
        wanted_days(exps, first, k - 1) + if day_wanted(exps, d) {
            seq![d]
        } else {
            Seq::empty()
        }
    }
}

/// The calendar has day `d`, and some expansion matches it.
pub open spec fn day_wanted(exps: Seq<Option<ExpansionView>>, d: int) -> bool {
    &&& i32::MIN <= d <= i32::MAX
    &&& match calendar_day(d as i32) {
        Some(c) => some_matches(exps, c),
        None => false,
    }
}

/// Builds the timeline of runs of `jobs` over the next `hours` hours from
/// the local moment `now`.  `None` when the end of that span cannot be
/// represented.
pub fn timeline_from(jobs: &Vec<CronJob>, hours: u32, now: &LocalStamp) -> (r: Option<Timeline>)
    requires
        forall|j: int| 0 <= j < jobs@.len() ==> schedule_expandable(#[trigger] jobs@[j].schedule@),
        stamp_valid(*now),
        stamp_on_its_day(*now),
    ensures
        r is Some ==> end_reachable(*now, hours),
        end_inside(*now, hours) ==> r is Some,
        r matches Some(t) ==> exists|end: LocalStamp, tables: Seq<DayTable>|
            end_basis(*now, end, hours) && tables_consistent(tables) && tables_cover(
                tables,
                jobs.deep_view(),
                now.day_number as int,
                end.day_number as int,
            ) && t@ == timeline_spec(jobs.deep_view(), hours, *now, end, tables),
{
    let span: i64 = (hours as i64) * 3600;
    let end_secs = match now.timestamp.checked_add(span) {
        Some(x) => x,
        None => return None,
    };
    // A span of no hours ends at `now` itself.
    let end = if hours == 0 {
        *now
    } else {
        match local_at_timestamp(end_secs, now.nanos) {
            Some(e) => e,
            None => return None,
        }
    };
    let ghost jv = jobs.deep_view();
    let mut exps: Vec<Option<Expansion>> = Vec::new();
    let mut j: usize = 0;
    while j < jobs.len()
        invariant
            j <= jobs@.len(),
            jv == jobs.deep_view(),
            exps@.len() == j,
            forall|i: int| 0 <= i < j ==> view_of(#[trigger] exps@[i]) == expansion_spec(jv[i].schedule),
            forall|i: int| 0 <= i < jobs@.len() ==> schedule_expandable(#[trigger] jobs@[i].schedule@),
        decreases jobs@.len() - j,
    {
        assert(schedule_expandable(jobs@[j as int].schedule@));
        assert(jv[j as int] == jobs@[j as int]@);
        let x = expand_schedule(jobs[j].schedule.as_str());
        let ghost before = exps@;
        exps.push(x);
        assert forall|i: int| 0 <= i < j + 1 implies view_of(#[trigger] exps@[i]) == expansion_spec(
            jv[i].schedule,
        ) by {
            if i < j {
                assert(exps@[i] == before[i]);
            }
        }
        j = j + 1;
    }
    assert(exp_views(exps@) =~= job_expansions(jv));
    let tables = day_tables(&exps, now.day_number, end.day_number);
    proof {
        lemma_tables_consistent(tables@);
    }
    let t = timeline_at(jobs, hours, now, &end, &tables);
    assert(end_basis(*now, end, hours) && tables_consistent(tables@) && tables_cover(
        tables@,
        jv,
        now.day_number as int,
        end.day_number as int,
    ));
    Some(t)
}

/// Builds the timeline of runs of `jobs` over the next `hours` hours from
/// the current local time.  `None` when the end of that span cannot be
/// represented; never for a span of no hours.
pub fn build_timeline(jobs: &Vec<CronJob>, hours: u32) -> (r: Option<Timeline>)
    requires
        forall|j: int| 0 <= j < jobs@.len() ==> schedule_expandable(#[trigger] jobs@[j].schedule@),
    ensures
        r matches Some(t) ==> exists|now: LocalStamp, end: LocalStamp, tables: Seq<DayTable>|
            clock_reading(now) && timeline_basis(now, end, tables, hours) && tables_cover(
                tables,
                jobs.deep_view(),
                now.day_number as int,
                end.day_number as int,
            ) && t@ == timeline_spec(jobs.deep_view(), hours, now, end, tables),
        hours == 0 ==> r is Some,
        r is None ==> exists|now: LocalStamp| clock_reading(now) && !end_inside(now, hours),
{
    let now = local_now();
    let r = timeline_from(jobs, hours, &now);
    proof {
        if r is Some {
            let t = r->0;
            let (end, tables) = choose|end: LocalStamp, tables: Seq<DayTable>|
                end_basis(now, end, hours) && tables_consistent(tables) && tables_cover(
                    tables,
                    jobs.deep_view(),
                    now.day_number as int,
                    end.day_number as int,
                ) && t@ == timeline_spec(jobs.deep_view(), hours, now, end, tables);
            assert(timeline_basis(now, end, tables, hours));
        } else {
            assert(clock_reading(now) && !end_inside(now, hours));
        }
    }
    r
}

proof fn lemma_bytes_lt_irreflexive(a: Seq<u8>)
    ensures
        !bytes_lt(a, a),
    decreases a.len(),
{
    if a.len() > 0 {
        lemma_bytes_lt_irreflexive(a.drop_first());
    }
}

proof fn lemma_bytes_lt_transitive(a: Seq<u8>, b: Seq<u8>, c: Seq<u8>)
    requires
        bytes_lt(a, b),
        bytes_lt(b, c),
    ensures
        bytes_lt(a, c),
    decreases a.len(),
{
    if a.len() > 0 && b.len() > 0 && c.len() > 0 && a[0] == b[0] && b[0] == c[0] {
        lemma_bytes_lt_transitive(a.drop_first(), b.drop_first(), c.drop_first());
    }
}

proof fn lemma_bytes_lt_total(a: Seq<u8>, b: Seq<u8>)
    ensures
        bytes_lt(a, b) || bytes_lt(b, a) || a == b,
    decreases a.len(),
{
    if a.len() > 0 && b.len() > 0 && a[0] == b[0] {
        lemma_bytes_lt_total(a.drop_first(), b.drop_first());
        if a.drop_first() == b.drop_first() {
            assert(a =~= seq![a[0]] + a.drop_first());
            assert(b =~= seq![b[0]] + b.drop_first());
        }
    } else if a.len() == 0 && b.len() == 0 {
        assert(a =~= b);
    }
}

/// No event comes after a later one.
pub open spec fn sorted_by_time(s: Seq<EventView>) -> bool {
    forall|i: int, j: int|
        0 <= i < j < s.len() ==> !bytes_lt(#[trigger] time_key(s[j]), #[trigger] time_key(s[i]))
}

proof fn lemma_insert_sorted(s: Seq<EventView>, x: EventView)
    requires
        sorted_by_time(s),
    ensures
        sorted_by_time(insert_sorted(s, x)),
        insert_sorted(s, x).to_multiset() == s.to_multiset().insert(x),
        insert_sorted(s, x).len() == s.len() + 1,
        forall|e: EventView| #[trigger] insert_sorted(s, x).contains(e) ==> s.contains(e) || e == x,
    decreases s.len(),
{
    broadcast use vstd::seq_lib::group_to_multiset_ensures;
    let r = insert_sorted(s, x);
    if s.len() == 0 {
        assert(r =~= seq![x]);
        assert(s.to_multiset() =~= vstd::multiset::Multiset::empty());
    } else if bytes_lt(time_key(x), time_key(s.last())) {
        let t = s.drop_last();
        assert(sorted_by_time(t));
        lemma_insert_sorted(t, x);
        let u = insert_sorted(t, x);
        assert(r == u.push(s.last()));
        assert forall|i: int, j: int| 0 <= i < j < r.len() implies !bytes_lt(
            #[trigger] time_key(r[j]),
            #[trigger] time_key(r[i]),
        ) by {
            if j == r.len() - 1 {
                // r[i] is x or an element of t, none after s.last()
                assert(u.contains(r[i]));
                if r[i] == x {
                    if bytes_lt(time_key(s.last()), time_key(x)) {
                        lemma_bytes_lt_transitive(time_key(x), time_key(s.last()), time_key(x));
                        lemma_bytes_lt_irreflexive(time_key(x));
                    }
                } else {
                    let k = choose|k: int| 0 <= k < t.len() && t[k] == r[i];
                    assert(s[k] == t[k]);
                }
            }
        }
        assert(s =~= t.push(s.last()));
        assert(s.to_multiset() == t.to_multiset().insert(s.last()));
        assert(r.to_multiset() == u.to_multiset().insert(s.last()));
        assert(r.to_multiset() =~= s.to_multiset().insert(x));
        assert forall|e: EventView| #[trigger] r.contains(e) implies s.contains(e) || e == x by {
            let k = choose|k: int| 0 <= k < r.len() && r[k] == e;
            if k < u.len() {
                assert(u.contains(e));
                if e != x {
                    let k2 = choose|k2: int| 0 <= k2 < t.len() && t[k2] == e;
                    assert(s[k2] == e);
                }
            } else {
                assert(s[s.len() - 1] == e);
            }
        }
    } else {
        assert(r == s.push(x));
        assert forall|i: int, j: int| 0 <= i < j < r.len() implies !bytes_lt(
            #[trigger] time_key(r[j]),
            #[trigger] time_key(r[i]),
        ) by {
            if j == r.len() - 1 && i < s.len() - 1 {
                // x is not before s.last(), which is not before s[i]
                if bytes_lt(time_key(x), time_key(s[i])) {
                    lemma_bytes_lt_total(time_key(x), time_key(s.last()));
                    if bytes_lt(time_key(s.last()), time_key(x)) {
                        lemma_bytes_lt_transitive(time_key(s.last()), time_key(x), time_key(s[i]));
                    }
                }
            }
        }
        assert forall|e: EventView| #[trigger] r.contains(e) implies s.contains(e) || e == x by {
            let k = choose|k: int| 0 <= k < r.len() && r[k] == e;
            if k < s.len() {
                assert(s[k] == e);
            }
        }
    }
}

/// Sorting by time yields events in time order, and the same events
/// (as a multiset) as were sorted.
pub proof fn lemma_sort_by_time(s: Seq<EventView>)
    ensures
        sorted_by_time(sort_by_time(s)),
        sort_by_time(s).to_multiset() == s.to_multiset(),
        sort_by_time(s).len() == s.len(),
        forall|e: EventView| #[trigger] sort_by_time(s).contains(e) ==> s.contains(e),
    decreases s.len(),
{
    broadcast use vstd::seq_lib::group_to_multiset_ensures;
    if s.len() == 0 {
        assert(s.to_multiset() =~= vstd::multiset::Multiset::empty());
        assert(sort_by_time(s).to_multiset() =~= vstd::multiset::Multiset::empty());
    } else {
        let t = s.drop_last();
        lemma_sort_by_time(t);
        lemma_insert_sorted(sort_by_time(t), s.last());
        assert(s =~= t.push(s.last()));
        assert forall|e: EventView| #[trigger] sort_by_time(s).contains(e) implies s.contains(e) by {
            if e != s.last() {
                assert(sort_by_time(t).contains(e));
                let k = choose|k: int| 0 <= k < t.len() && t[k] == e;
                assert(s[k] == e);
            } else {
                assert(s[s.len() - 1] == e);
            }
        }
    }
}


/// `e` is a run of `job` at a moment from `now` up to `end`.
pub open spec fn is_run_of(job: CronJobView, now: LocalStamp, end: LocalStamp, e: EventView) -> bool {
    exists|t: LocalStamp| in_window(t, now, end) && e == event_of(job, t)
}

/// Every element of `s` is a run of `job` in the window.
pub open spec fn all_runs_of(job: CronJobView, now: LocalStamp, end: LocalStamp, s: Seq<EventView>) -> bool {
    forall|i: int| 0 <= i < s.len() ==> is_run_of(job, now, end, #[trigger] s[i])
}

proof fn lemma_all_runs_concat(job: CronJobView, now: LocalStamp, end: LocalStamp, a: Seq<EventView>, b: Seq<EventView>)
    requires
        all_runs_of(job, now, end, a),
        all_runs_of(job, now, end, b),
    ensures
        all_runs_of(job, now, end, a + b),
{
    assert forall|i: int| 0 <= i < (a + b).len() implies is_run_of(job, now, end, #[trigger] (a + b)[i]) by {
        if i < a.len() {
            assert((a + b)[i] == a[i]);
        } else {
            assert((a + b)[i] == b[i - a.len()]);
        }
    }
}

proof fn lemma_minute_runs(
    job: CronJobView,
    tables: Seq<DayTable>,
    d: int,
    h: u32,
    mins: Seq<u32>,
    k: int,
    now: LocalStamp,
    end: LocalStamp,
)
    ensures
        all_runs_of(job, now, end, minute_events(job, tables, d, h, mins, k, now, end)),
    decreases k,
{
    if k > 0 && k <= mins.len() {
        lemma_minute_runs(job, tables, d, h, mins, k - 1, now, end);
        let m = mins[k - 1];
        let last: Seq<EventView> = if h < 24 && m < 60 {
            match resolved(tables, d, h, m) {
                Some(t) => if in_window(t, now, end) {
                    seq![event_of(job, t)]
                } else {
                    Seq::empty()
                },
                None => Seq::empty(),
            }
        } else {
            Seq::empty()
        };
        assert(all_runs_of(job, now, end, last)) by {
            if last.len() > 0 {
                let t = resolved(tables, d, h, m)->0;
                assert(last[0] == event_of(job, t));
            }
        }
        lemma_all_runs_concat(job, now, end, minute_events(job, tables, d, h, mins, k - 1, now, end), last);
    }
}

proof fn lemma_hour_runs(
    job: CronJobView,
    tables: Seq<DayTable>,
    x: ExpansionView,
    d: int,
    k: int,
    now: LocalStamp,
    end: LocalStamp,
)
    ensures
        all_runs_of(job, now, end, hour_events(job, tables, x, d, k, now, end)),
    decreases k,
{
    if k > 0 && k <= x.hours.len() {
        lemma_hour_runs(job, tables, x, d, k - 1, now, end);
        lemma_minute_runs(job, tables, d, x.hours[k - 1], x.minutes, x.minutes.len() as int, now, end);
        lemma_all_runs_concat(
            job,
            now,
            end,
            hour_events(job, tables, x, d, k - 1, now, end),
            minute_events(job, tables, d, x.hours[k - 1], x.minutes, x.minutes.len() as int, now, end),
        );
    }
}

proof fn lemma_days_runs(
    job: CronJobView,
    tables: Seq<DayTable>,
    x: ExpansionView,
    first: int,
    k: int,
    now: LocalStamp,
    end: LocalStamp,
)
    ensures
        all_runs_of(job, now, end, days_events(job, tables, x, first, k, now, end)),
    decreases k,
{
    if k > 0 {
        lemma_days_runs(job, tables, x, first, k - 1, now, end);
        let d = first + k - 1;
        lemma_hour_runs(job, tables, x, d, x.hours.len() as int, now, end);
        assert(all_runs_of(job, now, end, day_events(job, tables, x, d, now, end)));
        lemma_all_runs_concat(
            job,
            now,
            end,
            days_events(job, tables, x, first, k - 1, now, end),
            day_events(job, tables, x, d, now, end),
        );
    }
}

/// `e` is a run of one of `jobs` at a moment from `now` up to `end`.
pub open spec fn is_run(jobs: Seq<CronJobView>, now: LocalStamp, end: LocalStamp, e: EventView) -> bool {
    exists|j: int| 0 <= j < jobs.len() && #[trigger] is_run_of(jobs[j], now, end, e)
}

proof fn lemma_jobs_runs(
    jobs: Seq<CronJobView>,
    tables: Seq<DayTable>,
    k: int,
    now: LocalStamp,
    end: LocalStamp,
)
    ensures
        forall|i: int|
            0 <= i < jobs_events(jobs, tables, k, now, end).len() ==> is_run(
                jobs,
                now,
                end,
                #[trigger] jobs_events(jobs, tables, k, now, end)[i],
            ),
    decreases k,
{
    if k > 0 && k <= jobs.len() {
        lemma_jobs_runs(jobs, tables, k - 1, now, end);
        let job = jobs[k - 1];
        let a = jobs_events(jobs, tables, k - 1, now, end);
        let b = job_events(job, tables, now, end);
        assert(all_runs_of(job, now, end, b)) by {
            match expansion_spec(job.schedule) {
                Some(x) => lemma_days_runs(
                    job,
                    tables,
                    x,
                    now.day_number as int,
                    end.day_number - now.day_number + 1,
                    now,
                    end,
                ),
                None => {},
            }
        }
        assert forall|i: int| 0 <= i < (a + b).len() implies is_run(jobs, now, end, #[trigger] (a + b)[i]) by {
            if i < a.len() {
                assert((a + b)[i] == a[i]);
            } else {
                assert((a + b)[i] == b[i - a.len()]);
                assert(is_run_of(jobs[k - 1], now, end, b[i - a.len()]));
            }
        }
    }
}

/// The runs on a timeline are in time order, and each is a run of one of
/// the jobs at a moment from the start up to the end of the span.
pub proof fn lemma_timeline_runs(
    jobs: Seq<CronJobView>,
    hours: u32,
    now: LocalStamp,
    end: LocalStamp,
    tables: Seq<DayTable>,
)
    ensures
        sorted_by_time(timeline_spec(jobs, hours, now, end, tables).events),
        forall|e: EventView|
            #[trigger] timeline_spec(jobs, hours, now, end, tables).events.contains(e) ==> is_run(
                jobs,
                now,
                end,
                e,
            ),
{
    let raw = jobs_events(jobs, tables, jobs.len() as int, now, end);
    lemma_sort_by_time(raw);
    lemma_jobs_runs(jobs, tables, jobs.len() as int, now, end);
    assert forall|e: EventView| #[trigger] timeline_spec(jobs, hours, now, end, tables).events.contains(e) implies is_run(
        jobs,
        now,
        end,
        e,
    ) by {
        assert(sort_by_time(raw).contains(e));
        let k = choose|k: int| 0 <= k < raw.len() && raw[k] == e;
        assert(is_run(jobs, now, end, raw[k]));
    }
}

/// Whether a schedule fires at a local moment: the moment's minute, hour,
/// day of month and month are among the values its fields expand to, and
/// so is the weekday (Sunday is 0) of the calendar day the moment is on.
pub open spec fn fires_at(schedule: Seq<char>, t: LocalStamp) -> bool {
    match expansion_spec(schedule) {
        Some(x) => match calendar_day(t.day_number) {
            Some(c) => {
                &&& x.minutes.contains(t.minute)
                &&& x.hours.contains(t.hour)
                &&& x.doms.contains(t.day)
                &&& x.months.contains(t.month)
                &&& x.dows.contains(c.weekday)
            },
            None => false,
        },
        None => false,
    }
}

/// `e` is the run of `job` at a moment from `now` up to `end` at which the
/// job's schedule fires.
pub open spec fn fired_run(job: CronJobView, now: LocalStamp, end: LocalStamp, e: EventView) -> bool {
    exists|t: LocalStamp| in_window(t, now, end) && e == event_of(job, t) && fires_at(job.schedule, t)
}

/// `e` is a fired run of one of `jobs`.
pub open spec fn fired_by_some(jobs: Seq<CronJobView>, now: LocalStamp, end: LocalStamp, e: EventView) -> bool {
    exists|j: int| 0 <= j < jobs.len() && #[trigger] fired_run(jobs[j], now, end, e)
}

/// Every element of `s` satisfies `p`.
pub open spec fn all_events(s: Seq<EventView>, p: spec_fn(EventView) -> bool) -> bool {
    forall|i: int| 0 <= i < s.len() ==> p(#[trigger] s[i])
}

proof fn lemma_all_events_concat(a: Seq<EventView>, b: Seq<EventView>, p: spec_fn(EventView) -> bool)
    requires
        all_events(a, p),
        all_events(b, p),
    ensures
        all_events(a + b, p),
{
    assert forall|i: int| 0 <= i < (a + b).len() implies p(#[trigger] (a + b)[i]) by {
        if i < a.len() {
            assert((a + b)[i] == a[i]);
        } else {
            assert((a + b)[i] == b[i - a.len()]);
        }
    }
}

/// A run at hour `h` of day `d` at one of the minutes `mins`.
pub open spec fn minute_run(
    job: CronJobView,
    now: LocalStamp,
    end: LocalStamp,
    d: int,
    h: u32,
    mins: Seq<u32>,
    e: EventView,
) -> bool {
    exists|t: LocalStamp|
        in_window(t, now, end) && e == event_of(job, t) && t.day_number == d && t.hour == h
            && mins.contains(t.minute) && stamp_on_its_day(t)
}

/// A run on day `d` at one of the hours and minutes of `x`.
pub open spec fn hour_run(
    job: CronJobView,
    now: LocalStamp,
    end: LocalStamp,
    x: ExpansionView,
    d: int,
    e: EventView,
) -> bool {
    exists|t: LocalStamp|
        in_window(t, now, end) && e == event_of(job, t) && t.day_number == d && x.hours.contains(
            t.hour,
        ) && x.minutes.contains(t.minute) && stamp_on_its_day(t)
}

/// A run at a moment at which `x` fires.
pub open spec fn expansion_run(
    job: CronJobView,
    now: LocalStamp,
    end: LocalStamp,
    x: ExpansionView,
    e: EventView,
) -> bool {
    exists|t: LocalStamp|
        in_window(t, now, end) && e == event_of(job, t) && match calendar_day(t.day_number) {
            Some(c) => {
                &&& x.minutes.contains(t.minute)
                &&& x.hours.contains(t.hour)
                &&& x.doms.contains(t.day)
                &&& x.months.contains(t.month)
                &&& x.dows.contains(c.weekday)
            },
            None => false,
        }
}

proof fn lemma_minute_fires(
    job: CronJobView,
    tables: Seq<DayTable>,
    d: int,
    h: u32,
    mins: Seq<u32>,
    k: int,
    now: LocalStamp,
    end: LocalStamp,
)
    requires
        tables_consistent(tables),
        k <= mins.len(),
    ensures
        all_events(
            minute_events(job, tables, d, h, mins, k, now, end),
            |e: EventView| minute_run(job, now, end, d, h, mins, e),
        ),
    decreases k,
{
    let p = |e: EventView| minute_run(job, now, end, d, h, mins, e);
    if k > 0 {
        lemma_minute_fires(job, tables, d, h, mins, k - 1, now, end);
        let m = mins[k - 1];
        let last: Seq<EventView> = if h < 24 && m < 60 {
            match resolved(tables, d, h, m) {
                Some(t) => if in_window(t, now, end) {
                    seq![event_of(job, t)]
                } else {
                    Seq::empty()
                },
                None => Seq::empty(),
            }
        } else {
            Seq::empty()
        };
        assert(all_events(last, p)) by {
            if last.len() > 0 {
                let t = resolved(tables, d, h, m)->0;
                assert(stamp_fits(resolved(tables, d, h, m), d, h, m));
                assert(mins.contains(m));
                assert(last[0] == event_of(job, t));
                assert(minute_run(job, now, end, d, h, mins, last[0]));
            }
        }
        lemma_all_events_concat(minute_events(job, tables, d, h, mins, k - 1, now, end), last, p);
        assert(minute_events(job, tables, d, h, mins, k, now, end) == minute_events(
            job,
            tables,
            d,
            h,
            mins,
            k - 1,
            now,
            end,
        ) + last);
    }
}

proof fn lemma_hour_fires(
    job: CronJobView,
    tables: Seq<DayTable>,
    x: ExpansionView,
    d: int,
    k: int,
    now: LocalStamp,
    end: LocalStamp,
)
    requires
        tables_consistent(tables),
        k <= x.hours.len(),
    ensures
        all_events(
            hour_events(job, tables, x, d, k, now, end),
            |e: EventView| hour_run(job, now, end, x, d, e),
        ),
    decreases k,
{
    let p = |e: EventView| hour_run(job, now, end, x, d, e);
    if k > 0 {
        lemma_hour_fires(job, tables, x, d, k - 1, now, end);
        let h = x.hours[k - 1];
        let mev = minute_events(job, tables, d, h, x.minutes, x.minutes.len() as int, now, end);
        lemma_minute_fires(job, tables, d, h, x.minutes, x.minutes.len() as int, now, end);
        assert(all_events(mev, p)) by {
            assert forall|i: int| 0 <= i < mev.len() implies p(#[trigger] mev[i]) by {
                assert(minute_run(job, now, end, d, h, x.minutes, mev[i]));
                let t = choose|t: LocalStamp|
                    in_window(t, now, end) && mev[i] == event_of(job, t) && t.day_number == d
                        && t.hour == h && x.minutes.contains(t.minute) && stamp_on_its_day(t);
                assert(x.hours.contains(t.hour));
                assert(hour_run(job, now, end, x, d, mev[i]));
            }
        }
        lemma_all_events_concat(hour_events(job, tables, x, d, k - 1, now, end), mev, p);
    }
}

proof fn lemma_days_fire(
    job: CronJobView,
    tables: Seq<DayTable>,
    x: ExpansionView,
    first: int,
    k: int,
    now: LocalStamp,
    end: LocalStamp,
)
    requires
        tables_consistent(tables),
    ensures
        all_events(
            days_events(job, tables, x, first, k, now, end),
            |e: EventView| expansion_run(job, now, end, x, e),
        ),
    decreases k,
{
    let p = |e: EventView| expansion_run(job, now, end, x, e);
    if k > 0 {
        lemma_days_fire(job, tables, x, first, k - 1, now, end);
        let d = first + k - 1;
        let dev = day_events(job, tables, x, d, now, end);
        assert(all_events(dev, p)) by {
            if let Some(c) = calendar_day(d as i32) {
                if day_matches(x, c) {
                    let hev = hour_events(job, tables, x, d, x.hours.len() as int, now, end);
                    lemma_hour_fires(job, tables, x, d, x.hours.len() as int, now, end);
                    assert forall|i: int| 0 <= i < hev.len() implies p(#[trigger] hev[i]) by {
                        assert(hour_run(job, now, end, x, d, hev[i]));
                        let t = choose|t: LocalStamp|
                            in_window(t, now, end) && hev[i] == event_of(job, t) && t.day_number
                                == d && x.hours.contains(t.hour) && x.minutes.contains(t.minute)
                                && stamp_on_its_day(t);
                        assert(t.day_number as i32 == d as i32);
                        assert(calendar_day(t.day_number) == Some(c));
                        assert(expansion_run(job, now, end, x, hev[i]));
                    }
                }
            }
        }
        lemma_all_events_concat(days_events(job, tables, x, first, k - 1, now, end), dev, p);
    }
}

proof fn lemma_jobs_fire(
    jobs: Seq<CronJobView>,
    tables: Seq<DayTable>,
    k: int,
    now: LocalStamp,
    end: LocalStamp,
)
    requires
        tables_consistent(tables),
    ensures
        forall|i: int|
            0 <= i < jobs_events(jobs, tables, k, now, end).len() ==> fired_by_some(
                jobs,
                now,
                end,
                #[trigger] jobs_events(jobs, tables, k, now, end)[i],
            ),
    decreases k,
{
    if k > 0 && k <= jobs.len() {
        lemma_jobs_fire(jobs, tables, k - 1, now, end);
        let job = jobs[k - 1];
        let a = jobs_events(jobs, tables, k - 1, now, end);
        let b = job_events(job, tables, now, end);
        assert(jobs_events(jobs, tables, k, now, end) == a + b);
        if let Some(x) = expansion_spec(job.schedule) {
            lemma_days_fire(
                job,
                tables,
                x,
                now.day_number as int,
                end.day_number - now.day_number + 1,
                now,
                end,
            );
        }
        assert forall|i: int| 0 <= i < (a + b).len() implies fired_by_some(
            jobs,
            now,
            end,
            #[trigger] (a + b)[i],
        ) by {
            if i < a.len() {
                assert((a + b)[i] == a[i]);
                assert(fired_by_some(jobs, now, end, a[i]));
            } else {
                let e = b[i - a.len()];
                assert((a + b)[i] == e);
                let x = expansion_spec(job.schedule)->0;
                assert(expansion_run(job, now, end, x, e));
                let t = choose|t: LocalStamp|
                    in_window(t, now, end) && e == event_of(job, t) && match calendar_day(
                        t.day_number,
                    ) {
                        Some(c) => {
                            &&& x.minutes.contains(t.minute)
                            &&& x.hours.contains(t.hour)
                            &&& x.doms.contains(t.day)
                            &&& x.months.contains(t.month)
                            &&& x.dows.contains(c.weekday)
                        },
                        None => false,
                    };
                assert(fires_at(job.schedule, t));
                assert(fired_run(jobs[k - 1], now, end, e));
            }
        }
    }
}

/// Every run on a timeline whose tables hold what the local clock gives
/// is at a moment in the span at which its job's schedule fires: the
/// moment's minute, hour, day of month and month are among the values of
/// the schedule's fields, and so is the weekday of its day (Sunday is 0).
/// A Monday-to-Friday job has no run on a Saturday or a Sunday.
pub proof fn lemma_timeline_runs_fire(
    jobs: Seq<CronJobView>,
    hours: u32,
    now: LocalStamp,
    end: LocalStamp,
    tables: Seq<DayTable>,
)
    requires
        tables_consistent(tables),
    ensures
        forall|e: EventView|
            #[trigger] timeline_spec(jobs, hours, now, end, tables).events.contains(e)
                ==> fired_by_some(jobs, now, end, e),
{
    let raw = jobs_events(jobs, tables, jobs.len() as int, now, end);
    lemma_sort_by_time(raw);
    lemma_jobs_fire(jobs, tables, jobs.len() as int, now, end);
    assert forall|e: EventView| #[trigger] timeline_spec(jobs, hours, now, end, tables).events.contains(
        e,
    ) implies fired_by_some(jobs, now, end, e) by {
        assert(sort_by_time(raw).contains(e));
        let k = choose|k: int| 0 <= k < raw.len() && raw[k] == e;
        assert(fired_by_some(jobs, now, end, raw[k]));
    }
}

proof fn lemma_minute_complete(
    job: CronJobView,
    tables: Seq<DayTable>,
    d: int,
    h: u32,
    mins: Seq<u32>,
    k: int,
    now: LocalStamp,
    end: LocalStamp,
    idx: int,
    t: LocalStamp,
)
    requires
        0 <= idx < k <= mins.len(),
        h < 24,
        mins[idx] < 60,
        resolved(tables, d, h, mins[idx]) == Some(t),
        in_window(t, now, end),
    ensures
        minute_events(job, tables, d, h, mins, k, now, end).contains(event_of(job, t)),
    decreases k,
{
    let a = minute_events(job, tables, d, h, mins, k - 1, now, end);
    let r = minute_events(job, tables, d, h, mins, k, now, end);
    if idx == k - 1 {
        assert(r == a + seq![event_of(job, t)]);
        assert(r[a.len() as int] == event_of(job, t));
    } else {
        lemma_minute_complete(job, tables, d, h, mins, k - 1, now, end, idx, t);
        let i = choose|i: int| 0 <= i < a.len() && a[i] == event_of(job, t);
        assert(r.subrange(0, a.len() as int) =~= a);
        assert(r[i] == a[i]);
    }
}

proof fn lemma_hour_complete(
    job: CronJobView,
    tables: Seq<DayTable>,
    x: ExpansionView,
    d: int,
    k: int,
    now: LocalStamp,
    end: LocalStamp,
    hidx: int,
    midx: int,
    t: LocalStamp,
)
    requires
        0 <= hidx < k <= x.hours.len(),
        0 <= midx < x.minutes.len(),
        x.hours[hidx] < 24,
        x.minutes[midx] < 60,
        resolved(tables, d, x.hours[hidx], x.minutes[midx]) == Some(t),
        in_window(t, now, end),
    ensures
        hour_events(job, tables, x, d, k, now, end).contains(event_of(job, t)),
    decreases k,
{
    let a = hour_events(job, tables, x, d, k - 1, now, end);
    let b = minute_events(job, tables, d, x.hours[k - 1], x.minutes, x.minutes.len() as int, now, end);
    assert(hour_events(job, tables, x, d, k, now, end) == a + b);
    if hidx == k - 1 {
        lemma_minute_complete(
            job,
            tables,
            d,
            x.hours[hidx],
            x.minutes,
            x.minutes.len() as int,
            now,
            end,
            midx,
            t,
        );
        let i = choose|i: int| 0 <= i < b.len() && b[i] == event_of(job, t);
        assert((a + b)[a.len() + i] == b[i]);
    } else {
        lemma_hour_complete(job, tables, x, d, k - 1, now, end, hidx, midx, t);
        let i = choose|i: int| 0 <= i < a.len() && a[i] == event_of(job, t);
        assert((a + b)[i] == a[i]);
    }
}

proof fn lemma_days_complete(
    job: CronJobView,
    tables: Seq<DayTable>,
    x: ExpansionView,
    first: int,
    k: int,
    now: LocalStamp,
    end: LocalStamp,
    d: int,
    hidx: int,
    midx: int,
    t: LocalStamp,
    c: DayInfo,
)
    requires
        first <= d < first + k,
        i32::MIN <= d <= i32::MAX,
        calendar_day(d as i32) == Some(c),
        day_matches(x, c),
        0 <= hidx < x.hours.len(),
        0 <= midx < x.minutes.len(),
        x.hours[hidx] < 24,
        x.minutes[midx] < 60,
        resolved(tables, d, x.hours[hidx], x.minutes[midx]) == Some(t),
        in_window(t, now, end),
    ensures
        days_events(job, tables, x, first, k, now, end).contains(event_of(job, t)),
    decreases k,
{
    let a = days_events(job, tables, x, first, k - 1, now, end);
    let b = day_events(job, tables, x, first + k - 1, now, end);
    assert(days_events(job, tables, x, first, k, now, end) == a + b);
    if d == first + k - 1 {
        lemma_hour_complete(job, tables, x, d, x.hours.len() as int, now, end, hidx, midx, t);
        assert(b == hour_events(job, tables, x, d, x.hours.len() as int, now, end));
        let i = choose|i: int| 0 <= i < b.len() && b[i] == event_of(job, t);
        assert((a + b)[a.len() + i] == b[i]);
    } else {
        lemma_days_complete(job, tables, x, first, k - 1, now, end, d, hidx, midx, t, c);
        let i = choose|i: int| 0 <= i < a.len() && a[i] == event_of(job, t);
        assert((a + b)[i] == a[i]);
    }
}

proof fn lemma_jobs_complete(
    jobs: Seq<CronJobView>,
    tables: Seq<DayTable>,
    k: int,
    now: LocalStamp,
    end: LocalStamp,
    j: int,
    e: EventView,
)
    requires
        0 <= j < k <= jobs.len(),
        job_events(jobs[j], tables, now, end).contains(e),
    ensures
        jobs_events(jobs, tables, k, now, end).contains(e),
    decreases k,
{
    let a = jobs_events(jobs, tables, k - 1, now, end);
    let b = job_events(jobs[k - 1], tables, now, end);
    assert(jobs_events(jobs, tables, k, now, end) == a + b);
    if j == k - 1 {
        let i = choose|i: int| 0 <= i < b.len() && b[i] == e;
        assert((a + b)[a.len() + i] == b[i]);
    } else {
        lemma_jobs_complete(jobs, tables, k - 1, now, end, j, e);
        let i = choose|i: int| 0 <= i < a.len() && a[i] == e;
        assert((a + b)[i] == a[i]);
    }
}

/// Every moment from `now` up to `end`, on a day from that of `now` to
/// that of `end`, at which a job's schedule fires and that the tables
/// record as the local time of its day, hour and minute, is on the
/// timeline as a run of that job.
pub proof fn lemma_timeline_complete(
    jobs: Seq<CronJobView>,
    hours: u32,
    now: LocalStamp,
    end: LocalStamp,
    tables: Seq<DayTable>,
    j: int,
    t: LocalStamp,
)
    requires
        tables_consistent(tables),
        0 <= j < jobs.len(),
        fires_at(jobs[j].schedule, t),
        in_window(t, now, end),
        now.day_number <= t.day_number <= end.day_number,
        resolved(tables, t.day_number as int, t.hour, t.minute) == Some(t),
    ensures
        timeline_spec(jobs, hours, now, end, tables).events.contains(event_of(jobs[j], t)),
{
    broadcast use vstd::seq_lib::group_to_multiset_ensures;
    let job = jobs[j];
    let x = expansion_spec(job.schedule)->0;
    let c = calendar_day(t.day_number)->0;
    let d = t.day_number as int;
    assert(stamp_fits(resolved(tables, d, t.hour, t.minute), d, t.hour, t.minute));
    let hidx = choose|i: int| 0 <= i < x.hours.len() && x.hours[i] == t.hour;
    let midx = choose|i: int| 0 <= i < x.minutes.len() && x.minutes[i] == t.minute;
    assert(day_matches(x, c));
    lemma_days_complete(
        job,
        tables,
        x,
        now.day_number as int,
        end.day_number - now.day_number + 1,
        now,
        end,
        d,
        hidx,
        midx,
        t,
        c,
    );
    assert(job_events(job, tables, now, end).contains(event_of(job, t)));
    lemma_jobs_complete(jobs, tables, jobs.len() as int, now, end, j, event_of(job, t));
    let raw = jobs_events(jobs, tables, jobs.len() as int, now, end);
    lemma_sort_by_time(raw);
    assert(raw.to_multiset().count(event_of(job, t)) > 0);
    assert(sort_by_time(raw).to_multiset().count(event_of(job, t)) > 0);
}

/// A timeline of no jobs has no runs.
pub proof fn lemma_timeline_no_jobs(hours: u32, now: LocalStamp, end: LocalStamp, tables: Seq<DayTable>)
    ensures
        timeline_spec(Seq::empty(), hours, now, end, tables).events.len() == 0,
{
}


/// `lo..=hi` has `hi - lo + 1` values, each between `lo` and `hi`, in
/// increasing order.
pub proof fn lemma_range_seq(lo: int, hi: int)
    requires
        0 <= lo,
        hi <= u32::MAX,
    ensures
        lo <= hi + 1 ==> range_seq(lo, hi).len() == hi - lo + 1,
        forall|i: int| 0 <= i < range_seq(lo, hi).len() ==> #[trigger] range_seq(lo, hi)[i] == lo + i,
    decreases hi - lo + 1,
{
    if lo <= hi {
        lemma_range_seq(lo + 1, hi);
        assert forall|i: int| 0 <= i < range_seq(lo, hi).len() implies #[trigger] range_seq(lo, hi)[i]
            == lo + i by {
            if i > 0 {
                assert(range_seq(lo, hi)[i] == range_seq(lo + 1, hi)[i - 1]);
            }
        }
    }
}

/// The values of a step piece lie between `lo` and `hi`.
pub proof fn lemma_step_seq_bounds(v: int, hi: int, s: int)
    requires
        0 <= v,
        hi <= u32::MAX,
    ensures
        forall|i: int| 0 <= i < step_seq(v, hi, s).len() ==> v <= #[trigger] step_seq(v, hi, s)[i] <= hi,
    decreases hi - v + s,
{
    if v <= hi && s > 0 {
        lemma_step_seq_bounds(v + s, hi, s);
        assert forall|i: int| 0 <= i < step_seq(v, hi, s).len() implies v <= #[trigger] step_seq(v, hi, s)[i] <= hi by {
            if i > 0 {
                assert(step_seq(v, hi, s)[i] == step_seq(v + s, hi, s)[i - 1]);
            }
        }
    }
}

/// A field with a `*` piece matches every value from `lo` to `hi`.
pub proof fn lemma_star_matches_all(field: Seq<char>, lo: u32, hi: u32)
    requires
        split_char(field, ',').contains("*"@),
        lo <= hi,
    ensures
        expand_spec(field, lo, hi).len() == hi - lo + 1,
        forall|v: u32| lo <= v <= hi ==> expand_spec(field, lo, hi).contains(v),
{
    lemma_range_seq(lo as int, hi as int);
    assert forall|v: u32| lo <= v <= hi implies expand_spec(field, lo, hi).contains(v) by {
        assert(range_seq(lo as int, hi as int)[v - lo] == v);
    }
}

/// An expanded field holds each value once, and holds exactly the values
/// of its pieces (all from `lo` to `hi` when a piece is `*`).
pub proof fn lemma_expansion_is_a_set(field: Seq<char>, lo: u32, hi: u32)
    ensures
        expand_spec(field, lo, hi).no_duplicates(),
        expand_dow_spec(field).no_duplicates(),
        !split_char(field, ',').contains("*"@) ==> forall|x: u32|
            #[trigger] expand_spec(field, lo, hi).contains(x) <==> concat_values(
                split_char(field, ','),
                lo,
                hi,
            ).contains(x),
{
    let parts = split_char(field, ',');
    lemma_distinct(concat_values(parts, lo, hi));
    lemma_distinct(concat_dow_values(parts));
    lemma_range_seq(lo as int, hi as int);
    lemma_range_seq(0, 6);
    let v = dow_inner_spec(field);
    if v.contains(7) && !v.contains(0) {
        assert(v.push(0)[v.len() as int] == 0);
        assert forall|i: int, j: int| 0 <= i < j < v.push(0).len() implies v.push(0)[i] != v.push(0)[j] by {
            if j == v.len() {
                assert(v[i] == v.push(0)[i]);
            }
        }
    }
}

/// Sunday is matched as 0 whenever it is matched as 7.
pub proof fn lemma_sunday_both_ways(field: Seq<char>)
    ensures
        expand_dow_spec(field).contains(7) ==> expand_dow_spec(field).contains(0),
{
    let v = dow_inner_spec(field);
    if v.contains(7) && !v.contains(0) {
        assert(v.push(0)[v.len() as int] == 0);
        let k = choose|k: int| 0 <= k < v.len() && v[k] == 7;
        assert(v.push(0)[k] == 7);
    }
}


/// Whether stepping from `lo` by `s` up to `hi` stays within `u32`.
fn step_fits_exec(lo: u32, hi: u32, s: u32) -> (r: bool)
    ensures
        r == step_fits(lo as int, hi as int, s as int),
{
    if s == 0 {
        return false;
    }
    let mut v: u64 = lo as u64;
    let ghost mut k: nat = 0;
    while v <= hi as u64
        invariant
            s > 0,
            v == lo + k * s,
            v <= u32::MAX + s,
            forall|k2: nat| k2 < k ==> #[trigger] (lo + k2 * s) + s <= u32::MAX,
        decreases hi as u64 + s as u64 - v,
    {
        if v + s as u64 > 0xffff_ffff {
            assert(!step_fits(lo as int, hi as int, s as int)) by {
                assert(lo + k * s <= hi);
            }
            return false;
        }
        v = v + s as u64;
        proof {
            assert(lo + (k + 1) * s == lo + k * s + s) by (nonlinear_arith);
            k = k + 1;
        }
    }
    assert forall|k2: nat| #![trigger lo + k2 * s] lo + k2 * s <= hi implies lo + k2 * s + s <= u32::MAX by {
        if k2 >= k {
            assert(lo + k2 * s >= lo + k * s) by (nonlinear_arith)
                requires
                    k2 >= k,
                    s > 0,
            ;
        }
    }
    true
}

/// Whether a piece can be expanded (see [`part_ok`]).
fn part_ok_exec(p: &str, lo: u32, hi: u32) -> (r: bool)
    ensures
        r == part_ok(p@, lo, hi),
{
    match strip_prefix_str(p, "*/") {
        Some(step) => match parse_u32_str(step) {
            Some(s) => step_fits_exec(lo, hi, s),
            None => true,
        },
        None => true,
    }
}

/// Whether a field can be expanded (see [`expand_ok`]).
pub fn field_expandable(field: &str, lo: u32, hi: u32) -> (r: bool)
    ensures
        r == expand_ok(field@, lo, hi),
{
    let parts = split_on_char(field, ',');
    let ghost pv = parts.deep_view();
    let mut i: usize = 0;
    assert(pv.take(0) =~= Seq::<Seq<char>>::empty());
    while i < parts.len()
        invariant
            pv == parts.deep_view(),
            pv == split_char(field@, ','),
            i <= parts@.len(),
            !pv.take(i as int).contains("*"@),
            forall|j: int| 0 <= j < i ==> part_ok(#[trigger] pv[j], lo, hi),
        decreases parts@.len() - i,
    {
        if is_star(parts[i]) {
            assert forall|j: int|
                0 <= j < pv.len() && !pv.take(j).contains("*"@) implies part_ok(
                #[trigger] pv[j],
                lo,
                hi,
            ) by {
                if j > i {
                    assert(pv.take(j)[i as int] == "*"@);
                } else if j == i {
                    reveal_strlit("*");
                    reveal_strlit("*/");
                    assert(!starts_with(pv[j], "*/"@));
                }
            }
            return true;
        }
        if !part_ok_exec(parts[i], lo, hi) {
            assert(pv[i as int] == parts@[i as int]@);
            assert(!part_ok(pv[i as int], lo, hi));
            assert(!pv.take(i as int).contains("*"@));
            return false;
        }
        assert(!pv.take(i + 1).contains("*"@)) by {
            if pv.take(i + 1).contains("*"@) {
                let k = choose|k: int| 0 <= k < i + 1 && #[trigger] pv.take(i + 1)[k] == "*"@;
                if k < i {
                    assert(pv.take(i as int)[k] == "*"@);
                }
            }
        }
        i = i + 1;
    }
    true
}

/// Whether every field of a schedule can be expanded.
pub fn schedule_is_expandable(schedule: &str) -> (r: bool)
    ensures
        r == schedule_expandable(schedule@),
{
    let w = split_whitespace(schedule);
    assert(w.deep_view().len() == w@.len());
    if w.len() != 5 {
        return true;
    }
    field_expandable(w[0], 0, 59) && field_expandable(w[1], 0, 23) && field_expandable(w[2], 1, 31)
        && field_expandable(w[3], 1, 12) && field_expandable(w[4], 0, 6)
}

} // verus!
